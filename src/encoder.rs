//! The adapter: pending run heads at both ends of a source that is consumed from either side.
use std::collections::VecDeque;
use vstd::laws_eq::*;
use vstd::prelude::*;
use vstd::std_specs::cmp::PartialEqSpec;

use crate::runs::{
    Run, back_pairs, front_pairs, lemma_runs_size, lemma_runs_split_back, lemma_runs_split_front,
    pull, runs,
};

verus! {

broadcast use vstd::std_specs::vecdeque::group_vec_dequeue_axioms;

/// The elements held by an optional value: none or one.
pub open spec fn opt_seq<T>(o: Option<T>) -> Seq<T> {
    match o {
        Some(x) => seq![x],
        None => Seq::empty(),
    }
}

/// A pulled pair, with its count as a natural number.
pub open spec fn out_of<T>(r: Option<(usize, T)>) -> Option<(nat, T)> {
    match r {
        Some((c, x)) => Some((c as nat, x)),
        None => None,
    }
}

/// Pairs with their counts as natural numbers.
pub open spec fn pairs_of<T>(r: Seq<(usize, T)>) -> Seq<(nat, T)> {
    Seq::new(r.len(), |i: int| (r[i].0 as nat, r[i].1))
}

/// Yields the run-length encoding of a source, as `(count, element)` pairs, from the front with
/// `next` and from the back with `next_back`, in any interleaving.
///
/// A pull reads the source on its own side until a run is closed. A run read from the front is
/// reported with its first element, a run read from the back with its last. Between pulls a
/// side holds at most one pending run, and that run holds exactly one element: the one that
/// closed the run reported before it. So the pending state is the run's element alone.
pub struct RunLengthEncode<T> {
    source: VecDeque<T>,
    current_front: Option<T>,
    current_back: Option<T>,
}

impl<T: PartialEq> View for RunLengthEncode<T> {
    type V = Seq<Run<T>>;

    /// The runs that are still to be reported, front to back.
    open spec fn view(&self) -> Seq<Run<T>> {
        runs(self.remaining())
    }
}

impl<T: PartialEq> RunLengthEncode<T> {
    /// The elements not yet reported, in source order: the front's pending element, what the
    /// source still holds, and the back's pending element.
    pub closed spec fn remaining(&self) -> Seq<T> {
        opt_seq(self.current_front) + self.source@ + opt_seq(self.current_back)
    }

    /// Equality on `T` is an equivalence that `eq` computes, and every count fits a `usize`.
    pub closed spec fn wf(&self) -> bool {
        &&& obeys_eq::<T>()
        &&& self.remaining().len() <= usize::MAX
    }

    /// Wraps `source`; nothing is pending yet.
    pub fn new(source: VecDeque<T>) -> (r: Self)
        requires
            obeys_eq::<T>(),
        ensures
            r.wf(),
            r.remaining() == source@,
            r@ == runs(source@),
    {
        proof {
            assert(source@.len() == source.len());
        }
        let r = RunLengthEncode { source, current_front: None, current_back: None };
        assert(r.remaining() =~= r.source@);
        r
    }

    /// Pulls the next run from the front: its length and its first element.
    pub fn next(&mut self) -> (r: Option<(usize, T)>)
        requires
            old(self).wf(),
        ensures
            final(self).wf(),
            (final(self)@, out_of(r)) == pull(old(self)@, true),
    {
        let ghost l0 = self.remaining();
        let ghost back = opt_seq(self.current_back);
        let ghost mut seen: Seq<T> = opt_seq(self.current_front);
        let mut count: usize = if self.current_front.is_some() {
            1
        } else {
            0
        };
        loop
            invariant
                obeys_eq::<T>(),
                l0.len() <= usize::MAX,
                l0 == seen + self.source@ + back,
                back == opt_seq(self.current_back),
                self.current_back == old(self).current_back,
                l0 == old(self).remaining(),
                count == seen.len(),
                match self.current_front {
                    Some(x) => seen.len() > 0 && seen[0] == x && forall|i: int|
                        0 < i < seen.len() ==> (#[trigger] seen[i]).eq_spec(&x),
                    None => seen.len() == 0,
                },
            decreases self.source@.len(),
        {
            match self.source.pop_front() {
                Some(item) => {
                    let same = match &self.current_front {
                        Some(cur) => item.eq(cur),
                        None => false,
                    };
                    if same {
                        proof {
                            assert(l0 =~= seen.push(item) + self.source@ + back);
                            seen = seen.push(item);
                        }
                        count = count + 1;
                    } else {
                        let prev = self.current_front.take();
                        self.current_front = Some(item);
                        match prev {
                            Some(cur) => {
                                proof {
                                    let rest = seq![item] + self.source@ + back;
                                    assert(l0 =~= seen + rest);
                                    assert(rest[0] == item);
                                    lemma_runs_split_front(seen, rest);
                                    assert(self.remaining() =~= rest);
                                    assert(runs(l0).drop_first() =~= runs(rest));
                                }
                                return Some((count, cur));
                            }
                            None => {
                                proof {
                                    assert(l0 =~= seq![item] + self.source@ + back);
                                    seen = seq![item];
                                }
                                count = 1;
                            },
                        }
                    }
                },
                None => {
                    match self.current_front.take() {
                        Some(x) => {
                            let merge = match &self.current_back {
                                Some(b) => x.eq(b),
                                None => false,
                            };
                            if merge {
                                proof {
                                    reveal(obeys_eq_spec_properties);
                                    let b = self.current_back->0;
                                    assert(b.eq_spec(&x));
                                    assert(seen[0] == x);
                                    let empty = Seq::<T>::empty();
                                    let all = seen + back;
                                    assert(l0 =~= all + empty);
                                    assert(all[all.len() - 1] == back[0]);
                                    assert forall|i: int| 0 < i < all.len() implies (
                                    #[trigger] all[i]).eq_spec(&all[0]) by {
                                        if i < seen.len() {
                                            assert(all[i] == seen[i]);
                                        }
                                    }
                                    lemma_runs_split_front(all, empty);
                                    assert(runs(empty) =~= Seq::<Run<T>>::empty());
                                    assert(runs(l0).drop_first() =~= Seq::<Run<T>>::empty());
                                }
                                self.current_back = None;
                                proof {
                                    assert(self.remaining() =~= Seq::<T>::empty());
                                }
                                return Some((count + 1, x));
                            } else {
                                proof {
                                    reveal(obeys_eq_spec_properties);
                                    assert(l0 =~= seen + back);
                                    assert(seen[0] == x);
                                    if back.len() > 0 {
                                        let b = self.current_back->0;
                                        assert(back[0] == b);
                                        assert(!x.eq_spec(&b));
                                        assert(!b.eq_spec(&x));
                                    }
                                    lemma_runs_split_front(seen, back);
                                    assert(self.remaining() =~= back);
                                    assert(runs(l0).drop_first() =~= runs(back));
                                }
                                return Some((count, x));
                            }
                        },
                        None => {
                            match self.current_back.take() {
                                Some(b) => {
                                    proof {
                                        let empty = Seq::<T>::empty();
                                        assert(l0 =~= seq![b] + empty);
                                        lemma_runs_split_front(seq![b], empty);
                                        assert(runs(empty) =~= Seq::<Run<T>>::empty());
                                        assert(self.remaining() =~= empty);
                                        assert(runs(l0).drop_first() =~= Seq::<Run<T>>::empty());
                                    }
                                    return Some((1, b));
                                },
                                None => {
                                    proof {
                                        assert(l0 =~= Seq::<T>::empty());
                                        assert(self.remaining() =~= l0);
                                    }
                                    return None;
                                },
                            }
                        },
                    }
                },
            }
        }
    }

    /// Pulls the next run from the back: its length and its last element.
    pub fn next_back(&mut self) -> (r: Option<(usize, T)>)
        requires
            old(self).wf(),
        ensures
            final(self).wf(),
            (final(self)@, out_of(r)) == pull(old(self)@, false),
    {
        let ghost l0 = self.remaining();
        let ghost front = opt_seq(self.current_front);
        let ghost mut seen: Seq<T> = opt_seq(self.current_back);
        let mut count: usize = if self.current_back.is_some() {
            1
        } else {
            0
        };
        loop
            invariant
                obeys_eq::<T>(),
                l0.len() <= usize::MAX,
                l0 == front + self.source@ + seen,
                front == opt_seq(self.current_front),
                self.current_front == old(self).current_front,
                l0 == old(self).remaining(),
                count == seen.len(),
                match self.current_back {
                    Some(y) => seen.len() > 0 && seen[seen.len() - 1] == y && forall|i: int|
                        0 <= i < seen.len() - 1 ==> (#[trigger] seen[i]).eq_spec(&y),
                    None => seen.len() == 0,
                },
            decreases self.source@.len(),
        {
            match self.source.pop_back() {
                Some(item) => {
                    let same = match &self.current_back {
                        Some(cur) => item.eq(cur),
                        None => false,
                    };
                    if same {
                        proof {
                            let grown = seq![item] + seen;
                            assert(l0 =~= front + self.source@ + grown);
                            assert forall|i: int| 0 <= i < grown.len() - 1 implies (
                            #[trigger] grown[i]).eq_spec(&grown[grown.len() - 1]) by {
                                if i > 0 {
                                    assert(grown[i] == seen[i - 1]);
                                }
                            }
                            seen = grown;
                        }
                        count = count + 1;
                    } else {
                        let prev = self.current_back.take();
                        self.current_back = Some(item);
                        match prev {
                            Some(cur) => {
                                proof {
                                    let rest = front + self.source@ + seq![item];
                                    assert(l0 =~= rest + seen);
                                    assert(rest[rest.len() - 1] == item);
                                    lemma_runs_split_back(rest, seen);
                                    assert(self.remaining() =~= rest);
                                    assert(runs(l0).drop_last() =~= runs(rest));
                                }
                                return Some((count, cur));
                            }
                            None => {
                                proof {
                                    assert(l0 =~= front + self.source@ + seq![item]);
                                    seen = seq![item];
                                }
                                count = 1;
                            },
                        }
                    }
                },
                None => {
                    match self.current_back.take() {
                        Some(y) => {
                            let merge = match &self.current_front {
                                Some(f) => f.eq(&y),
                                None => false,
                            };
                            if merge {
                                proof {
                                    let empty = Seq::<T>::empty();
                                    let all = front + seen;
                                    assert(l0 =~= empty + all);
                                    assert(all[all.len() - 1] == y);
                                    assert forall|i: int| 0 <= i < all.len() - 1 implies (
                                    #[trigger] all[i]).eq_spec(&all[all.len() - 1]) by {
                                        if i > 0 {
                                            assert(all[i] == seen[i - 1]);
                                        }
                                    }
                                    lemma_runs_split_back(empty, all);
                                    assert(runs(empty) =~= Seq::<Run<T>>::empty());
                                    assert(runs(l0).drop_last() =~= Seq::<Run<T>>::empty());
                                }
                                self.current_front = None;
                                proof {
                                    assert(self.remaining() =~= Seq::<T>::empty());
                                }
                                return Some((count + 1, y));
                            } else {
                                proof {
                                    assert(l0 =~= front + seen);
                                    lemma_runs_split_back(front, seen);
                                    assert(self.remaining() =~= front);
                                    assert(runs(l0).drop_last() =~= runs(front));
                                }
                                return Some((count, y));
                            }
                        },
                        None => {
                            match self.current_front.take() {
                                Some(f) => {
                                    proof {
                                        let empty = Seq::<T>::empty();
                                        assert(l0 =~= seq![f] + empty);
                                        lemma_runs_split_front(seq![f], empty);
                                        assert(runs(empty) =~= Seq::<Run<T>>::empty());
                                        assert(self.remaining() =~= empty);
                                        assert(runs(l0).drop_last() =~= Seq::<Run<T>>::empty());
                                    }
                                    return Some((1, f));
                                },
                                None => {
                                    proof {
                                        assert(l0 =~= Seq::<T>::empty());
                                        assert(self.remaining() =~= l0);
                                    }
                                    return None;
                                },
                            }
                        },
                    }
                },
            }
        }
    }

    /// Bounds on how many runs are still to come: at least one while anything remains, and at
    /// most as many as the elements that remain.
    pub fn size_hint(&self) -> (r: (usize, Option<usize>))
        requires
            self.wf(),
        ensures
            r.0 <= self@.len(),
            (r.0 == 0) == (self@.len() == 0),
            r.1 is Some,
            self@.len() <= r.1->0,
    {
        proof {
            lemma_runs_size(self.remaining());
            assert(self.source@.len() == self.source.len());
        }
        let mut upper: usize = self.source.len();
        if self.current_front.is_some() {
            upper = upper + 1;
        }
        if self.current_back.is_some() {
            upper = upper + 1;
        }
        let lower: usize = if upper > 0 {
            1
        } else {
            0
        };
        (lower, Some(upper))
    }

    /// Pulls every run from the front: the pairs in source order, each with its first element.
    pub fn collect_vec(self) -> (r: Vec<(usize, T)>)
        requires
            self.wf(),
        ensures
            pairs_of(r@) == front_pairs(self@),
    {
        let ghost v0 = self@;
        let mut it = self;
        let mut out: Vec<(usize, T)> = Vec::new();
        loop
            invariant
                it.wf(),
                v0 == self@,
                it@.len() <= v0.len(),
                it@ == v0.skip(v0.len() - it@.len()),
                pairs_of(out@) == front_pairs(v0.take(v0.len() - it@.len())),
            decreases it@.len(),
        {
            let ghost before = it@;
            match it.next() {
                Some(p) => {
                    proof {
                        let k = v0.len() - before.len();
                        assert(v0[k] == before[0]);
                        assert(pairs_of(out@).len() == k);
                        assert(out@.len() == k);
                        let grown = out@.push(p);
                        assert forall|i: int| 0 <= i < k + 1 implies pairs_of(grown)[i]
                            == front_pairs(v0.take(k + 1))[i] by {
                            if i < k {
                                assert(grown[i] == out@[i]);
                                assert(pairs_of(out@)[i] == front_pairs(v0.take(k))[i]);
                            }
                        }
                        assert(pairs_of(grown) =~= front_pairs(v0.take(k + 1)));
                        assert(it@ =~= v0.skip(k + 1));
                    }
                    out.push(p);
                },
                None => {
                    proof {
                        assert(v0.take(v0.len() as int) =~= v0);
                    }
                    return out;
                },
            }
        }
    }

    /// Pulls every run from the back: the pairs in reverse source order, each with its last
    /// element.
    pub fn collect_vec_rev(self) -> (r: Vec<(usize, T)>)
        requires
            self.wf(),
        ensures
            pairs_of(r@) == back_pairs(self@),
    {
        let ghost v0 = self@;
        let mut it = self;
        let mut out: Vec<(usize, T)> = Vec::new();
        loop
            invariant
                it.wf(),
                v0 == self@,
                it@.len() <= v0.len(),
                it@ == v0.take(it@.len() as int),
                pairs_of(out@) == back_pairs(v0.skip(it@.len() as int)),
            decreases it@.len(),
        {
            let ghost before = it@;
            match it.next_back() {
                Some(p) => {
                    proof {
                        let k = before.len() - 1;
                        assert(v0[k] == before[k]);
                        let m = v0.len() - before.len();
                        assert(pairs_of(out@).len() == m);
                        assert(out@.len() == m);
                        let grown = out@.push(p);
                        assert forall|i: int| 0 <= i < m + 1 implies pairs_of(grown)[i]
                            == back_pairs(v0.skip(k))[i] by {
                            if i < m {
                                assert(grown[i] == out@[i]);
                                assert(pairs_of(out@)[i] == back_pairs(v0.skip(k + 1))[i]);
                            }
                        }
                        assert(pairs_of(grown) =~= back_pairs(v0.skip(k)));
                        assert(it@ =~= v0.take(k));
                    }
                    out.push(p);
                },
                None => {
                    proof {
                        assert(v0.skip(0) =~= v0);
                    }
                    return out;
                },
            }
        }
    }
}

/// Turns a collection into a [`RunLengthEncode`] over its elements, front to back.
pub trait IteratorExt<T: PartialEq>: Sized {
    /// The elements, front to back.
    spec fn elements(&self) -> Seq<T>;

    fn run_length_encode(self) -> (r: RunLengthEncode<T>)
        requires
            obeys_eq::<T>(),
        ensures
            r.wf(),
            r.remaining() == self.elements(),
            r@ == runs(self.elements()),
    ;
}

impl<T: PartialEq> IteratorExt<T> for VecDeque<T> {
    open spec fn elements(&self) -> Seq<T> {
        self@
    }

    fn run_length_encode(self) -> (r: RunLengthEncode<T>) {
        RunLengthEncode::new(self)
    }
}

impl<T: PartialEq> IteratorExt<T> for Vec<T> {
    open spec fn elements(&self) -> Seq<T> {
        self@
    }

    fn run_length_encode(self) -> (r: RunLengthEncode<T>) {
        let ghost all = self@;
        let mut rest = self;
        let mut source: VecDeque<T> = VecDeque::new();
        while rest.len() > 0
            invariant
                all == rest@ + source@,
            decreases rest.len(),
        {
            let x = rest.pop().unwrap();
            source.push_front(x);
            proof {
                assert(all =~= rest@ + source@);
            }
        }
        proof {
            assert(rest@.len() == 0);
            assert(source@ =~= all);
        }
        RunLengthEncode::new(source)
    }
}

} // verus!

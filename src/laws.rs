//! What holds of any sequence of pulls, from either end, on the runs still to be reported.
use vstd::laws_eq::*;
use vstd::prelude::*;

use crate::runs::{
    Run, back_pairs, encoding, front_pairs, lemma_runs_reverse, lemma_runs_size, pull, runs,
    total,
};

verus! {

/// The runs left and what each pull reported, for pulls made in the order `dirs` (`true` for
/// the front, `false` for the back).
pub open spec fn pulls<T>(v: Seq<Run<T>>, dirs: Seq<bool>) -> (Seq<Run<T>>, Seq<Option<(nat, T)>>)
    decreases dirs.len(),
{
    if dirs.len() == 0 {
        (v, Seq::empty())
    } else {
        let (v1, o) = pull(v, dirs[0]);
        let (vn, os) = pulls(v1, dirs.drop_first());
        (vn, seq![o] + os)
    }
}

/// The pairs that the pulls made on one side reported, in the order they were reported.
pub open spec fn reported<T>(v: Seq<Run<T>>, dirs: Seq<bool>, from_front: bool) -> Seq<(nat, T)>
    decreases dirs.len(),
{
    if dirs.len() == 0 {
        Seq::empty()
    } else {
        let (v1, o) = pull(v, dirs[0]);
        let rest = reported(v1, dirs.drop_first(), from_front);
        if dirs[0] == from_front && o is Some {
            seq![o->0] + rest
        } else {
            rest
        }
    }
}

/// After any pulls, what is left is a window of the runs: the front has reported the runs
/// before it, the back those after it, and a pull reports something exactly while runs remain.
proof fn lemma_pulls_window<T>(v: Seq<Run<T>>, dirs: Seq<bool>)
    ensures
        pulls(v, dirs).1.len() == dirs.len(),
        forall|i: int| 0 <= i < dirs.len() ==> (#[trigger] pulls(v, dirs).1[i] is Some <==> i < v.len()),
        reported(v, dirs, true).len() + reported(v, dirs, false).len() == if dirs.len() < v.len() {
            dirs.len()
        } else {
            v.len()
        },
        pulls(v, dirs).0 == v.subrange(
            reported(v, dirs, true).len() as int,
            v.len() - reported(v, dirs, false).len(),
        ),
        reported(v, dirs, true) == front_pairs(v.take(reported(v, dirs, true).len() as int)),
        reported(v, dirs, false) == back_pairs(v.skip(v.len() - reported(v, dirs, false).len())),
    decreases dirs.len(),
{
    if dirs.len() == 0 {
        assert(v.subrange(0, v.len() as int) =~= v);
        assert(front_pairs(v.take(0)) =~= Seq::<(nat, T)>::empty());
        assert(back_pairs(v.skip(v.len() as int)) =~= Seq::<(nat, T)>::empty());
    } else {
        let rest = dirs.drop_first();
        let (v1, o) = pull(v, dirs[0]);
        lemma_pulls_window(v1, rest);
        let outs = pulls(v, dirs).1;
        let outs1 = pulls(v1, rest).1;
        assert(outs =~= seq![o] + outs1);
        let f1 = reported(v1, rest, true).len() as int;
        let b1 = reported(v1, rest, false).len() as int;
        if v.len() == 0 {
            assert(v1 == v);
        } else if dirs[0] {
            assert(v1 =~= v.drop_first());
            assert forall|i: int| 0 <= i < dirs.len() implies (#[trigger] outs[i] is Some <==> i
                < v.len()) by {
                if i > 0 {
                    assert(outs[i] == outs1[i - 1]);
                }
            }
            assert(v1.subrange(f1, v1.len() - b1) =~= v.subrange(f1 + 1, v.len() - b1));
            assert(seq![(v[0].count, v[0].first)] + front_pairs(v1.take(f1)) =~= front_pairs(
                v.take(f1 + 1),
            ));
            assert(v1.skip(v1.len() - b1) =~= v.skip(v.len() - b1));
        } else {
            let n = v.len() as int;
            assert(v1 =~= v.drop_last());
            assert forall|i: int| 0 <= i < dirs.len() implies (#[trigger] outs[i] is Some <==> i
                < v.len()) by {
                if i > 0 {
                    assert(outs[i] == outs1[i - 1]);
                }
            }
            assert(v1.subrange(f1, v1.len() - b1) =~= v.subrange(f1, n - (b1 + 1)));
            assert(v1.take(f1) =~= v.take(f1));
            assert(seq![(v[n - 1].count, v[n - 1].last)] + back_pairs(v1.skip(v1.len() - b1))
                =~= back_pairs(v.skip(n - (b1 + 1))));
        }
    }
}

/// Pulls made on one side only report nothing on the other.
proof fn lemma_one_side<T>(v: Seq<Run<T>>, dirs: Seq<bool>, from_front: bool)
    requires
        forall|i: int| 0 <= i < dirs.len() ==> dirs[i] == from_front,
    ensures
        reported(v, dirs, !from_front).len() == 0,
    decreases dirs.len(),
{
    if dirs.len() > 0 {
        let (v1, o) = pull(v, dirs[0]);
        lemma_one_side(v1, dirs.drop_first(), from_front);
    }
}

/// Once a pull reports nothing, every later pull, from either end, reports nothing too.
pub proof fn lemma_exhaustion_is_final<T>(v: Seq<Run<T>>, dirs: Seq<bool>)
    ensures
        forall|i: int, j: int|
            0 <= i < j < dirs.len() && (#[trigger] pulls(v, dirs).1[i]) is None ==> (
            #[trigger] pulls(v, dirs).1[j]) is None,
{
    lemma_pulls_window(v, dirs);
}

/// Pulling only from the front, as many times as `s` has elements, reports the single-pass
/// run-length encoding of `s`, in order, and leaves nothing.
pub proof fn lemma_front_drain<T: PartialEq>(s: Seq<T>, dirs: Seq<bool>)
    requires
        dirs.len() >= s.len(),
        forall|i: int| 0 <= i < dirs.len() ==> dirs[i],
    ensures
        pulls(runs(s), dirs).0.len() == 0,
        reported(runs(s), dirs, true) == encoding(s),
{
    let v = runs(s);
    lemma_runs_size(s);
    lemma_pulls_window(v, dirs);
    lemma_one_side(v, dirs, true);
    assert(v.take(v.len() as int) =~= v);
}

/// Pulling only from the back, as many times as `s` has elements, reports the runs from the last
/// to the first, each with its last element: the encoding of `s` read backwards. This needs
/// equality to be an equivalence.
pub proof fn lemma_back_drain<T: PartialEq>(s: Seq<T>, dirs: Seq<bool>)
    requires
        obeys_eq::<T>(),
        dirs.len() >= s.len(),
        forall|i: int| 0 <= i < dirs.len() ==> !dirs[i],
    ensures
        pulls(runs(s), dirs).0.len() == 0,
        reported(runs(s), dirs, false) == encoding(s.reverse()),
{
    let v = runs(s);
    lemma_runs_size(s);
    lemma_pulls_window(v, dirs);
    lemma_one_side(v, dirs, false);
    assert(v.skip(0) =~= v);
    lemma_runs_reverse(s);
    assert(back_pairs(v) =~= front_pairs(runs(s.reverse())));
}

/// Draining `s` from one end only reports counts that add up to the length of `s`.
pub proof fn lemma_drain_total<T: PartialEq>(s: Seq<T>, dirs: Seq<bool>, from_front: bool)
    requires
        obeys_eq::<T>(),
        dirs.len() >= s.len(),
        forall|i: int| 0 <= i < dirs.len() ==> dirs[i] == from_front,
    ensures
        total(reported(runs(s), dirs, from_front)) == s.len(),
{
    if from_front {
        lemma_front_drain(s, dirs);
        lemma_runs_size(s);
    } else {
        lemma_back_drain(s, dirs);
        lemma_runs_size(s.reverse());
    }
}

/// Pulling from both ends in any order, as many times as `s` has elements, reports every run of
/// `s` exactly once and leaves nothing: the front reports the first runs in order, each with its
/// first element, and the back all the others from the last one backwards, each with its last
/// element.
pub proof fn lemma_interleaved_drain<T: PartialEq>(s: Seq<T>, dirs: Seq<bool>)
    requires
        dirs.len() >= s.len(),
    ensures
        pulls(runs(s), dirs).0.len() == 0,
        reported(runs(s), dirs, true) == front_pairs(
            runs(s).take(reported(runs(s), dirs, true).len() as int),
        ),
        reported(runs(s), dirs, false) == back_pairs(
            runs(s).skip(reported(runs(s), dirs, true).len() as int),
        ),
{
    lemma_runs_size(s);
    lemma_pulls_window(runs(s), dirs);
}

proof fn lemma_total_concat<T>(a: Seq<(nat, T)>, b: Seq<(nat, T)>)
    ensures
        total(a + b) == total(a) + total(b),
    decreases a.len(),
{
    if a.len() == 0 {
        assert(a + b =~= b);
    } else {
        assert((a + b).drop_first() =~= a.drop_first() + b);
        lemma_total_concat(a.drop_first(), b);
    }
}

proof fn lemma_total_back_pairs<T>(w: Seq<Run<T>>)
    ensures
        total(back_pairs(w)) == total(front_pairs(w)),
    decreases w.len(),
{
    if w.len() > 0 {
        let n = w.len() as int;
        let init = w.drop_last();
        lemma_total_back_pairs(init);
        assert(back_pairs(w).drop_first() =~= back_pairs(init));
        let last = seq![(w[n - 1].count, w[n - 1].first)];
        assert(front_pairs(w) =~= front_pairs(init) + last);
        lemma_total_concat(front_pairs(init), last);
        assert(last.drop_first() =~= Seq::<(nat, T)>::empty());
        assert(total(last.drop_first()) == 0);
        assert(last[0].0 == w[n - 1].count);
        assert(total(last) == w[n - 1].count);
        assert(back_pairs(w)[0].0 == w[n - 1].count);
    }
}

/// Pulling from both ends in any order, as many times as `s` has elements, reports counts that
/// add up to the length of `s`.
pub proof fn lemma_interleaved_total<T: PartialEq>(s: Seq<T>, dirs: Seq<bool>)
    requires
        dirs.len() >= s.len(),
    ensures
        total(reported(runs(s), dirs, true)) + total(reported(runs(s), dirs, false)) == s.len(),
{
    let v = runs(s);
    lemma_interleaved_drain(s, dirs);
    lemma_runs_size(s);
    lemma_pulls_window(v, dirs);
    let m = reported(v, dirs, true).len() as int;
    lemma_total_back_pairs(v.skip(m));
    let a = front_pairs(v.take(m));
    let b = front_pairs(v.skip(m));
    assert forall|i: int| 0 <= i < v.len() implies front_pairs(v)[i] == (a + b)[i] by {
        if i < m {
            assert(v.take(m)[i] == v[i]);
        } else {
            assert(v.skip(m)[i - m] == v[i]);
        }
    }
    assert(front_pairs(v) =~= a + b);
    lemma_total_concat(front_pairs(v.take(m)), front_pairs(v.skip(m)));
}

} // verus!

//! The mathematical model: how a sequence splits into maximal runs of equal elements.
use vstd::laws_eq::*;
use vstd::prelude::*;
use vstd::std_specs::cmp::PartialEqSpec;

verus! {

/// One maximal run of a sequence: how many elements it has, its first element and its last.
pub ghost struct Run<T> {
    pub count: nat,
    pub first: T,
    pub last: T,
}

/// How many elements at the start of `s` compare equal to `x`.
pub open spec fn lead<T: PartialEq>(s: Seq<T>, x: T) -> nat
    decreases s.len(),
{
    if s.len() > 0 && s[0].eq_spec(&x) {
        1 + lead(s.drop_first(), x)
    } else {
        0
    }
}

/// `lead` counts a prefix of elements equal to `x`, and the element after it, if any, is not.
pub proof fn lemma_lead_bounds<T: PartialEq>(s: Seq<T>, x: T)
    ensures
        lead(s, x) <= s.len(),
        forall|i: int| 0 <= i < lead(s, x) ==> (#[trigger] s[i]).eq_spec(&x),
        lead(s, x) < s.len() ==> !s[lead(s, x) as int].eq_spec(&x),
    decreases s.len(),
{
    if s.len() > 0 && s[0].eq_spec(&x) {
        lemma_lead_bounds(s.drop_first(), x);
        assert forall|i: int| 0 <= i < lead(s, x) implies (#[trigger] s[i]).eq_spec(&x) by {
            if i > 0 {
                assert(s[i] == s.drop_first()[i - 1]);
            }
        }
    }
}

/// Scans `s` with a run still open: it began with `first`, holds `count` elements so far and
/// ends, so far, with `last`. Each element joins the open run when it compares equal to the
/// run's first element, and otherwise closes it and opens the next.
pub open spec fn scan<T: PartialEq>(first: T, last: T, count: nat, s: Seq<T>) -> Seq<Run<T>>
    decreases s.len(),
{
    if s.len() == 0 {
        seq![Run { count, first, last }]
    } else if s[0].eq_spec(&first) {
        scan(first, s[0], count + 1, s.drop_first())
    } else {
        seq![Run { count, first, last }] + scan(s[0], s[0], 1, s.drop_first())
    }
}

/// The maximal runs of `s`, front to back.
pub open spec fn runs<T: PartialEq>(s: Seq<T>) -> Seq<Run<T>> {
    if s.len() == 0 {
        Seq::empty()
    } else {
        scan(s[0], s[0], 1, s.drop_first())
    }
}

proof fn lemma_scan_absorb<T: PartialEq>(first: T, last: T, count: nat, q: Seq<T>, rest: Seq<T>)
    requires
        forall|i: int| 0 <= i < q.len() ==> (#[trigger] q[i]).eq_spec(&first),
        rest.len() > 0 ==> !rest[0].eq_spec(&first),
    ensures
        scan(first, last, count, q + rest) == seq![
            Run {
                count: count + q.len(),
                first,
                last: if q.len() == 0 { last } else { q[q.len() - 1] },
            },
        ] + runs(rest),
    decreases q.len(),
{
    let s = q + rest;
    if q.len() == 0 {
        assert(s =~= rest);
        if rest.len() == 0 {
            assert(runs(rest) =~= Seq::<Run<T>>::empty());
            assert(scan(first, last, count, s) =~= seq![Run { count, first, last }]
                + runs(rest));
        }
    } else {
        assert(s[0] == q[0]);
        let q2 = q.drop_first();
        assert forall|i: int| 0 <= i < q2.len() implies (#[trigger] q2[i]).eq_spec(&first) by {
            assert(q2[i] == q[i + 1]);
        }
        assert(s.drop_first() =~= q2 + rest);
        lemma_scan_absorb(first, q[0], count + 1, q2, rest);
    }
}

/// A non-empty prefix whose elements compare equal to its first one, followed by an element
/// that does not, or by nothing, is the first run.
pub proof fn lemma_runs_split_front<T: PartialEq>(p: Seq<T>, rest: Seq<T>)
    requires
        p.len() > 0,
        forall|i: int| 0 < i < p.len() ==> (#[trigger] p[i]).eq_spec(&p[0]),
        rest.len() > 0 ==> !rest[0].eq_spec(&p[0]),
    ensures
        runs(p + rest) == seq![Run { count: p.len(), first: p[0], last: p[p.len() - 1] }]
            + runs(rest),
{
    let s = p + rest;
    let q = p.drop_first();
    assert forall|i: int| 0 <= i < q.len() implies (#[trigger] q[i]).eq_spec(&p[0]) by {
        assert(q[i] == p[i + 1]);
    }
    assert(s[0] == p[0]);
    assert(s.drop_first() =~= q + rest);
    lemma_scan_absorb(p[0], p[0], 1, q, rest);
}

/// A non-empty suffix whose elements compare equal to its last one, preceded by an element that
/// does not, or by nothing, is the last run. This needs equality to be an equivalence.
pub proof fn lemma_runs_split_back<T: PartialEq>(r: Seq<T>, q: Seq<T>)
    requires
        obeys_eq::<T>(),
        q.len() > 0,
        forall|i: int| 0 <= i < q.len() - 1 ==> (#[trigger] q[i]).eq_spec(&q[q.len() - 1]),
        r.len() > 0 ==> !r[r.len() - 1].eq_spec(&q[q.len() - 1]),
    ensures
        runs(r + q) == runs(r) + seq![Run { count: q.len(), first: q[0], last: q[q.len() - 1] }],
    decreases r.len(),
{
    reveal(obeys_eq_spec_properties);
    let y = q[q.len() - 1];
    assert forall|i: int| 0 < i < q.len() implies (#[trigger] q[i]).eq_spec(&q[0]) by {
        assert(q[0].eq_spec(&y));
        if i < q.len() - 1 {
            assert(q[i].eq_spec(&y));
        }
    }
    let empty = Seq::<T>::empty();
    lemma_runs_split_front(q, empty);
    assert(q + empty =~= q);
    let last_run = seq![Run { count: q.len(), first: q[0], last: y }];
    assert(runs(empty) =~= Seq::<Run<T>>::empty());
    assert(runs(q) =~= last_run);
    if r.len() == 0 {
        assert(r + q =~= q);
        assert(runs(r) + last_run =~= last_run);
    } else {
        let x = r[0];
        let t = r.drop_first();
        lemma_lead_bounds(t, x);
        let k = 1 + lead(t, x);
        let p = r.take(k as int);
        let r2 = r.skip(k as int);
        assert forall|i: int| 0 < i < p.len() implies (#[trigger] p[i]).eq_spec(&p[0]) by {
            assert(p[i] == t[i - 1]);
        }
        assert(r =~= p + r2);
        assert(r + q =~= p + (r2 + q));
        if k < r.len() {
            assert(r2[0] == t[k - 1]);
            assert((r2 + q)[0] == r2[0]);
            lemma_runs_split_front(p, r2 + q);
            lemma_runs_split_front(p, r2);
            assert(r2[r2.len() - 1] == r[r.len() - 1]);
            lemma_runs_split_back(r2, q);
            let head = seq![Run { count: p.len(), first: p[0], last: p[p.len() - 1] }];
            assert(runs(r + q) =~= head + (runs(r2) + last_run));
            assert(runs(r) + last_run =~= head + runs(r2) + last_run);
        } else {
            assert(r2 =~= empty);
            if q[0].eq_spec(&x) {
                let z = r[r.len() - 1];
                if r.len() > 1 {
                    assert(z == t[r.len() - 2]);
                    assert(z.eq_spec(&x));
                    assert(x.eq_spec(&q[0]));
                    assert(z.eq_spec(&q[0]));
                }
                if q.len() > 1 {
                    assert(q[0].eq_spec(&y));
                    assert(x.eq_spec(&q[0]));
                }
                assert(z.eq_spec(&y));
            }
            lemma_runs_split_front(r, q);
            lemma_runs_split_front(r, empty);
            assert(r + empty =~= r);
        }
    }
}

/// One pull on a sequence of runs still to be reported: from the front it reports the first run
/// with its first element, from the back the last run with its last element, and removes that
/// run. On no runs it reports nothing and leaves them as they are.
pub open spec fn pull<T>(v: Seq<Run<T>>, from_front: bool) -> (Seq<Run<T>>, Option<(nat, T)>) {
    if v.len() == 0 {
        (v, None)
    } else if from_front {
        (v.drop_first(), Some((v[0].count, v[0].first)))
    } else {
        (v.drop_last(), Some((v[v.len() - 1].count, v[v.len() - 1].last)))
    }
}

/// The `(count, first element)` pairs of `v`, front to back.
pub open spec fn front_pairs<T>(v: Seq<Run<T>>) -> Seq<(nat, T)> {
    Seq::new(v.len(), |i: int| (v[i].count, v[i].first))
}

/// The `(count, last element)` pairs of `v`, back to front.
pub open spec fn back_pairs<T>(v: Seq<Run<T>>) -> Seq<(nat, T)> {
    Seq::new(v.len(), |i: int| (v[v.len() - 1 - i].count, v[v.len() - 1 - i].last))
}

/// The single-pass run-length encoding of `s`: each run's length and first element.
pub open spec fn encoding<T: PartialEq>(s: Seq<T>) -> Seq<(nat, T)> {
    front_pairs(runs(s))
}

/// The sum of the counts in `ps`.
pub open spec fn total<T>(ps: Seq<(nat, T)>) -> nat
    decreases ps.len(),
{
    if ps.len() == 0 {
        0
    } else {
        ps[0].0 + total(ps.drop_first())
    }
}

proof fn lemma_scan_size<T: PartialEq>(first: T, last: T, count: nat, t: Seq<T>)
    ensures
        1 <= scan(first, last, count, t).len() <= 1 + t.len(),
        total(front_pairs(scan(first, last, count, t))) == count + t.len(),
    decreases t.len(),
{
    let v = scan(first, last, count, t);
    if t.len() == 0 {
        assert(front_pairs(v).drop_first() =~= Seq::<(nat, T)>::empty());
        assert(total(front_pairs(v).drop_first()) == 0);
    } else if t[0].eq_spec(&first) {
        lemma_scan_size(first, t[0], count + 1, t.drop_first());
    } else {
        let w = scan(t[0], t[0], 1, t.drop_first());
        lemma_scan_size(t[0], t[0], 1, t.drop_first());
        assert(front_pairs(v).drop_first() =~= front_pairs(w));
        assert(front_pairs(v)[0].0 == count);
    }
}

/// `s` has at most as many runs as elements, at least one when it is not empty, and the
/// run lengths add up to its length.
pub proof fn lemma_runs_size<T: PartialEq>(s: Seq<T>)
    ensures
        runs(s).len() <= s.len(),
        s.len() > 0 ==> runs(s).len() > 0,
        total(encoding(s)) == s.len(),
{
    if s.len() > 0 {
        lemma_scan_size(s[0], s[0], 1, s.drop_first());
    } else {
        assert(encoding(s) =~= Seq::<(nat, T)>::empty());
    }
}

/// The runs of `v` in reverse order, each with its first and last element exchanged.
pub open spec fn flip<T>(v: Seq<Run<T>>) -> Seq<Run<T>> {
    Seq::new(
        v.len(),
        |i: int|
            Run {
                count: v[v.len() - 1 - i].count,
                first: v[v.len() - 1 - i].last,
                last: v[v.len() - 1 - i].first,
            },
    )
}

/// Reading `s` backwards gives the same runs in reverse order, each entered from its last
/// element.
pub proof fn lemma_runs_reverse<T: PartialEq>(s: Seq<T>)
    requires
        obeys_eq::<T>(),
    ensures
        runs(s.reverse()) == flip(runs(s)),
    decreases s.len(),
{
    let n = s.len();
    let rs = s.reverse();
    if n == 0 {
        assert(rs =~= s);
        assert(flip(runs(s)) =~= runs(s));
    } else {
        let t = rs.drop_first();
        lemma_lead_bounds(t, rs[0]);
        let k = 1 + lead(t, rs[0]);
        let r = s.take(n - k);
        let q = s.skip(n - k);
        let y = s[n - 1];
        assert(rs[0] == y);
        assert forall|j: int| 0 <= j < q.len() - 1 implies (#[trigger] q[j]).eq_spec(&q[q.len() - 1]) by {
            assert(q[j] == t[k - 2 - j]);
        }
        if r.len() > 0 {
            assert(r[r.len() - 1] == t[k - 1]);
        }
        assert(s =~= r + q);
        lemma_runs_split_back(r, q);
        let p = rs.take(k as int);
        let rest = rs.skip(k as int);
        assert forall|i: int| 0 < i < p.len() implies (#[trigger] p[i]).eq_spec(&p[0]) by {
            assert(p[i] == t[i - 1]);
        }
        if rest.len() > 0 {
            assert(rest[0] == t[k - 1]);
        }
        assert(rs =~= p + rest);
        lemma_runs_split_front(p, rest);
        assert(rest =~= r.reverse());
        lemma_runs_reverse(r);
        let last_run = seq![Run { count: q.len(), first: q[0], last: y }];
        assert(p[p.len() - 1] == q[0]);
        assert(flip(runs(r) + last_run) =~= seq![
            Run { count: p.len(), first: p[0], last: p[p.len() - 1] },
        ] + flip(runs(r)));
    }
}

} // verus!

//! The mathematics of minimizer windows: the leftmost minimal score of a
//! window, ties, and the partition of a run of windows into superkmer spans.
use vstd::prelude::*;

verus! {

/// Position of the leftmost minimal score among `sc[a .. a + len)`.
pub open spec fn min_pos(sc: Seq<u64>, a: int, len: nat) -> int
    decreases len,
{
    if len <= 1 {
        a
    } else {
        let p = min_pos(sc, a, (len - 1) as nat);
        if sc[a + len - 1] < sc[p] {
            a + len - 1
        } else {
            p
        }
    }
}

/// `p` holds the minimal score of `sc[a .. a + len)`, and no position to its
/// left does.
pub open spec fn is_leftmost_min(sc: Seq<u64>, a: int, len: nat, p: int) -> bool {
    &&& a <= p < a + len
    &&& forall|q: int| a <= q < a + len ==> sc[p] <= #[trigger] sc[q]
    &&& forall|q: int| a <= q < p ==> sc[p] < #[trigger] sc[q]
}

/// The minimal score of `sc[a .. a + len)` occurs at two positions or more.
pub open spec fn is_tied(sc: Seq<u64>, a: int, len: nat) -> bool {
    exists|q: int|
        a <= q < a + len && q != min_pos(sc, a, len) && #[trigger] sc[q] == sc[min_pos(
            sc,
            a,
            len,
        )]
}

pub proof fn lemma_min_pos(sc: Seq<u64>, a: int, len: nat)
    requires
        len >= 1,
        0 <= a,
        a + len <= sc.len(),
    ensures
        is_leftmost_min(sc, a, len, min_pos(sc, a, len)),
    decreases len,
{
    if len > 1 {
        lemma_min_pos(sc, a, (len - 1) as nat);
    }
}

pub proof fn lemma_leftmost_min_unique(sc: Seq<u64>, a: int, len: nat, p: int, q: int)
    requires
        is_leftmost_min(sc, a, len, p),
        is_leftmost_min(sc, a, len, q),
    ensures
        p == q,
{
    if p < q {
        assert(sc[q] < sc[p]);
    } else if q < p {
        assert(sc[p] < sc[q]);
    }
}

/// The leftmost minimum is the one `min_pos` names.
pub proof fn lemma_min_pos_is(sc: Seq<u64>, a: int, len: nat, p: int)
    requires
        len >= 1,
        0 <= a,
        a + len <= sc.len(),
        is_leftmost_min(sc, a, len, p),
    ensures
        min_pos(sc, a, len) == p,
{
    lemma_min_pos(sc, a, len);
    lemma_leftmost_min_unique(sc, a, len, p, min_pos(sc, a, len));
}

/// Windows read only their own scores.
pub proof fn lemma_window_local(s: Seq<u64>, t: Seq<u64>, a: int, len: nat)
    requires
        len >= 1,
        0 <= a,
        a + len <= s.len(),
        a + len <= t.len(),
        forall|q: int| a <= q < a + len ==> s[q] == t[q],
    ensures
        min_pos(s, a, len) == min_pos(t, a, len),
        is_tied(s, a, len) == is_tied(t, a, len),
    decreases len,
{
    if len > 1 {
        lemma_window_local(s, t, a, (len - 1) as nat);
        lemma_min_pos(s, a, (len - 1) as nat);
        let p = min_pos(s, a, (len - 1) as nat);
        assert(s[p] == t[p]);
        assert(s[a + len - 1] == t[a + len - 1]);
    }
    lemma_min_pos(s, a, len);
    lemma_min_pos(t, a, len);
    if is_tied(s, a, len) {
        let q = choose|q: int|
            a <= q < a + len && q != min_pos(s, a, len) && #[trigger] s[q] == s[min_pos(
                s,
                a,
                len,
            )];
        assert(t[q] == t[min_pos(t, a, len)]);
    }
    if is_tied(t, a, len) {
        let q = choose|q: int|
            a <= q < a + len && q != min_pos(t, a, len) && #[trigger] t[q] == t[min_pos(
                t,
                a,
                len,
            )];
        assert(s[q] == s[min_pos(s, a, len)]);
    }
}

/// First window after `a` at which `brk` holds, or `nwin` if there is none.
pub open spec fn run_end(brk: spec_fn(int) -> bool, nwin: int, a: int) -> int
    decreases nwin - a,
{
    if a + 1 >= nwin {
        nwin
    } else if brk(a + 1) {
        a + 1
    } else {
        run_end(brk, nwin, a + 1)
    }
}

pub proof fn lemma_run_end_is(brk: spec_fn(int) -> bool, nwin: int, a: int, e: int)
    requires
        a < e <= nwin,
        forall|v: int| a < v < e ==> !#[trigger] brk(v),
        e == nwin || brk(e),
    ensures
        run_end(brk, nwin, a) == e,
    decreases e - a,
{
    if a + 1 < e {
        lemma_run_end_is(brk, nwin, a + 1, e);
    }
}

pub proof fn lemma_run_end_bounds(brk: spec_fn(int) -> bool, nwin: int, a: int)
    requires
        a < nwin,
    ensures
        a < run_end(brk, nwin, a) <= nwin,
        forall|v: int| a < v < run_end(brk, nwin, a) ==> !#[trigger] brk(v),
        run_end(brk, nwin, a) == nwin || brk(run_end(brk, nwin, a)),
    decreases nwin - a,
{
    if a + 1 < nwin && !brk(a + 1) {
        lemma_run_end_bounds(brk, nwin, a + 1);
    }
}

/// Start windows of the runs that begin at window `a`, up to window `nwin`.
pub open spec fn run_starts(brk: spec_fn(int) -> bool, nwin: int, a: int) -> Seq<int>
    decreases nwin - a,
{
    if a >= nwin {
        seq![]
    } else {
        let e = run_end(brk, nwin, a);
        if e <= a || e > nwin {
            seq![a]
        } else {
            seq![a] + run_starts(brk, nwin, e)
        }
    }
}

/// The value `f(b, e)` of every run `[b, e)` from window `a` on.
pub open spec fn runs_map<T>(brk: spec_fn(int) -> bool, nwin: int, a: int, f: spec_fn(int, int) -> T) -> Seq<T> {
    run_starts(brk, nwin, a).map_values(|b: int| f(b, run_end(brk, nwin, b)))
}

/// The run from `a` ends before `e`: `runs_map` from `a` is `f(a, e)` then
/// `runs_map` from `e`.
pub proof fn lemma_runs_step<T>(brk: spec_fn(int) -> bool, nwin: int, a: int, e: int, f: spec_fn(int, int) -> T)
    requires
        a < e <= nwin,
        forall|v: int| a < v < e ==> !#[trigger] brk(v),
        e == nwin || brk(e),
    ensures
        runs_map(brk, nwin, a, f) == seq![f(a, e)] + runs_map(brk, nwin, e, f),
        runs_map(brk, nwin, a, f).len() > 0,
        runs_map(brk, nwin, a, f)[0] == f(a, e),
        runs_map(brk, nwin, a, f).drop_first() == runs_map(brk, nwin, e, f),
        e == nwin ==> runs_map(brk, nwin, e, f) == Seq::<T>::empty(),
{
    lemma_run_end_is(brk, nwin, a, e);
    let g = |b: int| f(b, run_end(brk, nwin, b));
    assert(run_starts(brk, nwin, a) == seq![a] + run_starts(brk, nwin, e));
    assert((seq![a] + run_starts(brk, nwin, e)).map_values(g) =~= seq![a].map_values(g)
        + run_starts(brk, nwin, e).map_values(g));
    assert(seq![a].map_values(g) =~= seq![g(a)]);
    assert((seq![f(a, e)] + runs_map(brk, nwin, e, f)).drop_first() =~= runs_map(brk, nwin, e, f));
    if e == nwin {
        assert(runs_map(brk, nwin, e, f) =~= Seq::<T>::empty());
    }
}

/// The `i`-th entry of `runs_map` from `a` is `f(b, e)` for a run `[b, e)`:
/// one that no window after `b` breaks before `e`, and that `e` ends.
pub proof fn lemma_run_of<T>(brk: spec_fn(int) -> bool, nwin: int, a: int, f: spec_fn(int, int) -> T, i: int) -> (r: (int, int))
    requires
        0 <= i < runs_map(brk, nwin, a, f).len(),
    ensures
        a <= r.0 < r.1 <= nwin,
        forall|v: int| r.0 < v < r.1 ==> !#[trigger] brk(v),
        r.1 == nwin || brk(r.1),
        runs_map(brk, nwin, a, f)[i] == f(r.0, r.1),
        i == 0 ==> r.0 == a,
    decreases nwin - a,
{
    if a >= nwin {
        assert(runs_map(brk, nwin, a, f).len() == 0);
        (a, a)
    } else {
        lemma_run_end_bounds(brk, nwin, a);
        let e = run_end(brk, nwin, a);
        lemma_runs_step(brk, nwin, a, e, f);
        if i == 0 {
            (a, e)
        } else {
            let r = lemma_run_of(brk, nwin, e, f, i - 1);
            (r.0, r.1)
        }
    }
}

} // verus!

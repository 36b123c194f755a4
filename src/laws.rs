//! What holds of every extraction: the spans tile the k-mers, each span's
//! minimizer is minimal in all its windows, tied windows stand alone, and the
//! streaming extractor agrees with the reference one.
use vstd::prelude::*;
use crate::engine::{lmer_scores, param_error, span_breaks, span_record, superkmers_from, superkmers_spec};
use crate::naive::{naive_breaks, naive_from, naive_records, naive_record, naive_superkmers};
use crate::canon::lemma_normalized_text;
use crate::dna::{all_nucleotides, is_nucleotide, revcomp_bytes};
use crate::scoring::Scorer;
use crate::verbose::recorded_strand;
use crate::windows::{
    is_tied, lemma_min_pos, lemma_run_end_bounds, lemma_run_of, lemma_runs_step,
    min_pos, run_end, runs_map,
};

verus! {

/// Inside a span `[b, e)` every window has the minimizer of the first, which
/// the last window still holds; a span of more than one window holds no tie.
proof fn lemma_run_shape(sc: Seq<u64>, wd: nat, nwin: int, b: int, e: int)
    requires
        wd >= 1,
        sc.len() == nwin + wd - 1,
        0 <= b < e <= nwin,
        forall|v: int| b < v < e ==> !#[trigger] span_breaks(sc, wd)(v),
    ensures
        forall|v: int| b <= v < e ==> #[trigger] min_pos(sc, v, wd) == min_pos(sc, b, wd),
        e - 1 <= min_pos(sc, b, wd) < b + wd,
        e - 1 > b ==> !is_tied(sc, b, wd) && !is_tied(sc, e - 1, wd),
    decreases e - b,
{
    lemma_min_pos(sc, b, wd);
    if e - 1 > b {
        lemma_run_shape(sc, wd, nwin, b, e - 1);
        assert(!span_breaks(sc, wd)(e - 1));
        assert(!span_breaks(sc, wd)(b + 1));
        lemma_min_pos(sc, e - 1, wd);
        assert forall|v: int| b <= v < e implies #[trigger] min_pos(sc, v, wd) == min_pos(sc, b, wd) by {
            if v == e - 1 {
                assert(min_pos(sc, e - 2, wd) == min_pos(sc, b, wd));
            }
        }
    }
}

/// A span of windows `[b, e)` is recorded with start `b` and size `e - 1 + k - b`.
proof fn lemma_record_shape(read: Seq<u8>, sc: Seq<u64>, k: int, l: int, b: int, e: int)
    requires
        1 <= l <= k <= read.len() <= usize::MAX,
        2 * k - l <= 255,
        sc.len() == read.len() - l + 1,
        0 <= b < e <= read.len() - k + 1,
        forall|v: int| b < v < e ==> !#[trigger] span_breaks(sc, (k - l + 1) as nat)(v),
    ensures
        span_record(read, sc, k, l, b, e).start == b,
        span_record(read, sc, k, l, b, e).size == e - 1 + k - b,
        k <= e - 1 + k - b <= 2 * k - l,
{
    lemma_run_shape(sc, (k - l + 1) as nat, read.len() - k + 1, b, e);
}

/// The spans tile the k-mers: the first starts at 0, each one starts where
/// the k-mer after the previous one's last k-mer starts, and the last one
/// ends with the sequence. Every span holds at least one k-mer.
pub proof fn lemma_spans_tile(read: Seq<u8>, k: int, l: int, scorer: Scorer)
    requires
        param_error(read, k, l, scorer) is None,
        read.len() <= usize::MAX,
    ensures
        ({
            let s = superkmers_spec(read, k, l, scorer);
            &&& s.len() >= 1
            &&& s[0].start == 0
            &&& forall|i: int|
                0 <= i < s.len() - 1 ==> #[trigger] s[i + 1].start == s[i].start + s[i].size - k + 1
            &&& s[s.len() - 1].start + s[s.len() - 1].size == read.len()
            &&& forall|i: int| 0 <= i < s.len() ==> k <= #[trigger] s[i].size
        }),
{
    lemma_tile_from(read, lmer_scores(read, l, scorer), k, l, 0);
}

proof fn lemma_tile_from(read: Seq<u8>, sc: Seq<u64>, k: int, l: int, a: int)
    requires
        1 <= l <= k <= read.len() <= usize::MAX,
        2 * k - l <= 255,
        sc.len() == read.len() - l + 1,
        0 <= a < read.len() - k + 1,
    ensures
        ({
            let s = superkmers_from(read, sc, k, l, a);
            &&& s.len() >= 1
            &&& s[0].start == a
            &&& forall|i: int|
                0 <= i < s.len() - 1 ==> #[trigger] s[i + 1].start == s[i].start + s[i].size - k + 1
            &&& s[s.len() - 1].start + s[s.len() - 1].size == read.len()
            &&& forall|i: int| 0 <= i < s.len() ==> k <= #[trigger] s[i].size
        }),
    decreases read.len() - k + 1 - a,
{
    let wd = (k - l + 1) as nat;
    let nwin = read.len() - k + 1;
    let brk = span_breaks(sc, wd);
    let f = |b: int, e: int| span_record(read, sc, k, l, b, e);
    lemma_run_end_bounds(brk, nwin, a);
    let e = run_end(brk, nwin, a);
    lemma_runs_step(brk, nwin, a, e, f);
    lemma_record_shape(read, sc, k, l, a, e);
    let s = superkmers_from(read, sc, k, l, a);
    let x = f(a, e);
    if e < nwin {
        lemma_tile_from(read, sc, k, l, e);
        let t = superkmers_from(read, sc, k, l, e);
        assert(s == seq![x] + t);
        assert forall|i: int| 0 <= i < s.len() - 1 implies #[trigger] s[i + 1].start == s[i].start + s[i].size - k + 1 by {
            if i > 0 {
                assert(s[i] == t[i - 1]);
                assert(s[i + 1] == t[i]);
            }
        }
        assert forall|i: int| 0 <= i < s.len() implies k <= #[trigger] s[i].size by {
            if i > 0 {
                assert(s[i] == t[i - 1]);
            }
        }
        assert(s[s.len() - 1] == t[t.len() - 1]);
    } else {
        assert(s =~= seq![x]);
    }
}

/// The minimizer of a span, read before its orientation is normalised, is
/// minimal in every k-mer window that the span covers: it lies in the window
/// and no l-mer of the window scores below it.
pub proof fn lemma_minimizer_minimal(read: Seq<u8>, k: int, l: int, scorer: Scorer, i: int, v: int)
    requires
        param_error(read, k, l, scorer) is None,
        read.len() <= usize::MAX,
        0 <= i < superkmers_spec(read, k, l, scorer).len(),
        superkmers_spec(read, k, l, scorer)[i].start <= v,
        v + k <= superkmers_spec(read, k, l, scorer)[i].start + superkmers_spec(read, k, l, scorer)[i].size,
    ensures
        ({
            let sc = lmer_scores(read, l, scorer);
            let wd = (k - l + 1) as nat;
            let mp = min_pos(sc, superkmers_spec(read, k, l, scorer)[i].start as int, wd);
            &&& v <= mp < v + wd
            &&& forall|q: int| v <= q < v + wd ==> sc[mp] <= #[trigger] sc[q]
        }),
{
    let sc = lmer_scores(read, l, scorer);
    let wd = (k - l + 1) as nat;
    let nwin = read.len() - k + 1;
    let brk = span_breaks(sc, wd);
    let f = |b: int, e: int| span_record(read, sc, k, l, b, e);
    let r = lemma_run_of(brk, nwin, 0, f, i);
    let (b, e) = r;
    lemma_record_shape(read, sc, k, l, b, e);
    lemma_run_shape(sc, wd, nwin, b, e);
    assert(min_pos(sc, v, wd) == min_pos(sc, b, wd));
    lemma_min_pos(sc, v, wd);
}

/// The minimizer a record spells on its recorded strand, at its recorded
/// offset, is the minimal l-mer of the span's first window or its reverse
/// complement. With a scorer that gives an l-mer and its reverse complement the
/// same score (the canonical ntHash does), the recorded minimizer therefore
/// scores no more than any l-mer of any window of the span.
pub proof fn lemma_recorded_minimizer(read: Seq<u8>, k: int, l: int, scorer: Scorer, i: int)
    requires
        param_error(read, k, l, scorer) is None,
        read.len() <= usize::MAX,
        all_nucleotides(read),
        0 <= i < superkmers_spec(read, k, l, scorer).len(),
    ensures
        ({
            let sk = superkmers_spec(read, k, l, scorer)[i];
            let mp = min_pos(lmer_scores(read, l, scorer), sk.start as int, (k - l + 1) as nat);
            let m = read.subrange(mp, mp + l);
            let text = recorded_strand(read, sk).subrange(sk.mpos as int, sk.mpos + l);
            &&& sk.mpos + l <= sk.size
            &&& (text == m || text == revcomp_bytes(m))
        }),
{
    let sc = lmer_scores(read, l, scorer);
    let wd = (k - l + 1) as nat;
    let nwin = read.len() - k + 1;
    let brk = span_breaks(sc, wd);
    let f = |b: int, e: int| span_record(read, sc, k, l, b, e);
    let (b, e) = lemma_run_of(brk, nwin, 0, f, i);
    lemma_record_shape(read, sc, k, l, b, e);
    lemma_min_pos(sc, b, wd);
    let size = e - 1 + k - b;
    let fwd = read.subrange(b, b + size);
    let mp = min_pos(sc, b, wd);
    assert forall|j: int| 0 <= j < fwd.len() implies #[trigger] is_nucleotide(fwd[j]) by {
        assert(fwd[j] == read[b + j]);
    }
    lemma_normalized_text(fwd, mp - b, l, is_tied(sc, b, wd));
    assert(fwd.subrange(mp - b, mp - b + l) =~= read.subrange(mp, mp + l));
}

/// A k-mer window whose minimal score occurs twice is a span of its own: some
/// record starts at it and holds exactly one k-mer.
pub proof fn lemma_tied_window_isolated(read: Seq<u8>, k: int, l: int, scorer: Scorer, w: int)
    requires
        param_error(read, k, l, scorer) is None,
        read.len() <= usize::MAX,
        0 <= w < read.len() - k + 1,
        is_tied(lmer_scores(read, l, scorer), w, (k - l + 1) as nat),
    ensures
        exists|i: int|
            0 <= i < superkmers_spec(read, k, l, scorer).len() && #[trigger] superkmers_spec(
                read,
                k,
                l,
                scorer,
            )[i].start == w && superkmers_spec(read, k, l, scorer)[i].size == k,
{
    let i = lemma_tied_from(read, lmer_scores(read, l, scorer), k, l, 0, w);
    assert(superkmers_spec(read, k, l, scorer)[i].start == w);
}

proof fn lemma_tied_from(read: Seq<u8>, sc: Seq<u64>, k: int, l: int, a: int, w: int) -> (i: int)
    requires
        1 <= l <= k <= read.len() <= usize::MAX,
        2 * k - l <= 255,
        sc.len() == read.len() - l + 1,
        0 <= a <= w < read.len() - k + 1,
        is_tied(sc, w, (k - l + 1) as nat),
    ensures
        0 <= i < superkmers_from(read, sc, k, l, a).len(),
        superkmers_from(read, sc, k, l, a)[i].start == w,
        superkmers_from(read, sc, k, l, a)[i].size == k,
    decreases w - a,
{
    let wd = (k - l + 1) as nat;
    let nwin = read.len() - k + 1;
    let brk = span_breaks(sc, wd);
    let f = |b: int, e: int| span_record(read, sc, k, l, b, e);
    lemma_run_end_bounds(brk, nwin, a);
    let e = run_end(brk, nwin, a);
    lemma_runs_step(brk, nwin, a, e, f);
    lemma_record_shape(read, sc, k, l, a, e);
    if a == w {
        if a + 1 < nwin {
            assert(brk(a + 1));
        }
        0
    } else {
        if e > w {
            assert(brk(w));
        }
        let j = lemma_tied_from(read, sc, k, l, e, w);
        assert(superkmers_from(read, sc, k, l, a)[j + 1] == superkmers_from(read, sc, k, l, e)[j]);
        j + 1
    }
}

/// The streaming extractor and the quadratic reference extractor give the
/// same records: breaking wherever the minimizer offset changes or a window is
/// tied is the same as also breaking after every tied window, since a tied
/// window keeps its minimizer only into a tied window.
pub proof fn lemma_reference_agrees(read: Seq<u8>, k: int, l: int)
    requires
        param_error(read, k, l, Scorer::NtHash) is None,
    ensures
        naive_superkmers(read, k, l) == superkmers_spec(read, k, l, Scorer::NtHash),
{
    let sc = lmer_scores(read, l, Scorer::NtHash);
    lemma_agree_from(read, sc, k, l, 0);
}

/// A tied window that keeps its minimizer passes the tie on.
proof fn lemma_tie_carries(sc: Seq<u64>, wd: nat, w: int)
    requires
        wd >= 1,
        1 <= w,
        w + wd <= sc.len(),
        is_tied(sc, w - 1, wd),
        min_pos(sc, w, wd) == min_pos(sc, w - 1, wd),
    ensures
        is_tied(sc, w, wd),
{
    lemma_min_pos(sc, w - 1, wd);
    lemma_min_pos(sc, w, wd);
    let p = min_pos(sc, w - 1, wd);
    let q = choose|q: int| w - 1 <= q < w - 1 + wd && q != p && #[trigger] sc[q] == sc[p];
    assert(q > p);
    assert(w <= q < w + wd && q != min_pos(sc, w, wd) && sc[q] == sc[min_pos(sc, w, wd)]);
}

proof fn lemma_agree_from(read: Seq<u8>, sc: Seq<u64>, k: int, l: int, a: int)
    requires
        1 <= l <= k <= read.len(),
        sc.len() == read.len() - l + 1,
        0 <= a,
    ensures
        naive_from(read, sc, k, l, a) == superkmers_from(read, sc, k, l, a),
    decreases read.len() - k + 1 - a,
{
    let wd = (k - l + 1) as nat;
    let nwin = read.len() - k + 1;
    let b1 = span_breaks(sc, wd);
    let b2 = naive_breaks(sc, wd);
    let f1 = |b: int, e: int| span_record(read, sc, k, l, b, e);
    let f2 = naive_records(read, sc, k, l);
    if a >= nwin {
        assert(runs_map(b1, nwin, a, f1) =~= Seq::<crate::Superkmer>::empty());
        assert(runs_map(b2, nwin, a, f2) =~= Seq::<crate::Superkmer>::empty());
    } else {
        lemma_run_end_bounds(b1, nwin, a);
        let e = run_end(b1, nwin, a);
        lemma_run_shape(sc, wd, nwin, a, e);
        // the reference rule ends the same run
        assert forall|v: int| a < v < e implies !#[trigger] b2(v) by {
            assert(!b1(v));
        }
        if e < nwin {
            assert(b1(e));
            if !b2(e) {
                lemma_tie_carries(sc, wd, e);
            }
        }
        lemma_runs_step(b1, nwin, a, e, f1);
        lemma_runs_step(b2, nwin, a, e, f2);
        lemma_min_pos(sc, a, wd);
        assert(min_pos(sc, e - 1, wd) == min_pos(sc, a, wd));
        if e - 1 == a {
        } else {
            assert(!is_tied(sc, e - 1, wd) && !is_tied(sc, a, wd));
        }
        assert(naive_record(read, sc, k, l, a, e) == span_record(read, sc, k, l, a, e));
        lemma_agree_from(read, sc, k, l, e);
    }
}

} // verus!

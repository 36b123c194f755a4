//! The quadratic reference extractor: the minimizer of every k-mer window
//! first, the spans after.
use vstd::prelude::*;
use crate::engine::{build_record, check_params, lmer_scores, param_error, record_of};
use crate::scoring::{lemma_acgtn_window, Scorer};
use crate::verbose::{ascii_chars, recorded_strand, superkmer_to_verbose};
use crate::windows::{is_tied, lemma_min_pos, lemma_runs_step, min_pos, runs_map};
use crate::{ParamError, Superkmer, SuperkmerVerbose};

verus! {

/// The reference rule: window `w` opens a new span when its minimizer offset
/// differs from that of window `w - 1`, or when it is tied.
pub open spec fn naive_breaks(sc: Seq<u64>, width: nat) -> spec_fn(int) -> bool {
    |w: int| min_pos(sc, w, width) != min_pos(sc, w - 1, width) || is_tied(sc, w, width)
}

/// The reference record of windows `[a, e)`: minimizer and tie of its last
/// window.
pub open spec fn naive_record(read: Seq<u8>, sc: Seq<u64>, k: int, l: int, a: int, e: int) -> Superkmer {
    let width = (k - l + 1) as nat;
    record_of(read, k, l, a, e, min_pos(sc, e - 1, width), is_tied(sc, e - 1, width))
}

pub open spec fn naive_records(read: Seq<u8>, sc: Seq<u64>, k: int, l: int) -> spec_fn(int, int) -> Superkmer {
    |b: int, e: int| naive_record(read, sc, k, l, b, e)
}

/// The reference records of the spans from window `a` on.
pub open spec fn naive_from(read: Seq<u8>, sc: Seq<u64>, k: int, l: int, a: int) -> Seq<Superkmer> {
    runs_map(naive_breaks(sc, (k - l + 1) as nat), read.len() - k + 1, a, naive_records(read, sc, k, l))
}

/// The reference extractor's records, under the ntHash scorer.
pub open spec fn naive_superkmers(read: Seq<u8>, k: int, l: int) -> Seq<Superkmer> {
    naive_from(read, lmer_scores(read, l, Scorer::NtHash), k, l, 0)
}

/// Appends the record of windows `[a, e)` and its spelled-out form.
fn push_record(
    read: &[u8],
    k: usize,
    l: usize,
    a: usize,
    e: usize,
    mpos: usize,
    tied: bool,
    out: &mut Vec<Superkmer>,
    verbose: &mut Vec<SuperkmerVerbose>,
)
    requires
        1 <= l <= k,
        a < e,
        e - 1 + k <= read@.len(),
        e - 1 + k - a <= 255,
        a <= mpos,
        mpos + l <= e - 1 + k,
        old(verbose)@.len() == old(out)@.len(),
        forall|j: int| 0 <= j < old(out)@.len() ==> spells_out(read@, #[trigger] old(out)@[j], old(verbose)@[j], l as int),
    ensures
        final(out)@ == old(out)@.push(record_of(read@, k as int, l as int, a as int, e as int, mpos as int, tied)),
        final(verbose)@.len() == final(out)@.len(),
        forall|j: int| 0 <= j < final(out)@.len() ==> spells_out(read@, #[trigger] final(out)@[j], final(verbose)@[j], l as int),
{
    let rec = build_record(read, k, l, a, e, mpos, tied);
    let vb = superkmer_to_verbose(rec, read, l);
    out.push(rec);
    verbose.push(vb);
    proof {
        assert forall|j: int| 0 <= j < out@.len() implies spells_out(read@, #[trigger] out@[j], verbose@[j], l as int) by {
            if j < out@.len() - 1 {
                assert(out@[j] == old(out)@[j]);
                assert(verbose@[j] == old(verbose)@[j]);
            }
        }
    }
}

/// Cuts the windows into spans, from the minimizer offset and tie of every
/// window.
#[verifier::rlimit(40)]
fn scan_spans(read: &[u8], k: usize, l: usize, minpos: &Vec<usize>, tie: &Vec<bool>, Ghost(sc): Ghost<Seq<u64>>) -> (r: (
    Vec<Superkmer>,
    Vec<SuperkmerVerbose>,
))
    requires
        1 <= l <= k <= read@.len(),
        2 * k - l <= 255,
        sc.len() == read@.len() - l + 1,
        minpos@.len() == read@.len() - k + 1,
        tie@.len() == read@.len() - k + 1,
        forall|v: int| 0 <= v < minpos@.len() ==> #[trigger] minpos@[v] == min_pos(sc, v, (k - l + 1) as nat),
        forall|v: int| 0 <= v < tie@.len() ==> #[trigger] tie@[v] == is_tied(sc, v, (k - l + 1) as nat),
    ensures
        r.0@ == naive_from(read@, sc, k as int, l as int, 0),
        r.1@.len() == r.0@.len(),
        forall|j: int| 0 <= j < r.0@.len() ==> spells_out(read@, #[trigger] r.0@[j], r.1@[j], l as int),
{
    let n = read.len();
    let width = k - l + 1;
    let nwin = n - k + 1;
    let ghost wd = width as nat;
    let ghost brk = naive_breaks(sc, wd);
    let ghost f = naive_records(read@, sc, k as int, l as int);
    let ghost all = naive_from(read@, sc, k as int, l as int, 0);
    let mut out: Vec<Superkmer> = Vec::new();
    let mut verbose: Vec<SuperkmerVerbose> = Vec::new();
    let mut start: usize = 0;
    let mut last = minpos[0];
    let mut w: usize = 1;
    proof {
        lemma_min_pos(sc, 0, wd);
    }
    while w < nwin
        invariant
            n == read@.len(),
            sc.len() == n - l + 1,
            nwin == n - k + 1,
            width == k - l + 1,
            wd == width,
            1 <= l <= k <= n,
            2 * k - l <= 255,
            brk == naive_breaks(sc, wd),
            f == naive_records(read@, sc, k as int, l as int),
            all == runs_map(brk, nwin as int, 0, f),
            minpos@.len() == nwin,
            tie@.len() == nwin,
            forall|v: int| 0 <= v < nwin ==> #[trigger] minpos@[v] == min_pos(sc, v, wd),
            forall|v: int| 0 <= v < nwin ==> #[trigger] tie@[v] == is_tied(sc, v, wd),
            start < w <= nwin,
            last == min_pos(sc, w - 1, wd),
            last == min_pos(sc, start as int, wd),
            w - 1 <= last < start + width,
            forall|v: int| start < v < w ==> !#[trigger] brk(v),
            all == out@ + runs_map(brk, nwin as int, start as int, f),
            verbose@.len() == out@.len(),
            forall|j: int| 0 <= j < out@.len() ==> spells_out(read@, #[trigger] out@[j], verbose@[j], l as int),
        decreases nwin - w,
    {
        proof {
            lemma_min_pos(sc, w as int, wd);
        }
        if minpos[w] != last || tie[w] {
            proof {
                lemma_runs_step(brk, nwin as int, start as int, w as int, f);
            }
            push_record(read, k, l, start, w, last, tie[w - 1], &mut out, &mut verbose);
            proof {
                assert(out@ + runs_map(brk, nwin as int, w as int, f) =~= all);
            }
            start = w;
        }
        last = minpos[w];
        w += 1;
    }
    proof {
        lemma_runs_step(brk, nwin as int, start as int, nwin as int, f);
    }
    push_record(read, k, l, start, nwin, last, tie[nwin - 1], &mut out, &mut verbose);
    proof {
        assert(out@ =~= all);
    }
    (out, verbose)
}

/// `v` spells `sk` out against `read`, with minimizers of length `l`.
pub open spec fn spells_out(read: Seq<u8>, sk: Superkmer, v: SuperkmerVerbose, l: int) -> bool {
    &&& v.mpos == sk.mpos
    &&& v.sequence@ == ascii_chars(recorded_strand(read, sk))
    &&& v.minimizer@ == ascii_chars(recorded_strand(read, sk).subrange(sk.mpos as int, sk.mpos + l))
}

/// Leftmost minimal score of `sc[a .. a + width)`, and whether it is tied.
fn window_min(sc: &Vec<u64>, a: usize, width: usize) -> (r: (usize, bool))
    requires
        width >= 1,
        a + width <= sc@.len(),
    ensures
        r.0 == min_pos(sc@, a as int, width as nat),
        r.1 == is_tied(sc@, a as int, width as nat),
{
    let mut best = sc[a];
    let mut pos = a;
    let mut multiple = false;
    let mut j: usize = 1;
    let n = sc.len();
    proof {
        lemma_min_pos(sc@, a as int, 1);
    }
    while j < width
        invariant
            n == sc@.len(),
            width >= 1,
            a + width <= sc@.len(),
            1 <= j <= width,
            pos == min_pos(sc@, a as int, j as nat),
            best == sc@[pos as int],
            a <= pos < a + j,
            forall|q: int| a <= q < a + j ==> best <= #[trigger] sc@[q],
            forall|q: int| a <= q < pos ==> best < #[trigger] sc@[q],
            multiple == exists|q: int| a <= q < a + j && q != pos && #[trigger] sc@[q] == best,
        decreases width - j,
    {
        let h = sc[a + j];
        if h == best {
            multiple = true;
            assert(sc@[a + j] == best);
        }
        if h < best {
            best = h;
            pos = a + j;
            multiple = false;
        }
        j += 1;
    }
    proof {
        lemma_min_pos(sc@, a as int, width as nat);
    }
    (pos, multiple)
}

/// The superkmers of `read`, found the slow way: the minimizer of every
/// k-mer window first (ntHash scores, leftmost minimum), then a new span
/// wherever a window's minimizer offset changes or the window is tied. Each
/// record comes with its spelled-out form.
pub fn extract_superkmers(read: &[u8], k: usize, l: usize) -> (r: Result<
    (Vec<Superkmer>, Vec<SuperkmerVerbose>),
    ParamError,
>)
    ensures
        r is Err <==> param_error(read@, k as int, l as int, Scorer::NtHash) is Some,
        r matches Err(e) ==> param_error(read@, k as int, l as int, Scorer::NtHash) == Some(e),
        r matches Ok(out) ==> {
            &&& out.0@ == naive_superkmers(read@, k as int, l as int)
            &&& out.1@.len() == out.0@.len()
            &&& forall|i: int|
                0 <= i < out.0@.len() ==> spells_out(read@, #[trigger] out.0@[i], out.1@[i], l as int)
        },
{
    let scorer = Scorer::NtHash;
    if let Some(e) = check_params(read, k, l, &scorer) {
        return Err(e);
    }
    let n = read.len();
    let width = k - l + 1;
    let nwin = n - k + 1;
    let ghost sc = lmer_scores(read@, l as int, scorer);
    // every l-mer's score
    let mut hashes: Vec<u64> = Vec::new();
    let mut i: usize = 0;
    while i < n - l + 1
        invariant
            param_error(read@, k as int, l as int, scorer) is None,
            n == read@.len(),
            scorer == Scorer::NtHash,
            sc == lmer_scores(read@, l as int, scorer),
            i <= n - l + 1,
            hashes@ == sc.subrange(0, i as int),
        decreases n - l + 1 - i,
    {
        proof {
            if scorer is NtHash {
                lemma_acgtn_window(read@, i as int, l as int);
            }
        }
        let h = scorer.score_at(read, i, l);
        hashes.push(h);
        i += 1;
        assert(hashes@ =~= sc.subrange(0, i as int));
    }
    assert(hashes@ =~= sc);
    // every window's minimizer and tie
    let mut minpos: Vec<usize> = Vec::new();
    let mut tie: Vec<bool> = Vec::new();
    let mut w: usize = 0;
    while w < nwin
        invariant
            hashes@ == sc,
            sc.len() == n - l + 1,
            nwin == n - k + 1,
            width == k - l + 1,
            1 <= l <= k <= n,
            w <= nwin,
            minpos@.len() == w,
            tie@.len() == w,
            forall|v: int| 0 <= v < w ==> #[trigger] minpos@[v] == min_pos(sc, v, width as nat),
            forall|v: int| 0 <= v < w ==> #[trigger] tie@[v] == is_tied(sc, v, width as nat),
        decreases nwin - w,
    {
        let (p, t) = window_min(&hashes, w, width);
        minpos.push(p);
        tie.push(t);
        w += 1;
    }
    let (out, verbose) = scan_spans(read, k, l, &minpos, &tie, Ghost(sc));
    Ok((out, verbose))
}

} // verus!

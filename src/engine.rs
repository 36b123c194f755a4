//! The streaming superkmer extractor: one pass over the l-mer scores, one
//! window tracker, one span at a time.
use vstd::prelude::*;
use crate::canon::{normalize_span, normalize_spec};
use crate::dna::{copy_range, revcomp_bytes, revcomp_range};
use crate::scoring::{all_acgtn, check_acgtn, lemma_acgtn_window, Scorer};
use crate::tracker::WindowTracker;
use crate::windows::{
    is_tied, lemma_min_pos, lemma_runs_step, lemma_window_local, min_pos, runs_map,
};
use crate::{ParamError, Superkmer};

verus! {

/// Score of every l-mer of `read`, by offset.
pub open spec fn lmer_scores(read: Seq<u8>, l: int, scorer: Scorer) -> Seq<u64> {
    Seq::new((read.len() - l + 1) as nat, |i: int| scorer.score_spec(read.subrange(i, i + l)))
}

/// k-mer windows `w - 1` and `w` fall in different spans: their minimizer
/// offsets differ, or either of them is tied.
pub open spec fn breaks_before(sc: Seq<u64>, width: nat, w: int) -> bool {
    ||| min_pos(sc, w, width) != min_pos(sc, w - 1, width)
    ||| is_tied(sc, w, width)
    ||| is_tied(sc, w - 1, width)
}

pub open spec fn span_breaks(sc: Seq<u64>, width: nat) -> spec_fn(int) -> bool {
    |w: int| breaks_before(sc, width, w)
}

/// The compact record of the span made of k-mer windows `[a, e)`, whose
/// minimizer sits at offset `mpos` of the sequence.
pub open spec fn record_of(read: Seq<u8>, k: int, l: int, a: int, e: int, mpos: int, tied: bool) -> Superkmer {
    let size = e - 1 + k - a;
    let fwd = read.subrange(a, a + size);
    let mp = mpos - a;
    let m = fwd.subrange(mp, mp + l);
    let norm = normalize_spec(fwd, revcomp_bytes(fwd), m, revcomp_bytes(m), mp, l, tied);
    Superkmer { start: a as usize, mint: 0, size: size as u8, mpos: norm.0 as u8, rc: norm.1 }
}

/// The compact record of the span made of k-mer windows `[a, e)`: its
/// minimizer is that of its first window.
pub open spec fn span_record(read: Seq<u8>, sc: Seq<u64>, k: int, l: int, a: int, e: int) -> Superkmer {
    let width = (k - l + 1) as nat;
    record_of(read, k, l, a, e, min_pos(sc, a, width), is_tied(sc, a, width))
}

/// Builds `record_of(read, k, l, a, e, mpos, tied)`.
pub(crate) fn build_record(read: &[u8], k: usize, l: usize, a: usize, e: usize, mpos: usize, tied: bool) -> (r:
    Superkmer)
    requires
        1 <= l <= k,
        a < e,
        e - 1 + k <= read@.len(),
        e - 1 + k - a <= 255,
        a <= mpos,
        mpos + l <= e - 1 + k,
    ensures
        r == record_of(read@, k as int, l as int, a as int, e as int, mpos as int, tied),
        r.start == a,
        r.size == e - 1 + k - a,
        r.mpos + l <= r.size,
{
    let n = read.len();
    let size = e - 1 + k - a;
    let fwd = copy_range(read, a, a + size);
    let rev = revcomp_range(read, a, a + size);
    let mp = mpos - a;
    let m = copy_range(fwd.as_slice(), mp, mp + l);
    let m_rc = revcomp_range(fwd.as_slice(), mp, mp + l);
    let (pos, rc) = normalize_span(
        fwd.as_slice(),
        rev.as_slice(),
        m.as_slice(),
        m_rc.as_slice(),
        mp,
        l,
        tied,
    );
    Superkmer { start: a, mint: 0, size: size as u8, mpos: pos as u8, rc }
}

/// The records of the spans from window `a` on.
pub open spec fn superkmers_from(read: Seq<u8>, sc: Seq<u64>, k: int, l: int, a: int) -> Seq<Superkmer> {
    runs_map(
        span_breaks(sc, (k - l + 1) as nat),
        read.len() - k + 1,
        a,
        |b: int, e: int| span_record(read, sc, k, l, b, e),
    )
}

/// Every superkmer of `read`, in order.
pub open spec fn superkmers_spec(read: Seq<u8>, k: int, l: int, scorer: Scorer) -> Seq<Superkmer> {
    superkmers_from(read, lmer_scores(read, l, scorer), k, l, 0)
}

/// What refuses an extraction with these parameters, if anything.
pub open spec fn param_error(read: Seq<u8>, k: int, l: int, scorer: Scorer) -> Option<ParamError> {
    if l < 1 || l > k || k > read.len() {
        Some(ParamError::InvalidLengths)
    } else if 2 * k - l > 255 {
        Some(ParamError::SpanTooLong)
    } else if (scorer is Lexicographic && l > 32) || (scorer matches Scorer::Syncmer(t) && t.lmer_len()
        != l) {
        Some(ParamError::UnsupportedMinimizerLength)
    } else if scorer is NtHash && !all_acgtn(read) {
        Some(ParamError::InvalidBase)
    } else {
        None
    }
}

/// `param_error`, computed.
pub fn check_params(read: &[u8], k: usize, l: usize, scorer: &Scorer) -> (r: Option<ParamError>)
    ensures
        r == param_error(read@, k as int, l as int, *scorer),
{
    if l < 1 || l > k || k > read.len() {
        return Some(ParamError::InvalidLengths);
    }
    if k > 255 || 2 * k - l > 255 {
        return Some(ParamError::SpanTooLong);
    }
    let unsupported = match scorer {
        Scorer::Lexicographic => l > 32,
        Scorer::Syncmer(t) => t.len() != l,
        Scorer::NtHash => false,
    };
    if unsupported {
        return Some(ParamError::UnsupportedMinimizerLength);
    }
    let hashed = match scorer {
        Scorer::NtHash => true,
        _ => false,
    };
    if hashed && !check_acgtn(read) {
        return Some(ParamError::InvalidBase);
    }
    None
}

/// Streams the superkmers of one sequence.
pub struct SuperkmersIterator<'a> {
    read: &'a [u8],
    k: usize,
    l: usize,
    scorer: Scorer,
    tracker: WindowTracker,
    /// First k-mer window of the span in progress.
    start: usize,
    done: bool,
}

impl<'a> SuperkmersIterator<'a> {
    pub closed spec fn read_seq(&self) -> Seq<u8> {
        self.read@
    }

    pub closed spec fn scores(&self) -> Seq<u64> {
        lmer_scores(self.read@, self.l as int, self.scorer)
    }

    /// The superkmers still to come.
    pub closed spec fn remaining(&self) -> Seq<Superkmer> {
        if self.done {
            seq![]
        } else {
            superkmers_from(self.read@, self.scores(), self.k as int, self.l as int, self.start as int)
        }
    }

    pub closed spec fn wf(&self) -> bool {
        &&& param_error(self.read@, self.k as int, self.l as int, self.scorer) is None
        &&& self.scorer.wf()
        &&& !self.done ==> {
            &&& self.start < self.read@.len() - self.k + 1
            &&& self.tracker.wf()
            &&& self.tracker.width() == self.k - self.l + 1
            &&& self.tracker.scores() == self.scores().subrange(0, self.start + self.k - self.l + 1)
        }
    }

    /// Extraction of the superkmers of `read` with k-mers of length `k`,
    /// minimizers of length `l`, and l-mers ranked by `scorer`.
    pub fn with_scorer(read: &'a [u8], k: usize, l: usize, scorer: Scorer) -> (r: Result<
        Self,
        ParamError,
    >)
        requires
            scorer.wf(),
        ensures
            r is Err <==> param_error(read@, k as int, l as int, scorer) is Some,
            r matches Err(e) ==> param_error(read@, k as int, l as int, scorer) == Some(e),
            r matches Ok(it) ==> it.wf() && it.read_seq() == read@ && it.remaining()
                == superkmers_spec(read@, k as int, l as int, scorer),
    {
        if let Some(e) = check_params(read, k, l, &scorer) {
            return Err(e);
        }
        let width = k - l + 1;
        let ghost sc = lmer_scores(read@, l as int, scorer);
        let mut tracker = WindowTracker::new(width);
        let mut j: usize = 0;
        while j < width
            invariant
                1 <= l <= k <= read@.len(),
                k <= 255,
                scorer is Lexicographic ==> l <= 32,
                scorer matches Scorer::Syncmer(t) ==> t.lmer_len() == l,
                width == k - l + 1,
                scorer.wf(),
                scorer is NtHash ==> all_acgtn(read@),
                sc == lmer_scores(read@, l as int, scorer),
                j <= width,
                tracker.wf(),
                tracker.width() == width,
                tracker.scores() == sc.subrange(0, j as int),
            decreases width - j,
        {
            proof {
                if scorer is NtHash {
                    lemma_acgtn_window(read@, j as int, l as int);
                }
            }
            let s = scorer.score_at(read, j, l);
            tracker.advance(s);
            j += 1;
            assert(tracker.scores() =~= sc.subrange(0, j as int));
        }
        Ok(SuperkmersIterator { read, k, l, scorer, tracker, start: 0, done: false })
    }

    /// Slides the window from the first window `a` of a span until the span
    /// breaks or the sequence ends. Returns the last window reached and
    /// whether a break stopped the walk there.
    fn extend(&mut self, a: usize, first_min: usize, tied: bool) -> (r: (usize, bool))
        requires
            old(self).wf(),
            !old(self).done,
            old(self).start == a,
            first_min == min_pos(old(self).scores(), a as int, (old(self).k - old(self).l + 1) as nat),
            tied == is_tied(old(self).scores(), a as int, (old(self).k - old(self).l + 1) as nat),
        ensures
            final(self).read == old(self).read,
            final(self).k == old(self).k,
            final(self).l == old(self).l,
            final(self).scorer == old(self).scorer,
            final(self).start == old(self).start,
            final(self).done == old(self).done,
            ({
                let sc = old(self).scores();
                let wd = (old(self).k - old(self).l + 1) as nat;
                let brk = span_breaks(sc, wd);
                let nwin = old(self).read@.len() - old(self).k + 1;
                let w = r.0 as int;
                &&& final(self).tracker.wf()
                &&& final(self).tracker.width() == wd
                &&& final(self).tracker.scores() == sc.subrange(0, w + wd)
                &&& a <= w < nwin
                &&& forall|v: int| a < v < w ==> !#[trigger] brk(v)
                &&& r.1 ==> w > a && brk(w)
                &&& !r.1 ==> w + 1 == nwin && (w > a ==> !brk(w)) && w <= first_min
                &&& w - 1 <= first_min < a + wd
            }),
    {
        let k = self.k;
        let l = self.l;
        let width = k - l + 1;
        let nwin = self.read.len() - k + 1;
        let ghost sc = self.scores();
        let ghost wd = width as nat;
        let ghost brk = span_breaks(sc, wd);
        let mut prev_tied = tied;
        let mut w = a;
        let mut found = false;
        let n = self.read.len();
        let ghost read0 = self.read;
        let ghost scorer0 = self.scorer;
        let ghost start0 = self.start;
        let ghost done0 = self.done;
        proof {
            lemma_min_pos(sc, a as int, wd);
        }
        while w + 1 < nwin && !found
            invariant
                self.read == read0,
                self.scorer == scorer0,
                self.start == start0,
                self.done == done0,
                n == self.read@.len(),
                param_error(self.read@, self.k as int, self.l as int, self.scorer) is None,
                self.scorer.wf(),
                self.k == k,
                self.l == l,
                1 <= l <= k <= self.read@.len(),
                width == k - l + 1,
                wd == width,
                nwin == self.read@.len() - k + 1,
                sc == self.scores(),
                brk == span_breaks(sc, wd),
                a <= w < nwin,
                self.tracker.wf(),
                self.tracker.width() == width,
                self.tracker.scores() == sc.subrange(0, w + width),
                first_min == min_pos(sc, a as int, wd),
                w - 1 <= first_min < a + width,
                forall|v: int| a < v < w ==> !#[trigger] brk(v),
                !found ==> w > a ==> !brk(w as int),
                !found ==> w <= first_min,
                !found ==> first_min == min_pos(sc, w as int, wd),
                !found ==> prev_tied == is_tied(sc, w as int, wd),
                found ==> w > a && brk(w as int),
            decreases nwin - w,
        {
            let p = w + width;
            proof {
                if self.scorer is NtHash {
                    lemma_acgtn_window(self.read@, p as int, l as int);
                }
            }
            let s = self.scorer.score_at(self.read, p, l);
            self.tracker.advance(s);
            w += 1;
            proof {
                assert(self.tracker.scores() =~= sc.subrange(0, w + width));
                lemma_window_local(self.tracker.scores(), sc, w as int, wd);
                lemma_min_pos(sc, w as int, wd);
            }
            let cur_min = self.tracker.current_minimum();
            let cur_tied = self.tracker.is_tied();
            if cur_min != first_min || cur_tied || prev_tied {
                found = true;
            } else {
                prev_tied = cur_tied;
            }
        }
        (w, found)
    }

    /// The record of the span made of windows `[a, e)`.
    fn record(&self, a: usize, e: usize, first_min: usize, tied: bool) -> (r: Superkmer)
        requires
            param_error(self.read@, self.k as int, self.l as int, self.scorer) is None,
            a < e <= self.read@.len() - self.k + 1,
            first_min == min_pos(self.scores(), a as int, (self.k - self.l + 1) as nat),
            tied == is_tied(self.scores(), a as int, (self.k - self.l + 1) as nat),
            e - 1 <= first_min < a + self.k - self.l + 1,
        ensures
            r == span_record(self.read@, self.scores(), self.k as int, self.l as int, a as int, e as int),
    {
        proof {
            lemma_min_pos(self.scores(), a as int, (self.k - self.l + 1) as nat);
        }
        build_record(self.read, self.k, self.l, a, e, first_min, tied)
    }

    /// The next superkmer, if any is left.
    #[verifier::rlimit(40)]
    pub fn next(&mut self) -> (r: Option<Superkmer>)
        requires
            old(self).wf(),
        ensures
            final(self).wf(),
            final(self).read_seq() == old(self).read_seq(),
            old(self).remaining().len() == 0 ==> r is None && final(self).remaining()
                == old(self).remaining(),
            old(self).remaining().len() > 0 ==> r == Some(old(self).remaining()[0])
                && final(self).remaining() == old(self).remaining().drop_first(),
    {
        if self.done {
            return None;
        }
        let k = self.k;
        let l = self.l;
        let nwin = self.read.len() - k + 1;
        let a = self.start;
        let ghost sc = self.scores();
        let ghost wd = (k - l + 1) as nat;
        let ghost brk = span_breaks(sc, wd);
        proof {
            lemma_window_local(self.tracker.scores(), sc, a as int, wd);
        }
        let first_min = self.tracker.current_minimum();
        let tied = self.tracker.is_tied();
        let (w, found) = self.extend(a, first_min, tied);
        let e = if found {
            w
        } else {
            nwin
        };
        proof {
            let f = |b: int, e: int| span_record(self.read@, sc, k as int, l as int, b, e);
            lemma_runs_step(brk, nwin as int, a as int, e as int, f);
        }
        let rec = self.record(a, e, first_min, tied);
        if found {
            self.start = w;
        } else {
            self.done = true;
        }
        Some(rec)
    }
}

impl<'a> SuperkmersIterator<'a> {
    /// Extraction ranked by the canonical ntHash of each l-mer.
    pub fn new(read: &'a [u8], k: usize, l: usize) -> (r: Result<Self, ParamError>)
        ensures
            r is Err <==> param_error(read@, k as int, l as int, Scorer::NtHash) is Some,
            r matches Err(e) ==> param_error(read@, k as int, l as int, Scorer::NtHash) == Some(e),
            r matches Ok(it) ==> it.wf() && it.read_seq() == read@ && it.remaining()
                == superkmers_spec(read@, k as int, l as int, Scorer::NtHash),
    {
        Self::with_scorer(read, k, l, Scorer::NtHash)
    }

    /// Drains the stream.
    pub fn collect_all(&mut self) -> (r: Vec<Superkmer>)
        requires
            old(self).wf(),
        ensures
            final(self).wf(),
            r@ == old(self).remaining(),
            final(self).remaining().len() == 0,
    {
        let mut out: Vec<Superkmer> = Vec::new();
        let ghost all = self.remaining();
        loop
            invariant
                self.wf(),
                all == old(self).remaining(),
                all == out@ + self.remaining(),
            decreases self.remaining().len(),
        {
            let ghost before = self.remaining();
            match self.next() {
                Some(sk) => {
                    out.push(sk);
                    proof {
                        assert(before =~= seq![sk] + before.drop_first());
                        assert(all =~= out@ + self.remaining());
                    }
                },
                None => {
                    proof {
                        assert(out@ =~= all);
                    }
                    return out;
                },
            }
        }
    }
}

/// Every superkmer of `read`, with k-mers of length `k`, minimizers of length
/// `l`, and l-mers ranked by `scorer`.
pub fn extract_with(read: &[u8], k: usize, l: usize, scorer: Scorer) -> (r: Result<Vec<Superkmer>, ParamError>)
    requires
        scorer.wf(),
    ensures
        r is Err <==> param_error(read@, k as int, l as int, scorer) is Some,
        r matches Err(e) ==> param_error(read@, k as int, l as int, scorer) == Some(e),
        r matches Ok(v) ==> v@ == superkmers_spec(read@, k as int, l as int, scorer),
{
    match SuperkmersIterator::with_scorer(read, k, l, scorer) {
        Ok(mut it) => Ok(it.collect_all()),
        Err(e) => Err(e),
    }
}

} // verus!

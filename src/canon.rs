//! Orientation normalisation: which strand a superkmer is recorded on, and
//! where its minimizer sits on that strand.
use vstd::prelude::*;
use crate::dna::{
    all_nucleotides, copy_range, lemma_lex_asymmetric, lemma_lex_total, lemma_revcomp_involution,
    lemma_revcomp_window, lex_less, lex_lt, occurs_at, revcomp, revcomp_bytes, revcomp_chars,
    revcomp_range,
};
use vstd::string::{is_ascii_spec_bytes, string_is_ascii, StrSliceExecFns, StringSliceAdditionalSpecFns};

verus! {

/// `t[i .. i + l)` spells `m` or `m_rc`.
pub open spec fn holds_at(t: Seq<u8>, i: int, l: int, m: Seq<u8>, m_rc: Seq<u8>) -> bool {
    t.subrange(i, i + l) == m || t.subrange(i, i + l) == m_rc
}

/// Either strand holds the minimizer, in either orientation, at `i`.
pub open spec fn hit_spec(fwd: Seq<u8>, rev: Seq<u8>, m: Seq<u8>, m_rc: Seq<u8>, l: int, i: int) -> bool {
    holds_at(fwd, i, l, m, m_rc) || holds_at(rev, i, l, m, m_rc)
}

/// First offset in `[from, to)` at which either strand holds the minimizer in
/// either orientation; `to` if there is none.
pub open spec fn first_hit(
    fwd: Seq<u8>,
    rev: Seq<u8>,
    m: Seq<u8>,
    m_rc: Seq<u8>,
    l: int,
    from: int,
    to: int,
) -> int
    decreases to - from,
{
    if from >= to {
        to
    } else if hit_spec(fwd, rev, m, m_rc, l, from) {
        from
    } else {
        first_hit(fwd, rev, m, m_rc, l, from + 1, to)
    }
}

/// First stage of normalisation: the strand (`true` for the reverse
/// complement `rev`) and the minimizer offset on it.
///
/// Without a tie the minimizer is kept nearer the left edge, and a minimizer
/// equidistant from both edges leaves the choice to the smaller strand. With a
/// tie the leftmost offset that holds the minimizer, in either orientation and
/// on either strand, is taken; when both strands hold it there, the smaller
/// strand wins.
pub open spec fn orient(
    fwd: Seq<u8>,
    rev: Seq<u8>,
    m: Seq<u8>,
    m_rc: Seq<u8>,
    mpos: int,
    l: int,
    tied: bool,
) -> (int, bool) {
    let size = fwd.len() as int;
    if !tied {
        let mirror = size - (mpos + l);
        if mirror < mpos {
            (mirror, true)
        } else if mirror == mpos {
            (mpos, lex_lt(rev, fwd))
        } else {
            (mpos, false)
        }
    } else {
        let i = first_hit(fwd, rev, m, m_rc, l, 0, mpos);
        if i < mpos {
            let on_fwd = holds_at(fwd, i, l, m, m_rc);
            let on_rev = holds_at(rev, i, l, m, m_rc);
            (i, if on_fwd && on_rev { lex_lt(rev, fwd) } else { on_rev })
        } else {
            (mpos, false)
        }
    }
}

/// Full normalisation: `orient`, then a flip to the other strand whenever the
/// minimizer read there is smaller than as it stands.
pub open spec fn normalize_spec(
    fwd: Seq<u8>,
    rev: Seq<u8>,
    m: Seq<u8>,
    m_rc: Seq<u8>,
    mpos: int,
    l: int,
    tied: bool,
) -> (int, bool) {
    let (p, rc) = orient(fwd, rev, m, m_rc, mpos, l, tied);
    let strand = if rc { rev } else { fwd };
    let mz = strand.subrange(p, p + l);
    if lex_lt(revcomp_bytes(mz), mz) {
        (fwd.len() - (p + l), !rc)
    } else {
        (p, rc)
    }
}

proof fn lemma_first_hit_is(
    fwd: Seq<u8>,
    rev: Seq<u8>,
    m: Seq<u8>,
    m_rc: Seq<u8>,
    l: int,
    from: int,
    to: int,
    i: int,
)
    requires
        from <= i <= to,
        forall|j: int| from <= j < i ==> !#[trigger] hit_spec(fwd, rev, m, m_rc, l, j),
        i == to || hit_spec(fwd, rev, m, m_rc, l, i),
    ensures
        first_hit(fwd, rev, m, m_rc, l, from, to) == i,
    decreases i - from,
{
    if from < i {
        assert(!hit_spec(fwd, rev, m, m_rc, l, from));
        lemma_first_hit_is(fwd, rev, m, m_rc, l, from + 1, to, i);
    }
}

/// Whether `t[i .. i + m.len())` spells `m`, and `m` is `l` long.
fn spells(t: &[u8], i: usize, l: usize, m: &[u8]) -> (r: bool)
    requires
        i + l <= t@.len(),
    ensures
        r == (t@.subrange(i as int, i + l) == m@),
{
    if m.len() != l {
        return false;
    }
    occurs_at(t, i, m)
}

/// Whether either strand holds the minimizer, in either orientation, at `i`.
fn hit_at(fwd: &[u8], rev: &[u8], m: &[u8], m_rc: &[u8], i: usize, l: usize) -> (r: bool)
    requires
        i + l <= fwd@.len(),
        fwd@.len() == rev@.len(),
    ensures
        r == hit_spec(fwd@, rev@, m@, m_rc@, l as int, i as int),
{
    spells(fwd, i, l, m) || spells(fwd, i, l, m_rc) || spells(rev, i, l, m) || spells(rev, i, l, m_rc)
}

/// Orientation normaliser over the two strands of a span.
///
/// `fwd` is the span, `rev` the strand read the other way, `m` and `m_rc` the
/// minimizer and its reverse complement, `mpos` its offset on `fwd`, `l` its
/// length, `tied` whether the span's window holds its minimal score twice.
/// Returns the offset of the minimizer on the chosen strand and whether that
/// strand is `rev`.
pub fn normalize_span(
    fwd: &[u8],
    rev: &[u8],
    m: &[u8],
    m_rc: &[u8],
    mpos: usize,
    l: usize,
    tied: bool,
) -> (r: (usize, bool))
    requires
        fwd@.len() == rev@.len(),
        mpos + l <= fwd@.len(),
    ensures
        r.0 as int == normalize_spec(fwd@, rev@, m@, m_rc@, mpos as int, l as int, tied).0,
        r.1 == normalize_spec(fwd@, rev@, m@, m_rc@, mpos as int, l as int, tied).1,
        r.0 + l <= fwd@.len(),
{
    let size = fwd.len();
    let mut pos = mpos;
    let mut rc = false;
    if !tied {
        let mirror = size - (mpos + l);
        if mirror < mpos {
            pos = mirror;
            rc = true;
        } else if mirror == mpos {
            rc = lex_less(rev, fwd);
        }
    } else {
        let mut i: usize = 0;
        let mut hit = mpos > 0 && hit_at(fwd, rev, m, m_rc, 0, l);
        while i < mpos && !hit
            invariant
                i <= mpos,
                i < mpos ==> hit == hit_spec(fwd@, rev@, m@, m_rc@, l as int, i as int),
                mpos + l <= fwd@.len(),
                fwd@.len() == rev@.len(),
                forall|j: int| 0 <= j < i ==> !#[trigger] hit_spec(fwd@, rev@, m@, m_rc@, l as int, j),
            decreases mpos - i,
        {
            let ghost i0 = i as int;
            assert(!hit_spec(fwd@, rev@, m@, m_rc@, l as int, i0));
            i += 1;
            assert forall|j: int| 0 <= j < i implies !#[trigger] hit_spec(fwd@, rev@, m@, m_rc@, l as int, j) by {
                if j < i0 {
                } else {
                    assert(j == i0);
                }
            }
            hit = i < mpos && hit_at(fwd, rev, m, m_rc, i, l);
        }
        proof {
            lemma_first_hit_is(fwd@, rev@, m@, m_rc@, l as int, 0, mpos as int, i as int);
        }
        if i < mpos {
            let on_fwd = spells(fwd, i, l, m) || spells(fwd, i, l, m_rc);
            let on_rev = spells(rev, i, l, m) || spells(rev, i, l, m_rc);
            if on_fwd && on_rev {
                rc = lex_less(rev, fwd);
            } else {
                rc = on_rev;
            }
            pos = i;
        }
    }
    let strand = if rc { rev } else { fwd };
    let mz = copy_range(strand, pos, pos + l);
    let mz_rc = revcomp_range(strand, pos, pos + l);
    if lex_less(&mz_rc, &mz) {
        (size - (pos + l), !rc)
    } else {
        (pos, rc)
    }
}

/// Bytes of a character sequence, one per character.
pub open spec fn ascii_bytes(s: Seq<char>) -> Seq<u8> {
    s.map_values(|c: char| c as u8)
}

/// The bytes of an ASCII string.
fn bytes_of(s: &String) -> (r: &[u8])
    requires
        string_is_ascii(s),
    ensures
        r@ == ascii_bytes(s@),
{
    let t = s.as_str();
    proof {
        is_ascii_spec_bytes(t);
        assert(t.spec_bytes() =~= ascii_bytes(s@));
    }
    t.as_bytes()
}

/// Orientation normaliser on strings: the span and the strand read the other
/// way, the minimizer and its reverse complement, the minimizer's offset `mpos`,
/// its length `l`, and whether the span's window is tied (`mm`). Returns the
/// recorded strand, the other strand, the minimizer read on the recorded
/// strand, its reverse complement, and its offset.
pub fn normalize_mpos(
    sequence: String,
    sequence_rc: String,
    minimizer: String,
    minimizer_rc: String,
    mpos: usize,
    l: usize,
    mm: bool,
) -> (r: (String, String, String, String, usize))
    requires
        string_is_ascii(&sequence),
        string_is_ascii(&sequence_rc),
        string_is_ascii(&minimizer),
        string_is_ascii(&minimizer_rc),
        sequence@.len() == sequence_rc@.len(),
        mpos + l <= sequence@.len(),
    ensures
        ({
            let n = normalize_spec(
                ascii_bytes(sequence@),
                ascii_bytes(sequence_rc@),
                ascii_bytes(minimizer@),
                ascii_bytes(minimizer_rc@),
                mpos as int,
                l as int,
                mm,
            );
            &&& r.4 == n.0
            &&& r.0@ == (if n.1 {
                sequence_rc@
            } else {
                sequence@
            })
            &&& r.1@ == (if n.1 {
                sequence@
            } else {
                sequence_rc@
            })
            &&& r.2@ == r.0@.subrange(r.4 as int, r.4 + l)
            &&& r.3@ == revcomp_chars(r.2@)
        }),
{
    let size = bytes_of(&sequence).len();
    let (pos, rc) = normalize_span(
        bytes_of(&sequence),
        bytes_of(&sequence_rc),
        bytes_of(&minimizer),
        bytes_of(&minimizer_rc),
        mpos,
        l,
        mm,
    );
    let (kept, other) = if rc {
        (sequence_rc, sequence)
    } else {
        (sequence, sequence_rc)
    };
    let m = kept.as_str().substring_ascii(pos, pos + l).to_owned();
    let m_rc = revcomp(m.as_str());
    (kept, other, m, m_rc, pos)
}

/// Normalising a span without a tie a second time, from the strand and
/// offset that the first normalisation chose, changes nothing: the span is
/// already canonical.
pub proof fn lemma_normalize_fixed_point(fwd: Seq<u8>, mpos: int, l: int)
    requires
        all_nucleotides(fwd),
        0 <= mpos,
        0 <= l,
        mpos + l <= fwd.len(),
    ensures
        ({
            let m = fwd.subrange(mpos, mpos + l);
            let first = normalize_spec(fwd, revcomp_bytes(fwd), m, revcomp_bytes(m), mpos, l, false);
            let t = if first.1 {
                revcomp_bytes(fwd)
            } else {
                fwd
            };
            let m2 = t.subrange(first.0, first.0 + l);
            normalize_spec(t, revcomp_bytes(t), m2, revcomp_bytes(m2), first.0, l, false) == (
            first.0,
            false,
            )
        }),
{
    let n = fwd.len() as int;
    let rev = revcomp_bytes(fwd);
    lemma_revcomp_involution(fwd);
    let m = fwd.subrange(mpos, mpos + l);
    let o1 = orient(fwd, rev, m, revcomp_bytes(m), mpos, l, false);
    let at1 = o1.0;
    let r1 = o1.1;
    let s1 = if r1 { rev } else { fwd };
    let mz1 = s1.subrange(at1, at1 + l);
    let flip1 = lex_lt(revcomp_bytes(mz1), mz1);
    let first = normalize_spec(fwd, rev, m, revcomp_bytes(m), mpos, l, false);
    assert(at1 <= n - at1 - l);
    assert(first == (if flip1 { (n - (at1 + l), !r1) } else { (at1, r1) }));
    let t = if first.1 { rev } else { fwd };
    let p = first.0;
    let m2 = t.subrange(p, p + l);
    let rt = revcomp_bytes(t);
    assert(rt == (if first.1 { fwd } else { rev }));
    assert(t.len() == n);
    let o2 = orient(t, rt, m2, revcomp_bytes(m2), p, l, false);
    let s2 = if o2.1 { rt } else { t };
    let mz2 = s2.subrange(o2.0, o2.0 + l);
    lemma_lex_asymmetric(rev, fwd);
    lemma_lex_asymmetric(fwd, rev);
    if !flip1 {
        assert(t == s1);
        if at1 == n - at1 - l {
            // the equidistant case: the smaller strand was kept
            assert(!lex_lt(rt, t));
        }
        assert(o2 == (at1, false));
        assert(mz2 == mz1);
    } else {
        // the first normalisation moved to the mirror of `(s1, at1)`
        lemma_revcomp_involution(s1);
        assert(t == revcomp_bytes(s1));
        assert(rt == s1);
        if at1 < n - at1 - l {
            assert(o2 == (at1, true));
        } else {
            assert(p == at1);
            if fwd == rev {
                // a palindromic span holds a palindromic central minimizer
                lemma_revcomp_window(s1, at1, l);
                assert(revcomp_bytes(mz1) == mz1);
                lemma_lex_asymmetric(mz1, mz1);
                assert(false);
            } else {
                lemma_lex_total(fwd, rev);
                assert(lex_lt(s1, revcomp_bytes(s1)));
                assert(o2 == (at1, true));
            }
        }
        assert(s2 == s1);
        assert(mz2 == mz1);
    }
}

/// The minimizer that normalisation records is the one it was given, read on
/// one strand or the other: the recorded strand spells it, or its reverse
/// complement, at the recorded offset.
pub proof fn lemma_normalized_text(fwd: Seq<u8>, mpos: int, l: int, tied: bool)
    requires
        all_nucleotides(fwd),
        0 <= mpos,
        0 <= l,
        mpos + l <= fwd.len(),
    ensures
        ({
            let m = fwd.subrange(mpos, mpos + l);
            let rev = revcomp_bytes(fwd);
            let r = normalize_spec(fwd, rev, m, revcomp_bytes(m), mpos, l, tied);
            let strand = if r.1 {
                rev
            } else {
                fwd
            };
            &&& 0 <= r.0
            &&& r.0 + l <= fwd.len()
            &&& (strand.subrange(r.0, r.0 + l) == m || strand.subrange(r.0, r.0 + l) == revcomp_bytes(m))
        }),
{
    let n = fwd.len() as int;
    let m = fwd.subrange(mpos, mpos + l);
    let rev = revcomp_bytes(fwd);
    let m_rc = revcomp_bytes(m);
    lemma_revcomp_involution(fwd);
    lemma_revcomp_involution(m);
    lemma_revcomp_window(fwd, mpos, l);
    let o = orient(fwd, rev, m, m_rc, mpos, l, tied);
    let s1 = if o.1 { rev } else { fwd };
    let mz = s1.subrange(o.0, o.0 + l);
    if tied {
        let i = first_hit(fwd, rev, m, m_rc, l, 0, mpos);
        lemma_first_hit_range(fwd, rev, m, m_rc, l, 0, mpos);
        if i < mpos {
            assert(hit_spec(fwd, rev, m, m_rc, l, i));
        }
    }
    assert(0 <= o.0 && o.0 + l <= n);
    assert(mz == m || mz == m_rc);
    if lex_lt(revcomp_bytes(mz), mz) {
        let s2 = if o.1 { fwd } else { rev };
        lemma_revcomp_involution(s1);
        assert(s2 == revcomp_bytes(s1));
        lemma_revcomp_window(s1, o.0, l);
        assert(s2.subrange(n - o.0 - l, n - o.0) == revcomp_bytes(mz));
    }
}

proof fn lemma_first_hit_range(fwd: Seq<u8>, rev: Seq<u8>, m: Seq<u8>, m_rc: Seq<u8>, l: int, from: int, to: int)
    requires
        from <= to,
    ensures
        from <= first_hit(fwd, rev, m, m_rc, l, from, to) <= to,
        first_hit(fwd, rev, m, m_rc, l, from, to) < to ==> hit_spec(
            fwd,
            rev,
            m,
            m_rc,
            l,
            first_hit(fwd, rev, m, m_rc, l, from, to),
        ),
    decreases to - from,
{
    if from < to && !hit_spec(fwd, rev, m, m_rc, l, from) {
        lemma_first_hit_range(fwd, rev, m, m_rc, l, from + 1, to);
    }
}

} // verus!

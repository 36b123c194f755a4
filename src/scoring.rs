//! Scorers: the priority of every l-mer of a sequence, by a rolling DNA hash,
//! by its 2-bit packed value, or by closed-syncmer membership.
use vstd::prelude::*;
use crate::dna::{pack, pack_range};
use crate::syncmers::SyncmerTable;

verus! {

/// The canonical ntHash of an l-mer.
pub uninterp spec fn nthash_of(lmer: Seq<u8>) -> u64;

/// One of the bytes `A`, `C`, `G`, `T`, `N`.
pub open spec fn is_acgtn(b: u8) -> bool {
    b == 65 || b == 67 || b == 71 || b == 84 || b == 78
}

pub open spec fn all_acgtn(s: Seq<u8>) -> bool {
    forall|j: int| 0 <= j < s.len() ==> #[trigger] is_acgtn(s[j])
}

/// Every window of an `ACGTN` sequence is `ACGTN`.
pub proof fn lemma_acgtn_window(read: Seq<u8>, i: int, l: int)
    requires
        all_acgtn(read),
        0 <= i,
        0 <= l,
        i + l <= read.len(),
    ensures
        all_acgtn(read.subrange(i, i + l)),
{
    let s = read.subrange(i, i + l);
    assert forall|j: int| 0 <= j < s.len() implies #[trigger] is_acgtn(s[j]) by {
        assert(s[j] == read[i + j]);
    }
}

/// Relies on nthash::ntc64: the canonical ntHash of `read[i .. i + l)`, a
/// value that depends on those `l` bytes alone. ntc64 panics on a byte outside
/// `ACGTN`, on `l == 0`, and (overflowing a `u32` rotation count) on an
/// `l` beyond `u32::MAX`.
#[verifier::external_body]
fn nthash_at(read: &[u8], i: usize, l: usize) -> (r: u64)
    requires
        1 <= l <= u32::MAX,
        i + l <= read@.len(),
        all_acgtn(read@.subrange(i as int, i + l)),
    ensures
        r == nthash_of(read@.subrange(i as int, i + l)),
{
    nthash::ntc64(read, i, l)
}

/// Whether every byte of `read` is one of `ACGTN`.
pub fn check_acgtn(read: &[u8]) -> (r: bool)
    ensures
        r == all_acgtn(read@),
{
    let mut j: usize = 0;
    while j < read.len()
        invariant
            j <= read@.len(),
            forall|t: int| 0 <= t < j ==> #[trigger] is_acgtn(read@[t]),
        decreases read@.len() - j,
    {
        let b = read[j];
        if !(b == 65 || b == 67 || b == 71 || b == 84 || b == 78) {
            assert(!is_acgtn(read@[j as int]));
            return false;
        }
        j += 1;
    }
    true
}

/// Score of a packed l-mer under the lexicographic scorer: its packed value,
/// except that the all-`A` l-mer ranks last.
pub open spec fn lexicographic_score(p: nat) -> u64 {
    if p == 0 {
        u64::MAX
    } else {
        p as u64
    }
}

/// The priority oracle: lower scores make better minimizers.
pub enum Scorer {
    /// Canonical ntHash of the l-mer.
    NtHash,
    /// The l-mer packed two bits a base, `A < C < G < T`.
    Lexicographic,
    /// 0 for a closed syncmer, 1 for any other l-mer.
    Syncmer(SyncmerTable),
}

impl Scorer {
    pub open spec fn wf(&self) -> bool {
        match self {
            Scorer::Syncmer(t) => t.wf(),
            _ => true,
        }
    }

    /// Score of one l-mer.
    pub open spec fn score_spec(&self, lmer: Seq<u8>) -> u64 {
        match self {
            Scorer::NtHash => nthash_of(lmer),
            Scorer::Lexicographic => lexicographic_score(pack(lmer)),
            Scorer::Syncmer(t) => if t.marks(pack(lmer)) {
                0
            } else {
                1
            },
        }
    }

    /// Score of the l-mer of `read` at `i`.
    pub fn score_at(&self, read: &[u8], i: usize, l: usize) -> (r: u64)
        requires
            self.wf(),
            1 <= l,
            i + l <= read@.len(),
            self is NtHash ==> all_acgtn(read@.subrange(i as int, i + l)),
            self is NtHash ==> l <= u32::MAX,
            self is Lexicographic ==> l <= 32,
            self matches Scorer::Syncmer(t) ==> t.lmer_len() == l,
        ensures
            r == self.score_spec(read@.subrange(i as int, i + l)),
    {
        match self {
            Scorer::NtHash => {
                nthash_at(read, i, l)
            },
            Scorer::Lexicographic => {
                let p = pack_range(read, i, l);
                if p == 0 {
                    u64::MAX
                } else {
                    p
                }
            },
            Scorer::Syncmer(t) => {
                proof {
                    t.lemma_wf_len();
                }
                let p = pack_range(read, i, l);
                if t.contains(p) {
                    0
                } else {
                    1
                }
            },
        }
    }
}

} // verus!

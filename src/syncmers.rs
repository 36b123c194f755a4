//! Syncmers: k-mers whose first smallest s-mer starts at one of a few chosen
//! offsets, and the table of closed syncmers that the syncmer scorer reads.
use vstd::prelude::*;
use crate::dna::{lex_less_ranges, lex_lt, pow4, unpack, unpack_bases};
use crate::ParamError;

verus! {

/// Offset of the first smallest `s`-mer among the first `cnt` offsets of
/// `kmer`, comparing `s`-mers lexicographically.
pub open spec fn first_min_smer(kmer: Seq<u8>, s: int, cnt: nat) -> int
    decreases cnt,
{
    if cnt <= 1 {
        0
    } else {
        let p = first_min_smer(kmer, s, (cnt - 1) as nat);
        let j = cnt - 1;
        if lex_lt(kmer.subrange(j, j + s), kmer.subrange(p, p + s)) {
            j
        } else {
            p
        }
    }
}

/// The `k`-mer of `seq` at `i` is a syncmer: its first smallest `s`-mer starts
/// at one of the offsets `ts`.
pub open spec fn is_syncmer_at(seq: Seq<u8>, i: int, k: int, s: int, ts: Seq<usize>) -> bool {
    let p = first_min_smer(seq.subrange(i, i + k), s, (k - s + 1) as nat);
    exists|t: int| 0 <= t < ts.len() && ts[t] == p
}

/// Positions `i < upto` whose `k`-mer is a syncmer, in increasing order.
pub open spec fn syncmer_positions(seq: Seq<u8>, k: int, s: int, ts: Seq<usize>, upto: int) -> Seq<
    usize,
>
    decreases upto,
{
    if upto <= 0 {
        seq![]
    } else {
        let prev = syncmer_positions(seq, k, s, ts, upto - 1);
        if is_syncmer_at(seq, upto - 1, k, s, ts) {
            prev.push((upto - 1) as usize)
        } else {
            prev
        }
    }
}

/// Offset of the first smallest `s`-mer of the `k`-mer of `seq` at `i`.
fn min_smer_offset(seq: &[u8], i: usize, k: usize, s: usize) -> (r: usize)
    requires
        0 < s <= k,
        i + k <= seq@.len(),
    ensures
        r as int == first_min_smer(seq@.subrange(i as int, i + k), s as int, (k - s + 1) as nat),
        r <= k - s,
{
    let ghost kmer = seq@.subrange(i as int, i + k);
    let cnt = k - s + 1;
    let mut best: usize = 0;
    let mut j: usize = 1;
    let n = seq.len();
    while j < cnt
        invariant
            0 < s <= k,
            n == seq@.len(),
            i + k <= n,
            cnt == k - s + 1,
            kmer == seq@.subrange(i as int, i + k),
            1 <= j <= cnt,
            best < j,
            best as int == first_min_smer(kmer, s as int, j as nat),
        decreases cnt - j,
    {
        let less = lex_less_ranges(seq, i + j, seq, i + best, s);
        proof {
            assert(kmer.subrange(j as int, j + s) =~= seq@.subrange(i + j, i + j + s));
            assert(kmer.subrange(best as int, best + s) =~= seq@.subrange(i + best, i + best + s));
        }
        if less {
            best = j;
        }
        j += 1;
    }
    best
}

/// Whether `ts` holds `p`.
fn holds_offset(ts: &[usize], p: usize) -> (r: bool)
    ensures
        r == exists|t: int| 0 <= t < ts@.len() && ts@[t] == p,
{
    let mut t: usize = 0;
    while t < ts.len()
        invariant
            t <= ts@.len(),
            forall|u: int| 0 <= u < t ==> ts@[u] != p,
        decreases ts@.len() - t,
    {
        if ts[t] == p {
            return true;
        }
        t += 1;
    }
    false
}

/// Positions of the syncmers of `seq`: the `k`-mers whose first smallest
/// `s`-mer starts at one of the target offsets `ts`.
pub fn find_syncmers_pos<const N: usize>(k: usize, s: usize, ts: &[usize; N], seq: &[u8]) -> (r:
    Vec<usize>)
    requires
        seq@.len() >= k,
        0 < s < k,
        forall|t: int| 0 <= t < N ==> ts@[t] <= k - s,
        N < 5,
    ensures
        r@ == syncmer_positions(seq@, k as int, s as int, ts@, seq@.len() - k + 1),
{
    let nwin = seq.len() - k + 1;
    let tss: &[usize] = ts.as_slice();
    let mut out: Vec<usize> = Vec::new();
    let mut i: usize = 0;
    while i < nwin
        invariant
            nwin == seq@.len() - k + 1,
            0 < s < k,
            tss@ == ts@,
            i <= nwin,
            out@ == syncmer_positions(seq@, k as int, s as int, ts@, i as int),
        decreases nwin - i,
    {
        let p = min_smer_offset(seq, i, k, s);
        if holds_offset(tss, p) {
            out.push(i);
        }
        i += 1;
    }
    out
}

/// A closed syncmer of length `l`: its first smallest 2-mer is its first or
/// its last one.
pub open spec fn is_closed_syncmer(lmer: Seq<u8>, l: int) -> bool {
    is_syncmer_at(lmer, 0, l, 2, seq![0usize, (l - 2) as usize])
}

/// `4^l` for a small `l`.
fn pow4_usize(l: usize) -> (r: usize)
    requires
        l <= 15,
    ensures
        r as nat == pow4(l as nat),
{
    let mut r: usize = 1;
    let mut i: usize = 0;
    while i < l
        invariant
            i <= l <= 15,
            r as nat == pow4(i as nat),
        decreases l - i,
    {
        proof {
            crate::dna::lemma_pow4_mono((i + 1) as nat, 15);
            assert(pow4(15) == 0x4000_0000) by {
                reveal_with_fuel(pow4, 16);
            }
        }
        r = r * 4;
        i += 1;
    }
    r
}

/// For every packed `l`-mer `x < 4^l`, whether it is a closed syncmer.
pub fn generate_syncmers(l: usize) -> (r: Vec<bool>)
    requires
        3 <= l <= 15,
    ensures
        r@.len() == pow4(l as nat),
        forall|x: int| 0 <= x < r@.len() ==> r@[x] == is_closed_syncmer(unpack(x as nat, l as nat), l as int),
{
    let size = pow4_usize(l);
    let mut table: Vec<bool> = Vec::new();
    let mut x: usize = 0;
    while x < size
        invariant
            3 <= l <= 15,
            size as nat == pow4(l as nat),
            x <= size,
            table@.len() == x,
            forall|y: int| 0 <= y < x ==> table@[y] == is_closed_syncmer(unpack(y as nat, l as nat), l as int),
        decreases size - x,
    {
        let bytes = unpack_bases(x as u64, l);
        proof {
            assert(unpack(x as nat, l as nat).len() == l) by {
                lemma_unpack_len(x as nat, l as nat);
            }
        }
        let p = min_smer_offset(bytes.as_slice(), 0, l, 2);
        let closed = p == 0 || p == l - 2;
        proof {
            let ts = seq![0usize, (l - 2) as usize];
            assert(bytes@.subrange(0, l as int) =~= bytes@);
            if closed {
                if p == 0 {
                    assert(ts[0] == p);
                } else {
                    assert(ts[1] == p);
                }
            }
        }
        table.push(closed);
        x += 1;
    }
    table
}

proof fn lemma_unpack_len(x: nat, l: nat)
    ensures
        unpack(x, l).len() == l,
    decreases l,
{
    if l > 0 {
        lemma_unpack_len(x / 4, (l - 1) as nat);
    }
}

/// Which packed `l`-mers are closed syncmers, for one `l`.
pub struct SyncmerTable {
    l: usize,
    table: Vec<bool>,
}

impl SyncmerTable {
    /// Length of the `l`-mers the table covers.
    pub closed spec fn lmer_len(&self) -> nat {
        self.l as nat
    }

    /// Whether the table marks the packed `l`-mer `x`.
    pub closed spec fn marks(&self, x: nat) -> bool {
        x < self.table@.len() && self.table@[x as int]
    }

    pub closed spec fn wf(&self) -> bool {
        &&& 3 <= self.l <= 12
        &&& self.table@.len() == pow4(self.l as nat)
        &&& forall|x: int|
            0 <= x < self.table@.len() ==> self.table@[x] == is_closed_syncmer(
                unpack(x as nat, self.l as nat),
                self.l as int,
            )
    }

    /// The table for `l`-mers; only the lengths 8, 10 and 12 are offered.
    pub fn new(l: usize) -> (r: Result<SyncmerTable, ParamError>)
        ensures
            (l == 8 || l == 10 || l == 12) <==> r is Ok,
            r is Err ==> r == Err::<SyncmerTable, ParamError>(ParamError::UnsupportedMinimizerLength),
            r matches Ok(t) ==> t.wf() && t.lmer_len() == l,
            r matches Ok(t) ==> forall|x: nat|
                x < pow4(l as nat) ==> (t.marks(x) <==> is_closed_syncmer(unpack(x, l as nat), l as int)),
    {
        if l != 8 && l != 10 && l != 12 {
            return Err(ParamError::UnsupportedMinimizerLength);
        }
        let table = generate_syncmers(l);
        Ok(SyncmerTable { l, table })
    }

    pub proof fn lemma_wf_len(&self)
        requires
            self.wf(),
        ensures
            3 <= self.lmer_len() <= 12,
    {
    }

    /// Length of the `l`-mers the table covers.
    pub fn len(&self) -> (r: usize)
        ensures
            r == self.lmer_len(),
    {
        self.l
    }

    /// Whether the packed `l`-mer `x` is a closed syncmer.
    pub fn contains(&self, x: u64) -> (r: bool)
        requires
            self.wf(),
        ensures
            r == self.marks(x as nat),
    {
        if (x as u128) < (self.table.len() as u128) {
            self.table[x as usize]
        } else {
            false
        }
    }
}

/// The 64-bit xxHash of `data` under `seed`.
pub uninterp spec fn xxhash64_of(seed: u64, data: Seq<u8>) -> u64;

/// Relies on twox_hash::XxHash64::oneshot: the 64-bit xxHash of `data` under
/// `seed`, which depends on the two alone.
#[verifier::external_body]
fn xxhash64(seed: u64, data: &[u8]) -> (r: u64)
    ensures
        r == xxhash64_of(seed, data@),
{
    twox_hash::XxHash64::oneshot(seed, data)
}

/// Seed of the hash that downsamples syncmers.
pub const DOWNSAMPLE_SEED: u64 = 42;

/// The syncmers at positions `pos`, in order, each kept only when its hash
/// falls below `threshold` (all of them when there is none).
pub open spec fn kept_syncmers(seq: Seq<u8>, k: int, pos: Seq<usize>, threshold: Option<u64>) -> Seq<Seq<u8>>
    decreases pos.len(),
{
    if pos.len() == 0 {
        seq![]
    } else {
        let prev = kept_syncmers(seq, k, pos.drop_last(), threshold);
        let p = pos.last() as int;
        let mer = seq.subrange(p, p + k);
        match threshold {
            Some(t) => if xxhash64_of(DOWNSAMPLE_SEED, mer) < t {
                prev.push(mer)
            } else {
                prev
            },
            None => prev.push(mer),
        }
    }
}

proof fn lemma_positions_bounded(seq: Seq<u8>, k: int, s: int, ts: Seq<usize>, upto: int)
    requires
        0 <= upto,
    ensures
        forall|j: int|
            0 <= j < syncmer_positions(seq, k, s, ts, upto).len() ==> #[trigger] syncmer_positions(
                seq,
                k,
                s,
                ts,
                upto,
            )[j] < upto,
    decreases upto,
{
    if upto > 0 {
        lemma_positions_bounded(seq, k, s, ts, upto - 1);
        let prev = syncmer_positions(seq, k, s, ts, upto - 1);
        let cur = syncmer_positions(seq, k, s, ts, upto);
        assert forall|j: int| 0 <= j < cur.len() implies #[trigger] cur[j] < upto by {
            if j < prev.len() {
                assert(cur[j] == prev[j]);
            }
        }
    }
}

/// The syncmers of `seq` themselves, as slices of it. With a threshold, only
/// the syncmers whose hash (seed `DOWNSAMPLE_SEED`) falls below it are kept;
/// a threshold of `f * u64::MAX` keeps about a fraction `f` of them.
pub fn find_syncmers<'a, const N: usize>(
    k: usize,
    s: usize,
    ts: &[usize; N],
    downsample: Option<u64>,
    seq: &'a [u8],
) -> (r: Vec<&'a [u8]>)
    requires
        seq@.len() >= k,
        0 < s < k,
        forall|t: int| 0 <= t < N ==> ts@[t] <= k - s,
        N < 5,
    ensures
        ({
            let pos = syncmer_positions(seq@, k as int, s as int, ts@, seq@.len() - k + 1);
            let want = kept_syncmers(seq@, k as int, pos, downsample);
            &&& r@.len() == want.len()
            &&& forall|j: int| 0 <= j < r@.len() ==> #[trigger] r@[j]@ == want[j]
        }),
{
    let positions = find_syncmers_pos(k, s, ts, seq);
    let ghost pos = positions@;
    proof {
        lemma_positions_bounded(seq@, k as int, s as int, ts@, seq@.len() - k + 1);
    }
    let mut out: Vec<&'a [u8]> = Vec::new();
    let mut i: usize = 0;
    let n = seq.len();
    while i < positions.len()
        invariant
            n == seq@.len(),
            pos == positions@,
            seq@.len() >= k,
            forall|j: int| 0 <= j < pos.len() ==> #[trigger] pos[j] < seq@.len() - k + 1,
            i <= pos.len(),
            out@.len() == kept_syncmers(seq@, k as int, pos.subrange(0, i as int), downsample).len(),
            forall|j: int|
                0 <= j < out@.len() ==> #[trigger] out@[j]@ == kept_syncmers(
                    seq@,
                    k as int,
                    pos.subrange(0, i as int),
                    downsample,
                )[j],
        decreases pos.len() - i,
    {
        let p = positions[i];
        let mer = vstd::slice::slice_subrange(seq, p, p + k);
        let keep = match downsample {
            Some(t) => xxhash64(DOWNSAMPLE_SEED, mer) < t,
            None => true,
        };
        let ghost before = out@;
        if keep {
            out.push(mer);
        }
        i += 1;
        proof {
            assert(pos.subrange(0, i as int).drop_last() =~= pos.subrange(0, i - 1));
            let want = kept_syncmers(seq@, k as int, pos.subrange(0, i as int), downsample);
            assert forall|j: int| 0 <= j < out@.len() implies #[trigger] out@[j]@ == want[j] by {
                if j < before.len() {
                    assert(out@[j] == before[j]);
                }
            }
        }
    }
    proof {
        assert(pos.subrange(0, pos.len() as int) =~= pos);
    }
    out
}

} // verus!

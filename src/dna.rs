//! Nucleotide alphabets: complements, reverse complements, 2-bit codes and
//! lexicographic comparison of byte strings.
use vstd::prelude::*;

verus! {

/// Complement of a nucleotide character; anything that is not a nucleotide
/// (upper or lower case, `U` read as RNA uracil) becomes `N`.
pub open spec fn switch_base_spec(c: char) -> char {
    if c == 'a' { 't' }
    else if c == 'c' { 'g' }
    else if c == 't' { 'a' }
    else if c == 'g' { 'c' }
    else if c == 'u' { 'a' }
    else if c == 'A' { 'T' }
    else if c == 'C' { 'G' }
    else if c == 'T' { 'A' }
    else if c == 'G' { 'C' }
    else if c == 'U' { 'A' }
    else { 'N' }
}

/// Reverse complement of a character sequence.
pub open spec fn revcomp_chars(s: Seq<char>) -> Seq<char> {
    Seq::new(s.len(), |i: int| switch_base_spec(s[s.len() - 1 - i]))
}

/// Relies on String::push: appends one character at the end.
#[verifier::external_body]
pub(crate) fn push_char(s: &mut String, c: char)
    ensures
        final(s)@ == old(s)@.push(c),
{
    s.push(c)
}

pub fn switch_base(c: char) -> (r: char)
    ensures
        r == switch_base_spec(c),
{
    match c {
        'a' => 't',
        'c' => 'g',
        't' => 'a',
        'g' => 'c',
        'u' => 'a',
        'A' => 'T',
        'C' => 'G',
        'T' => 'A',
        'G' => 'C',
        'U' => 'A',
        _ => 'N',
    }
}

/// Reverse complement of a nucleotide string, character by character.
pub fn revcomp(dna: &str) -> (r: String)
    ensures
        r@ == revcomp_chars(dna@),
{
    let mut chars: Vec<char> = Vec::new();
    for c in it: dna.chars()
        invariant
            chars@ == it.seq().subrange(0, it.index() as int),
    {
        chars.push(c);
    }
    assert(chars@ == dna@);
    let mut out = String::new();
    let n = chars.len();
    let mut i: usize = 0;
    while i < n
        invariant
            n == chars@.len(),
            i <= n,
            out@ == revcomp_chars(chars@).subrange(0, i as int),
        decreases n - i,
    {
        push_char(&mut out, switch_base(chars[n - 1 - i]));
        i += 1;
        assert(out@ =~= revcomp_chars(chars@).subrange(0, i as int));
    }
    assert(out@ =~= revcomp_chars(chars@));
    out
}


/// Complement of a nucleotide byte, the byte-level counterpart of
/// `switch_base_spec`.
pub open spec fn comp_byte_spec(b: u8) -> u8 {
    if b == 97 { 116 }
    else if b == 99 { 103 }
    else if b == 116 { 97 }
    else if b == 103 { 99 }
    else if b == 117 { 97 }
    else if b == 65 { 84 }
    else if b == 67 { 71 }
    else if b == 84 { 65 }
    else if b == 71 { 67 }
    else if b == 85 { 65 }
    else { 78 }
}

/// Reverse complement of a byte sequence.
pub open spec fn revcomp_bytes(s: Seq<u8>) -> Seq<u8> {
    Seq::new(s.len(), |i: int| comp_byte_spec(s[s.len() - 1 - i]))
}

pub fn comp_byte(b: u8) -> (r: u8)
    ensures
        r == comp_byte_spec(b),
{
    // a c t g u A C T G U, else N
    if b == 97 { 116 }
    else if b == 99 { 103 }
    else if b == 116 { 97 }
    else if b == 103 { 99 }
    else if b == 117 { 97 }
    else if b == 65 { 84 }
    else if b == 67 { 71 }
    else if b == 84 { 65 }
    else if b == 71 { 67 }
    else if b == 85 { 65 }
    else { 78 }
}

/// Reverse complement of `s[from..to]`.
pub fn revcomp_range(s: &[u8], from: usize, to: usize) -> (r: Vec<u8>)
    requires
        from <= to <= s@.len(),
    ensures
        r@ == revcomp_bytes(s@.subrange(from as int, to as int)),
{
    let mut out: Vec<u8> = Vec::new();
    let mut j: usize = to;
    while j > from
        invariant
            from <= j <= to <= s@.len(),
            out@ =~= revcomp_bytes(s@.subrange(from as int, to as int)).subrange(0, (to - j) as int),
        decreases j,
    {
        j -= 1;
        out.push(comp_byte(s[j]));
        assert(out@ =~= revcomp_bytes(s@.subrange(from as int, to as int)).subrange(0, (to - j) as int));
    }
    out
}

/// Copy of `s[from..to]`.
pub fn copy_range(s: &[u8], from: usize, to: usize) -> (r: Vec<u8>)
    requires
        from <= to <= s@.len(),
    ensures
        r@ == s@.subrange(from as int, to as int),
{
    let mut out: Vec<u8> = Vec::new();
    let mut j: usize = from;
    while j < to
        invariant
            from <= j <= to <= s@.len(),
            out@ =~= s@.subrange(from as int, j as int),
        decreases to - j,
    {
        out.push(s[j]);
        j += 1;
    }
    out
}

/// Whether `a` and `b` agree on their first `i` positions.
pub open spec fn same_prefix(a: Seq<u8>, b: Seq<u8>, i: int) -> bool {
    forall|t: int| 0 <= t < i ==> a[t] == b[t]
}

/// `a` and `b` first differ at position `i`, where `a` holds the smaller byte.
pub open spec fn lt_at(a: Seq<u8>, b: Seq<u8>, i: int) -> bool {
    &&& 0 <= i < a.len()
    &&& i < b.len()
    &&& same_prefix(a, b, i)
    &&& a[i] < b[i]
}

/// Lexicographic order on byte strings, as `<` orders `[u8]` and `String`.
pub open spec fn lex_lt(a: Seq<u8>, b: Seq<u8>) -> bool {
    ||| exists|i: int| #[trigger] lt_at(a, b, i)
    ||| (a.len() < b.len() && same_prefix(a, b, a.len() as int))
}

/// Lexicographic comparison of two byte strings.
pub fn lex_less(a: &[u8], b: &[u8]) -> (r: bool)
    ensures
        r == lex_lt(a@, b@),
{
    let mut i: usize = 0;
    while i < a.len() && i < b.len()
        invariant
            i <= a@.len(),
            i <= b@.len(),
            same_prefix(a@, b@, i as int),
        decreases a@.len() - i,
    {
        if a[i] != b[i] {
            let r = a[i] < b[i];
            if !r {
                assert forall|j: int| !lt_at(a@, b@, j) by {
                    if lt_at(a@, b@, j) {
                        if j < i {
                        } else if j > i {
                            assert(a@[i as int] == b@[i as int]);
                        }
                    }
                }
            } else {
                assert(lt_at(a@, b@, i as int));
            }
            return r;
        }
        i += 1;
    }
    assert forall|j: int| !lt_at(a@, b@, j) by {
        if lt_at(a@, b@, j) {
            assert(a@[j] == b@[j]);
        }
    }
    i < b.len()
}

/// Lexicographic comparison of `a[ai .. ai + len)` with `b[bi .. bi + len)`.
pub fn lex_less_ranges(a: &[u8], ai: usize, b: &[u8], bi: usize, len: usize) -> (r: bool)
    requires
        ai + len <= a@.len(),
        bi + len <= b@.len(),
    ensures
        r == lex_lt(a@.subrange(ai as int, ai + len), b@.subrange(bi as int, bi + len)),
{
    let ghost x = a@.subrange(ai as int, ai + len);
    let ghost y = b@.subrange(bi as int, bi + len);
    let mut i: usize = 0;
    let na = a.len();
    let nb = b.len();
    while i < len
        invariant
            na == a@.len(),
            nb == b@.len(),
            ai + len <= na,
            bi + len <= nb,
            x == a@.subrange(ai as int, ai + len),
            y == b@.subrange(bi as int, bi + len),
            i <= len,
            same_prefix(x, y, i as int),
        decreases len - i,
    {
        if a[ai + i] != b[bi + i] {
            let r = a[ai + i] < b[bi + i];
            assert(x[i as int] == a@[ai + i]);
            assert(y[i as int] == b@[bi + i]);
            if !r {
                assert forall|j: int| !lt_at(x, y, j) by {
                    if lt_at(x, y, j) {
                        if j > i {
                            assert(x[i as int] == y[i as int]);
                        }
                    }
                }
            } else {
                assert(lt_at(x, y, i as int));
            }
            return r;
        }
        assert(x[i as int] == y[i as int]);
        i += 1;
    }
    assert forall|j: int| !lt_at(x, y, j) by {
        if lt_at(x, y, j) {
            assert(x[j] == y[j]);
        }
    }
    false
}

/// Whether `s[at..at + p.len()]` spells `p`.
pub fn occurs_at(s: &[u8], at: usize, p: &[u8]) -> (r: bool)
    requires
        at + p@.len() <= s@.len(),
    ensures
        r == (s@.subrange(at as int, at + p@.len()) == p@),
{
    let mut j: usize = 0;
    let n = s.len();
    while j < p.len()
        invariant
            n == s@.len(),
            at + p@.len() <= n,
            j <= p@.len(),
            forall|t: int| 0 <= t < j ==> s@[at + t] == p@[t],
        decreases p@.len() - j,
    {
        if s[at + j] != p[j] {
            assert(s@.subrange(at as int, at + p@.len())[j as int] != p@[j as int]);
            return false;
        }
        j += 1;
    }
    assert(s@.subrange(at as int, at + p@.len()) =~= p@);
    true
}

/// The bit trick that complements an ASCII nucleotide: `A`/`T` and `C`/`G`
/// swap, in either case; `N` stays.
pub open spec fn complement_spec(v: u8) -> u8 {
    if v != 78 {
        if v & 2 != 0 { v ^ 4 } else { v ^ 21 }
    } else {
        v
    }
}

/// Complements a nucleotide byte in place.
pub fn complement(c: &mut u8)
    ensures
        *final(c) == complement_spec(*old(c)),
{
    let val = *c;
    // 78 is `N`
    let new_val = if val != 78 {
        if val & 2 != 0 {
            val ^ 4
        } else {
            val ^ 21
        }
    } else {
        val
    };
    *c = new_val;
}

/// Reverse complement by the bit trick of `complement`.
pub open spec fn revcomp_bits(s: Seq<u8>) -> Seq<u8> {
    Seq::new(s.len(), |i: int| complement_spec(s[s.len() - 1 - i]))
}

/// Whether the reverse complement of `seq` (complemented by the bit trick of
/// `complement`) is lexicographically smaller than `seq`: whether the reverse
/// strand is the canonical one.
pub fn is_revcomp_min(seq: &[u8]) -> (r: bool)
    requires
        seq@.len() > 0,
    ensures
        r == lex_lt(revcomp_bits(seq@), seq@),
{
    let n = seq.len();
    let ghost rc = revcomp_bits(seq@);
    let mut i: usize = 0;
    while i < n
        invariant
            n == seq@.len(),
            rc == revcomp_bits(seq@),
            i <= n,
            same_prefix(rc, seq@, i as int),
        decreases n - i,
    {
        let mut c = seq[n - i - 1];
        complement(&mut c);
        assert(c == rc[i as int]);
        if c < seq[i] {
            assert(lt_at(rc, seq@, i as int));
            return true;
        } else if c > seq[i] {
            assert forall|j: int| !lt_at(rc, seq@, j) by {
                if lt_at(rc, seq@, j) {
                    if j > i {
                        assert(seq@[i as int] == rc[i as int]);
                    }
                }
            }
            return false;
        }
        i += 1;
    }
    assert forall|j: int| !lt_at(rc, seq@, j) by {
        if lt_at(rc, seq@, j) {
            assert(seq@[j] == rc[j]);
        }
    }
    false
}

/// 2-bit code of a nucleotide: A=0, C=1, G=2, T=3 (either case); anything
/// else reads as A.
pub open spec fn base_bits_spec(c: u8) -> u8 {
    if c == 65 || c == 97 { 0 }
    else if c == 67 || c == 99 { 1 }
    else if c == 71 || c == 103 { 2 }
    else if c == 84 || c == 116 { 3 }
    else { 0 }
}

pub fn base_to_bits(c: u8) -> (r: u8)
    ensures
        r == base_bits_spec(c),
        r < 4,
{
    if c == 65 || c == 97 { 0 }
    else if c == 67 || c == 99 { 1 }
    else if c == 71 || c == 103 { 2 }
    else if c == 84 || c == 116 { 3 }
    else { 0 }
}

/// `4^n`.
pub open spec fn pow4(n: nat) -> nat
    decreases n,
{
    if n == 0 {
        1
    } else {
        4 * pow4((n - 1) as nat)
    }
}

/// Bases packed two bits each, the first base in the highest bits.
pub open spec fn pack(s: Seq<u8>) -> nat
    decreases s.len(),
{
    if s.len() == 0 {
        0
    } else {
        pack(s.drop_last()) * 4 + base_bits_spec(s.last()) as nat
    }
}

/// Upper-case base of a 2-bit code.
pub open spec fn base_of(d: nat) -> u8 {
    if d == 0 {
        65
    } else if d == 1 {
        67
    } else if d == 2 {
        71
    } else {
        84
    }
}

/// The `l` bases packed in `x`, first base from the highest bits.
pub open spec fn unpack(x: nat, l: nat) -> Seq<u8>
    decreases l,
{
    if l == 0 {
        seq![]
    } else {
        unpack(x / 4, (l - 1) as nat).push(base_of(x % 4))
    }
}

pub proof fn lemma_pow4_mono(a: nat, b: nat)
    requires
        a <= b,
    ensures
        pow4(a) <= pow4(b),
    decreases b - a,
{
    if a < b {
        lemma_pow4_mono(a, (b - 1) as nat);
    }
}

pub proof fn lemma_pow4_32()
    ensures
        pow4(32) == 0x1_0000_0000_0000_0000,
{
    reveal_with_fuel(pow4, 33);
}

/// Packs `s[from .. from + l)`, two bits a base.
pub fn pack_range(s: &[u8], from: usize, l: usize) -> (r: u64)
    requires
        from + l <= s@.len(),
        l <= 32,
    ensures
        r as nat == pack(s@.subrange(from as int, from + l)),
        (r as nat) < pow4(l as nat),
{
    let mut acc: u64 = 0;
    let mut i: usize = 0;
    let n = s.len();
    while i < l
        invariant
            n == s@.len(),
            from + l <= n,
            l <= 32,
            i <= l,
            acc as nat == pack(s@.subrange(from as int, from + i)),
            (acc as nat) < pow4(i as nat),
        decreases l - i,
    {
        let b = base_to_bits(s[from + i]);
        proof {
            lemma_pow4_mono((i + 1) as nat, 32);
            lemma_pow4_32();
            let p = pow4(i as nat);
            assert(acc * 4 + b < 4 * p) by (nonlinear_arith)
                requires
                    acc < p,
                    b < 4,
            ;
            assert(s@.subrange(from as int, from + i + 1).drop_last() =~= s@.subrange(from as int, from + i));
        }
        acc = acc * 4 + b as u64;
        i += 1;
    }
    acc
}

/// The `l` bases packed in `x`.
pub fn unpack_bases(x: u64, l: usize) -> (r: Vec<u8>)
    ensures
        r@ == unpack(x as nat, l as nat),
    decreases l,
{
    if l == 0 {
        return Vec::new();
    }
    let mut v = unpack_bases(x / 4, l - 1);
    let d = x % 4;
    let b: u8 = if d == 0 {
        65
    } else if d == 1 {
        67
    } else if d == 2 {
        71
    } else {
        84
    };
    v.push(b);
    v
}

/// A byte whose complement complements back to it: `ACGTN`, or `acgt`.
pub open spec fn is_nucleotide(b: u8) -> bool {
    b == 65 || b == 67 || b == 71 || b == 84 || b == 78 || b == 97 || b == 99 || b == 103 || b == 116
}

pub open spec fn all_nucleotides(s: Seq<u8>) -> bool {
    forall|j: int| 0 <= j < s.len() ==> #[trigger] is_nucleotide(s[j])
}

/// Reverse complementing twice gives the sequence back.
pub proof fn lemma_revcomp_involution(s: Seq<u8>)
    requires
        all_nucleotides(s),
    ensures
        revcomp_bytes(revcomp_bytes(s)) == s,
        all_nucleotides(revcomp_bytes(s)),
{
    let r = revcomp_bytes(s);
    assert forall|j: int| 0 <= j < r.len() implies #[trigger] is_nucleotide(r[j]) by {
        assert(is_nucleotide(s[s.len() - 1 - j]));
    }
    assert forall|j: int| 0 <= j < s.len() implies revcomp_bytes(r)[j] == s[j] by {
        assert(is_nucleotide(s[j]));
    }
    assert(revcomp_bytes(r) =~= s);
}

/// The reverse complement of a window is the mirrored window of the reverse
/// complement.
pub proof fn lemma_revcomp_window(s: Seq<u8>, p: int, l: int)
    requires
        0 <= p,
        0 <= l,
        p + l <= s.len(),
    ensures
        revcomp_bytes(s).subrange(s.len() - p - l, s.len() - p) == revcomp_bytes(s.subrange(p, p + l)),
{
    assert(revcomp_bytes(s).subrange(s.len() - p - l, s.len() - p) =~= revcomp_bytes(s.subrange(p, p + l)));
}

/// No two byte strings are each smaller than the other.
pub proof fn lemma_lex_asymmetric(a: Seq<u8>, b: Seq<u8>)
    ensures
        !(lex_lt(a, b) && lex_lt(b, a)),
{
    if lex_lt(a, b) && lex_lt(b, a) {
        if exists|i: int| #[trigger] lt_at(a, b, i) {
            let i = choose|i: int| #[trigger] lt_at(a, b, i);
            if exists|j: int| #[trigger] lt_at(b, a, j) {
                let j = choose|j: int| #[trigger] lt_at(b, a, j);
                if i < j {
                    assert(b[i] == a[i]);
                } else if j < i {
                    assert(a[j] == b[j]);
                }
            } else {
                assert(a[i] == b[i]);
            }
        } else {
            if exists|j: int| #[trigger] lt_at(b, a, j) {
                let j = choose|j: int| #[trigger] lt_at(b, a, j);
                assert(a[j] == b[j]);
            }
        }
    }
}

proof fn lemma_lex_total_from(a: Seq<u8>, b: Seq<u8>, i: int)
    requires
        a.len() == b.len(),
        a != b,
        0 <= i <= a.len(),
        same_prefix(a, b, i),
    ensures
        lex_lt(a, b) || lex_lt(b, a),
    decreases a.len() - i,
{
    if i == a.len() {
        assert(a =~= b);
    } else if a[i] != b[i] {
        if a[i] < b[i] {
            assert(lt_at(a, b, i));
        } else {
            assert(lt_at(b, a, i));
        }
    } else {
        lemma_lex_total_from(a, b, i + 1);
    }
}

/// Two different byte strings of one length are ordered one way or the other.
pub proof fn lemma_lex_total(a: Seq<u8>, b: Seq<u8>)
    requires
        a.len() == b.len(),
        a != b,
    ensures
        lex_lt(a, b) || lex_lt(b, a),
{
    lemma_lex_total_from(a, b, 0);
}

} // verus!

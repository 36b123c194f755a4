//! Spelling a compact record out against its sequence.
use vstd::prelude::*;
use crate::dna::{copy_range, push_char, revcomp_bytes, revcomp_range};
use crate::{Superkmer, SuperkmerVerbose};

verus! {

/// Characters of a byte string, one per byte.
pub open spec fn ascii_chars(s: Seq<u8>) -> Seq<char> {
    s.map_values(|b: u8| b as char)
}

/// The strand a record is spelled on: its span of `read`, reverse
/// complemented when `rc` is set.
pub open spec fn recorded_strand(read: Seq<u8>, sk: Superkmer) -> Seq<u8> {
    let fwd = read.subrange(sk.start as int, sk.start + sk.size);
    if sk.rc {
        revcomp_bytes(fwd)
    } else {
        fwd
    }
}

/// A string with one character per byte of `b`.
fn string_of_bytes(b: &[u8]) -> (r: String)
    ensures
        r@ == ascii_chars(b@),
{
    let mut out = String::new();
    let mut i: usize = 0;
    while i < b.len()
        invariant
            i <= b@.len(),
            out@ == ascii_chars(b@.subrange(0, i as int)),
        decreases b@.len() - i,
    {
        push_char(&mut out, b[i] as char);
        i += 1;
        assert(ascii_chars(b@.subrange(0, i as int)) =~= ascii_chars(b@.subrange(0, i - 1)).push(
            b@[i - 1] as char,
        ));
    }
    assert(b@.subrange(0, i as int) =~= b@);
    out
}

/// Spells a compact record out against the sequence it came from, with
/// minimizers of length `l`.
pub fn superkmer_to_verbose(superkmer: Superkmer, sequence: &[u8], l: usize) -> (r: SuperkmerVerbose)
    requires
        superkmer.start + superkmer.size <= sequence@.len(),
        superkmer.mpos + l <= superkmer.size,
    ensures
        r.mpos == superkmer.mpos,
        r.sequence@ == ascii_chars(recorded_strand(sequence@, superkmer)),
        r.minimizer@ == ascii_chars(
            recorded_strand(sequence@, superkmer).subrange(superkmer.mpos as int, superkmer.mpos + l),
        ),
{
    let n = sequence.len();
    let from = superkmer.start;
    let to = superkmer.start + superkmer.size as usize;
    let strand = if superkmer.rc {
        revcomp_range(sequence, from, to)
    } else {
        copy_range(sequence, from, to)
    };
    let mpos = superkmer.mpos as usize;
    let minimizer = copy_range(strand.as_slice(), mpos, mpos + l);
    SuperkmerVerbose {
        mpos,
        sequence: string_of_bytes(strand.as_slice()),
        minimizer: string_of_bytes(minimizer.as_slice()),
    }
}

} // verus!

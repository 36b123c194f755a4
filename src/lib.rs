//! Streaming extraction of superkmers: maximal runs of consecutive k-mers of a
//! DNA sequence that share one minimal-priority l-mer (their minimizer).
//!
//! - `dna`: complements, reverse complements, 2-bit codes, byte-string order.
//! - `windows`: leftmost minima and ties of score windows; runs of windows.
//! - `tracker`: the sliding-window minimum (monotonic deque over a ring buffer).
//! - `canon`: which strand a superkmer is recorded on, and its minimizer offset.
//! - `syncmers`: syncmer positions and the closed-syncmer table.
//! - `scoring`: the l-mer priority oracles (ntHash, lexicographic, syncmer).
//! - `engine`: the streaming extractor and the superkmers it must produce.
//! - `verbose`: spelling a compact record out.
//! - `naive`: the quadratic reference extractor.
//! - `laws`: what every extraction satisfies.
use vstd::prelude::*;

pub mod dna;
pub mod windows;
pub mod tracker;
pub mod canon;
pub mod syncmers;
pub mod scoring;
pub mod engine;
pub mod verbose;
pub mod naive;
pub mod laws;

verus! {

/// A superkmer in compact form: a span of the sequence, the strand it is
/// recorded on and where its minimizer sits on that strand.
#[derive(PartialEq, Eq, Structural, Hash, Debug, Clone, Copy, PartialOrd, Ord)]
pub struct Superkmer {
    /// Offset of the span in the sequence.
    pub start: usize,
    /// Raw minimizer value, where the scorer records one; 0 otherwise.
    pub mint: u32,
    /// Length of the span.
    pub size: u8,
    /// Offset of the minimizer on the recorded strand.
    pub mpos: u8,
    /// Whether the recorded strand is the reverse complement of the span.
    pub rc: bool,
}

/// A superkmer spelled out: its recorded strand, its minimizer, and the
/// minimizer's offset.
#[derive(PartialEq, Eq, Hash, Debug, Clone, PartialOrd, Ord)]
pub struct SuperkmerVerbose {
    pub mpos: usize,
    pub sequence: String,
    pub minimizer: String,
}

/// Why an extraction cannot start.
#[derive(PartialEq, Eq, Structural, Debug, Clone, Copy)]
pub enum ParamError {
    /// `l` is 0, `l` exceeds `k`, or `k` exceeds the sequence length.
    InvalidLengths,
    /// A span could outgrow the 255 bases a compact record holds (`2k - l > 255`).
    SpanTooLong,
    /// The scorer does not support this minimizer length.
    UnsupportedMinimizerLength,
    /// The hash scorer met a byte outside `ACGTN`.
    InvalidBase,
}

} // verus!

//! Reverse line scanner.
//!
//! Given an immutable byte buffer, the scanner locates every line-feed byte
//! in descending address order and emits the chunk between consecutive
//! delimiters, so that writing the chunks in emission order prints the
//! buffer's lines last line first, with every delimiter kept in place.
//!
//! The mathematical model of a scan lives in [`model`]; the executable
//! scanners (a scalar one and two window-at-a-time ones that mirror the
//! vectorized fast paths) live in [`scanner`]; the bitmask helpers used by
//! the window scanners live in [`mask`].

pub mod laws;
pub mod mask;
pub mod model;
pub mod scanner;

use vstd::prelude::*;

verus! {

/// The fixed delimiter byte every scan searches for: line feed.
pub const SEARCH: u8 = 10;

/// A half-open byte range `[start, end)` of the scanned buffer, emitted as
/// one write to the output sink.
#[derive(Clone, Copy, Debug, PartialEq, Eq, Structural)]
pub struct Chunk {
    pub start: usize,
    pub end: usize,
}

/// Which scanner runs a given invocation. Every strategy emits the same
/// chunk sequence; the choice only trades scanning width for availability.
#[derive(Clone, Copy, Debug, PartialEq, Eq, Structural)]
pub enum Strategy {
    /// 32-byte windows, for hardware with the wide vector family.
    Wide,
    /// 16-byte windows, for hardware with only the narrower family.
    Narrow,
    /// Byte at a time; always available.
    Scalar,
}

/// Picks the scanning strategy once per invocation from the outcome of the
/// hardware-capability query, in descending preference: wide windows, then
/// narrow windows, then the scalar fallback. Selection cannot fail; missing
/// capability only downgrades the choice.
pub fn select_strategy(wide_available: bool, narrow_available: bool) -> (s: Strategy)
    ensures
        s == (if wide_available {
            Strategy::Wide
        } else if narrow_available {
            Strategy::Narrow
        } else {
            Strategy::Scalar
        }),
{
    if wide_available {
        Strategy::Wide
    } else if narrow_available {
        Strategy::Narrow
    } else {
        Strategy::Scalar
    }
}

/// One whole scan: returns, in emission order, every chunk of `bytes` that
/// the chosen scanner hands to the output sink. An empty buffer produces no
/// chunks at all; any other buffer produces exactly [`model::chunks_of`],
/// whatever the strategy and whatever the alignment offset. `align_offset`
/// is how far the address one past the buffer's top index must advance to
/// reach the strategy's alignment boundary; the scalar strategy ignores it.
pub fn scan_reverse(bytes: &[u8], strategy: Strategy, align_offset: usize) -> (chunks: Vec<Chunk>)
    requires
        strategy == Strategy::Wide ==> align_offset < 32,
        strategy == Strategy::Narrow ==> align_offset < 16,
    ensures
        model::chunk_ranges(chunks@) == model::emitted_chunks(bytes@),
{
    let mut chunks: Vec<Chunk> = Vec::new();
    if bytes.len() == 0 {
        proof {
            assert(model::chunk_ranges(chunks@) =~= Seq::<(int, int)>::empty());
        }
        return chunks;
    }
    match strategy {
        Strategy::Wide => scanner::search256(bytes, align_offset, &mut chunks),
        Strategy::Narrow => scanner::search128(bytes, align_offset, &mut chunks),
        Strategy::Scalar => scanner::search(bytes, &mut chunks),
    }
    proof {
        assert(model::chunk_ranges(chunks@) =~= model::chunks_of(bytes@));
    }
    chunks
}

} // verus!

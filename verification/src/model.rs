//! Mathematical model of a reverse scan.
//!
//! A scan walks the buffer from the top index downward. It carries one piece
//! of state, `stop`: the exclusive upper bound of the next chunk to emit.
//! Whenever the byte at index `i` is the delimiter, the chunk `[i + 1, stop)`
//! is emitted and `stop` becomes `i + 1`. After index `0` has been examined,
//! the prefix `[0, stop)` is emitted unconditionally.
//!
//! [`scan_emits`] and [`scan_stop`] describe the delimiter-driven part of
//! that walk over an arbitrary sub-range; [`chunks_of`] is the whole scan of
//! a buffer, final prefix included.

use vstd::prelude::*;

verus! {

use crate::Chunk;
use crate::SEARCH;

/// The chunks emitted while examining indices of `[start, end)` in
/// descending order, where `stop` bounds the next chunk from above.
pub open spec fn scan_emits(b: Seq<u8>, start: int, end: int, stop: int) -> Seq<(int, int)>
    decreases end - start,
{
    if end <= start {
        Seq::empty()
    } else if b[end - 1] == SEARCH {
        seq![(end, stop)] + scan_emits(b, start, end - 1, end)
    } else {
        scan_emits(b, start, end - 1, stop)
    }
}

/// The value of `stop` after examining indices of `[start, end)` in
/// descending order: one past the lowest delimiter of the range, or the
/// incoming `stop` when the range holds none.
pub open spec fn scan_stop(b: Seq<u8>, start: int, end: int, stop: int) -> int
    decreases end - start,
{
    if end <= start {
        stop
    } else if b[end - 1] == SEARCH {
        scan_stop(b, start, end - 1, end)
    } else {
        scan_stop(b, start, end - 1, stop)
    }
}

/// The full emission sequence of one scan of `b`: the delimiter-driven
/// chunks, then the unconditional final prefix `[0, stop)`.
pub open spec fn chunks_of(b: Seq<u8>) -> Seq<(int, int)> {
    scan_emits(b, 0, b.len() as int, b.len() as int)
        + seq![(0int, scan_stop(b, 0, b.len() as int, b.len() as int))]
}

/// What a scan of `b` hands to the sink: nothing at all for an empty buffer
/// (callers skip the scan entirely), otherwise [`chunks_of`].
pub open spec fn emitted_chunks(b: Seq<u8>) -> Seq<(int, int)> {
    if b.len() == 0 {
        Seq::empty()
    } else {
        chunks_of(b)
    }
}

/// The ranges a sequence of emitted chunks stands for.
pub open spec fn chunk_ranges(cs: Seq<Chunk>) -> Seq<(int, int)> {
    cs.map_values(|c: Chunk| (c.start as int, c.end as int))
}

/// The bytes of `b` that the chunk ranges `cs` cover, restored to forward
/// order. Chunks are emitted last range first, so the first-emitted chunk's
/// bytes come last.
pub open spec fn restored(b: Seq<u8>, cs: Seq<(int, int)>) -> Seq<u8>
    decreases cs.len(),
{
    if cs.len() == 0 {
        Seq::empty()
    } else {
        restored(b, cs.drop_first()) + b.subrange(cs[0].0, cs[0].1)
    }
}

/// Appending one chunk to the emission log appends its range to the view.
pub proof fn lemma_chunk_ranges_push(cs: Seq<Chunk>, c: Chunk)
    ensures
        chunk_ranges(cs.push(c)) == chunk_ranges(cs).push((c.start as int, c.end as int)),
{
    assert(chunk_ranges(cs.push(c)) =~= chunk_ranges(cs).push((c.start as int, c.end as int)));
}

/// The value of `stop` after scanning a range lies between the range's
/// lower bound and the incoming `stop`.
pub proof fn lemma_scan_stop_bounds(b: Seq<u8>, start: int, end: int, stop: int)
    requires
        0 <= start <= end <= stop,
    ensures
        start <= scan_stop(b, start, end, stop) <= stop,
    decreases end - start,
{
    if end > start {
        if b[end - 1] == SEARCH {
            lemma_scan_stop_bounds(b, start, end - 1, end);
        } else {
            lemma_scan_stop_bounds(b, start, end - 1, stop);
        }
    }
}

/// Scanning a range in one go equals scanning its upper part first and then
/// its lower part, handing the `stop` reached in between across the seam.
pub proof fn lemma_scan_split(b: Seq<u8>, start: int, mid: int, end: int, stop: int)
    requires
        start <= mid <= end,
    ensures
        scan_emits(b, start, end, stop) == scan_emits(b, mid, end, stop)
            + scan_emits(b, start, mid, scan_stop(b, mid, end, stop)),
        scan_stop(b, start, end, stop)
            == scan_stop(b, start, mid, scan_stop(b, mid, end, stop)),
    decreases end - mid,
{
    if end == mid {
        assert(scan_emits(b, start, end, stop) =~= scan_emits(b, mid, end, stop)
            + scan_emits(b, start, mid, scan_stop(b, mid, end, stop)));
    } else {
        if b[end - 1] == SEARCH {
            lemma_scan_split(b, start, mid, end - 1, end);
        } else {
            lemma_scan_split(b, start, mid, end - 1, stop);
        }
        assert(scan_emits(b, start, end, stop) =~= scan_emits(b, mid, end, stop)
            + scan_emits(b, start, mid, scan_stop(b, mid, end, stop)));
    }
}

/// A range without delimiters adds no chunks and leaves `stop` alone, so the
/// scan may skip straight past it.
pub proof fn lemma_scan_no_delim(b: Seq<u8>, start: int, lo: int, end: int, stop: int)
    requires
        start <= lo <= end,
        forall|i: int| lo <= i < end ==> b[i] != SEARCH,
    ensures
        scan_emits(b, start, end, stop) == scan_emits(b, start, lo, stop),
        scan_stop(b, start, end, stop) == scan_stop(b, start, lo, stop),
    decreases end - lo,
{
    if end > lo {
        lemma_scan_no_delim(b, start, lo, end - 1, stop);
    }
}

} // verus!

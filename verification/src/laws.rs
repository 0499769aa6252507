//! The laws every scan obeys, stated over the model and proved once for all
//! buffers: the emitted chunks reassemble the buffer exactly, they come out
//! in reverse range order, every interior boundary sits one past a
//! delimiter, every strategy emits the same sequence, and re-scanning the
//! reassembled buffer changes nothing.

use vstd::prelude::*;

verus! {

use crate::model::chunks_of;
use crate::model::emitted_chunks;
use crate::model::lemma_scan_stop_bounds;
use crate::model::restored;
use crate::model::scan_emits;
use crate::model::scan_stop;
use crate::SEARCH;

/// Concatenation of chunk sequences restores piecewise, later-emitted part
/// first.
proof fn lemma_restored_concat(b: Seq<u8>, xs: Seq<(int, int)>, ys: Seq<(int, int)>)
    ensures
        restored(b, xs + ys) == restored(b, ys) + restored(b, xs),
    decreases xs.len(),
{
    if xs.len() == 0 {
        assert(xs + ys =~= ys);
        assert(restored(b, xs) =~= Seq::<u8>::empty());
        assert(restored(b, xs + ys) =~= restored(b, ys) + restored(b, xs));
    } else {
        assert((xs + ys).drop_first() =~= xs.drop_first() + ys);
        lemma_restored_concat(b, xs.drop_first(), ys);
        assert(restored(b, xs + ys) =~= restored(b, ys) + restored(b, xs));
    }
}

/// The chunks of a partial scan restore exactly the bytes between the
/// scan's final `stop` and its initial one.
proof fn lemma_scan_restores(b: Seq<u8>, start: int, end: int, stop: int)
    requires
        0 <= start <= end <= stop <= b.len(),
    ensures
        restored(b, scan_emits(b, start, end, stop))
            == b.subrange(scan_stop(b, start, end, stop), stop),
    decreases end - start,
{
    lemma_scan_stop_bounds(b, start, end, stop);
    if end <= start {
        assert(restored(b, scan_emits(b, start, end, stop)) =~= b.subrange(stop, stop));
    } else if b[end - 1] == SEARCH {
        lemma_scan_restores(b, start, end - 1, end);
        lemma_scan_stop_bounds(b, start, end - 1, end);
        lemma_restored_concat(b, seq![(end, stop)], scan_emits(b, start, end - 1, end));
        assert(seq![(end, stop)].drop_first() =~= Seq::<(int, int)>::empty());
        assert(restored(b, Seq::<(int, int)>::empty()) =~= Seq::<u8>::empty());
        assert(restored(b, seq![(end, stop)]) =~= b.subrange(end, stop));
        let s2 = scan_stop(b, start, end - 1, end);
        assert(b.subrange(s2, stop) =~= b.subrange(s2, end) + b.subrange(end, stop));
    } else {
        lemma_scan_restores(b, start, end - 1, stop);
    }
}

/// Round-trip: the emitted chunks, concatenated in forward range order,
/// reproduce the scanned buffer byte for byte — nothing lost, duplicated,
/// or reordered within a chunk. An empty buffer emits nothing and restores
/// to itself; any other buffer restores from [`chunks_of`].
pub proof fn lemma_round_trip(b: Seq<u8>)
    ensures
        restored(b, chunks_of(b)) == b,
        restored(b, emitted_chunks(b)) == b,
{
    if b.len() == 0 {
        assert(restored(b, emitted_chunks(b)) =~= b);
    }
    let n = b.len() as int;
    lemma_scan_restores(b, 0, n, n);
    lemma_scan_stop_bounds(b, 0, n, n);
    let s = scan_stop(b, 0, n, n);
    lemma_restored_concat(b, scan_emits(b, 0, n, n), seq![(0int, s)]);
    assert(seq![(0int, s)].drop_first() =~= Seq::<(int, int)>::empty());
    assert(restored(b, Seq::<(int, int)>::empty()) =~= Seq::<u8>::empty());
    assert(restored(b, seq![(0int, s)]) =~= b.subrange(0, s));
    assert(restored(b, chunks_of(b)) =~= b);
}

/// Idempotence of splitting: scanning the buffer reassembled from the
/// emitted chunks emits the very same chunks again.
pub proof fn lemma_rescan_idempotent(b: Seq<u8>)
    ensures
        chunks_of(restored(b, chunks_of(b))) == chunks_of(b),
        emitted_chunks(restored(b, emitted_chunks(b))) == emitted_chunks(b),
{
    lemma_round_trip(b);
}

/// Well-formedness of each partial-scan chunk: its start lies one past a
/// delimiter inside the scanned range, and its end is the previous boundary
/// — the buffer's end or again one past a delimiter.
proof fn lemma_scan_chunk_wf(b: Seq<u8>, start: int, end: int, stop: int, i: int)
    requires
        0 <= start <= end <= stop <= b.len(),
        stop == b.len() || b[stop - 1] == SEARCH,
        0 <= i < scan_emits(b, start, end, stop).len(),
    ensures
        start < scan_emits(b, start, end, stop)[i].0 <= end,
        scan_emits(b, start, end, stop)[i].0 <= scan_emits(b, start, end, stop)[i].1 <= stop,
        b[scan_emits(b, start, end, stop)[i].0 - 1] == SEARCH,
        scan_emits(b, start, end, stop)[i].1 == b.len()
            || b[scan_emits(b, start, end, stop)[i].1 - 1] == SEARCH,
    decreases end - start,
{
    if b[end - 1] == SEARCH {
        if i > 0 {
            lemma_scan_chunk_wf(b, start, end - 1, end, i - 1);
        }
    } else {
        lemma_scan_chunk_wf(b, start, end - 1, stop, i);
    }
}

/// Within one partial scan, chunk starts come out strictly decreasing.
proof fn lemma_scan_starts_desc(b: Seq<u8>, start: int, end: int, stop: int, i: int, j: int)
    requires
        0 <= start <= end <= stop <= b.len(),
        stop == b.len() || b[stop - 1] == SEARCH,
        0 <= i < j < scan_emits(b, start, end, stop).len(),
    ensures
        scan_emits(b, start, end, stop)[i].0 > scan_emits(b, start, end, stop)[j].0,
    decreases end - start,
{
    if b[end - 1] == SEARCH {
        if i == 0 {
            lemma_scan_chunk_wf(b, start, end - 1, end, j - 1);
        } else {
            lemma_scan_starts_desc(b, start, end - 1, end, i - 1, j - 1);
        }
    } else {
        lemma_scan_starts_desc(b, start, end - 1, stop, i, j);
    }
}

/// The `stop` a partial scan ends with is itself a valid boundary: the one
/// it started with, or one past a delimiter.
proof fn lemma_scan_stop_boundary(b: Seq<u8>, start: int, end: int, stop: int)
    requires
        0 <= start <= end <= b.len(),
    ensures
        scan_stop(b, start, end, stop) == stop
            || b[scan_stop(b, start, end, stop) - 1] == SEARCH,
    decreases end - start,
{
    if end > start {
        if b[end - 1] == SEARCH {
            lemma_scan_stop_boundary(b, start, end - 1, end);
        } else {
            lemma_scan_stop_boundary(b, start, end - 1, stop);
        }
    }
}

/// Within one partial scan, the first chunk ends at the incoming `stop`
/// and every later chunk ends where the one before it starts.
proof fn lemma_scan_adjacent(b: Seq<u8>, start: int, end: int, stop: int, i: int)
    requires
        0 <= start <= end <= stop,
        0 <= i < scan_emits(b, start, end, stop).len(),
    ensures
        i == 0 ==> scan_emits(b, start, end, stop)[0].1 == stop,
        i > 0 ==> scan_emits(b, start, end, stop)[i].1
            == scan_emits(b, start, end, stop)[i - 1].0,
    decreases end - start,
{
    if end <= start {
        // No chunks: the index bound is impossible.
    } else if b[end - 1] == SEARCH {
        if i > 0 {
            lemma_scan_adjacent(b, start, end - 1, end, i - 1);
        }
    } else {
        lemma_scan_adjacent(b, start, end - 1, stop, i);
    }
}

/// A partial scan's final `stop` is the incoming one when it emitted
/// nothing, and its last-emitted chunk's start otherwise.
proof fn lemma_scan_last(b: Seq<u8>, start: int, end: int, stop: int)
    requires
        0 <= start <= end <= stop,
    ensures
        scan_emits(b, start, end, stop).len() == 0
            ==> scan_stop(b, start, end, stop) == stop,
        scan_emits(b, start, end, stop).len() > 0
            ==> scan_stop(b, start, end, stop)
                == scan_emits(b, start, end, stop)[scan_emits(b, start, end, stop).len() - 1].0,
    decreases end - start,
{
    if end <= start {
    } else if b[end - 1] == SEARCH {
        lemma_scan_last(b, start, end - 1, end);
    } else {
        lemma_scan_last(b, start, end - 1, stop);
    }
}

/// The emitted chunks tile the buffer: the first one ends at the buffer's
/// length, each later one ends exactly where the chunk emitted before it
/// starts, and the last one starts at `0` — no gap and no overlap anywhere.
pub proof fn lemma_chunks_tile(b: Seq<u8>)
    ensures
        chunks_of(b).len() > 0,
        chunks_of(b)[0].1 == b.len(),
        chunks_of(b)[chunks_of(b).len() - 1].0 == 0,
        forall|i: int| 0 < i < chunks_of(b).len()
            ==> (#[trigger] chunks_of(b)[i]).1 == chunks_of(b)[i - 1].0,
{
    let n = b.len() as int;
    let cs = scan_emits(b, 0, n, n);
    lemma_scan_last(b, 0, n, n);
    if cs.len() > 0 {
        lemma_scan_adjacent(b, 0, n, n, 0);
    }
    assert forall|i: int| 0 < i < chunks_of(b).len() implies (#[trigger] chunks_of(b)[i]).1
        == chunks_of(b)[i - 1].0 by {
        if i < cs.len() {
            lemma_scan_adjacent(b, 0, n, n, i);
        }
    }
}

/// Reverse-order invariant: of any two emitted chunks, the one with the
/// lexicographically later memory range is emitted strictly before the
/// other — chunk starts come out strictly decreasing, ending at `0`.
pub proof fn lemma_reverse_order(b: Seq<u8>, i: int, j: int)
    requires
        0 <= i < j < emitted_chunks(b).len(),
    ensures
        emitted_chunks(b)[i].0 > emitted_chunks(b)[j].0,
{
    let n = b.len() as int;
    let cs = scan_emits(b, 0, n, n);
    if j < cs.len() {
        lemma_scan_starts_desc(b, 0, n, n, i, j);
    } else {
        lemma_scan_chunk_wf(b, 0, n, n, i);
    }
}

/// Delimiter-boundary invariant: every chunk boundary other than the
/// absolute `0` and the buffer's length sits exactly one past a delimiter
/// byte actually present in the buffer.
pub proof fn lemma_delimiter_boundaries(b: Seq<u8>, i: int)
    requires
        0 <= i < emitted_chunks(b).len(),
    ensures
        emitted_chunks(b)[i].0 == 0 || b[emitted_chunks(b)[i].0 - 1] == SEARCH,
        emitted_chunks(b)[i].1 == b.len() || b[emitted_chunks(b)[i].1 - 1] == SEARCH,
{
    let n = b.len() as int;
    let cs = scan_emits(b, 0, n, n);
    if i < cs.len() {
        lemma_scan_chunk_wf(b, 0, n, n, i);
    } else {
        lemma_scan_stop_boundary(b, 0, n, n);
    }
}

/// Strategy equivalence: two scans of the same buffer emit identical chunk
/// sequences whatever strategy and alignment each ran with — every
/// scanner's contract pins its emission to [`emitted_chunks`], so any two
/// emissions that meet those contracts coincide.
pub proof fn lemma_strategy_equivalence(b: Seq<u8>, cs1: Seq<(int, int)>, cs2: Seq<(int, int)>)
    requires
        cs1 == emitted_chunks(b),
        cs2 == emitted_chunks(b),
    ensures
        cs1 == cs2,
{
}

} // verus!

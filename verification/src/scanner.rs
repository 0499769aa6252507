//! The executable scanners.
//!
//! Three interchangeable strategies scan the buffer from its top index down
//! to `0`: a byte-at-a-time scalar scanner, and two window scanners that
//! mirror the vectorized fast paths — compare a whole window against the
//! delimiter, reduce it to a bitmask, and decode the mask in reverse bit
//! order. Each one's contract pins its emission to the same model, so the
//! strategies are provably byte-identical.

use vstd::prelude::*;

verus! {

use crate::mask::bit_at;
use crate::mask::bit_at16;
use crate::mask::bit_at32;
use crate::mask::lemma_clear_from;
use crate::mask::lemma_fuse16;
use crate::mask::lemma_fuse32;
use crate::mask::lemma_leading_zeros;
use crate::mask::lemma_zero64;
use crate::mask::mask16;
use crate::mask::mask32;
use crate::model::chunk_ranges;
use crate::model::chunks_of;
use crate::model::lemma_chunk_ranges_push;
use crate::model::lemma_scan_no_delim;
use crate::model::lemma_scan_split;
use crate::model::lemma_scan_stop_bounds;
use crate::model::scan_emits;
use crate::model::scan_stop;
use crate::Chunk;
use crate::SEARCH;

/// The byte-at-a-time scanner: examines every index of the buffer from the
/// top downward, emits a chunk at every delimiter, and closes with the
/// unconditional final prefix. Correct for every length, zero included.
pub fn search(bytes: &[u8], emits: &mut Vec<Chunk>)
    ensures
        chunk_ranges(final(emits)@) == chunk_ranges(old(emits)@) + chunks_of(bytes@),
{
    let n: usize = bytes.len();
    let mut stop: usize = n;
    let mut i: usize = n;
    while i > 0
        invariant
            i <= stop <= n,
            n == bytes@.len(),
            chunk_ranges(emits@) + scan_emits(bytes@, 0, i as int, stop as int)
                =~= chunk_ranges(old(emits)@) + scan_emits(bytes@, 0, n as int, n as int),
            scan_stop(bytes@, 0, i as int, stop as int)
                == scan_stop(bytes@, 0, n as int, n as int),
        decreases i,
    {
        i = i - 1;
        if bytes[i] == SEARCH {
            let ghost before = emits@;
            emits.push(Chunk { start: i + 1, end: stop });
            proof {
                lemma_chunk_ranges_push(before, (Chunk { start: (i + 1) as usize, end: stop }));
                assert(scan_emits(bytes@, 0, i + 1, stop as int)
                    == seq![(i + 1 as int, stop as int)] + scan_emits(bytes@, 0, i as int, i + 1));
                assert(chunk_ranges(emits@) + scan_emits(bytes@, 0, i as int, i + 1)
                    =~= chunk_ranges(before) + scan_emits(bytes@, 0, i + 1, stop as int));
            }
            stop = i + 1;
        }
    }
    let ghost before = emits@;
    emits.push(Chunk { start: 0, end: stop });
    proof {
        lemma_chunk_ranges_push(before, (Chunk { start: 0, end: stop }));
        assert(chunk_ranges(emits@) =~= chunk_ranges(old(emits)@) + chunks_of(bytes@));
    }
}

/// The bounded byte-at-a-time splicer: examines only the indices of
/// `[start, end)` from the top downward on behalf of a window scanner,
/// emitting a chunk at every delimiter and lowering `stop` as it goes. It
/// never performs the final-prefix emission — that is its caller's duty once
/// every range has been scanned.
pub fn slow_search_and_print(
    bytes: &[u8],
    start: usize,
    end: usize,
    stop: &mut usize,
    emits: &mut Vec<Chunk>,
)
    requires
        start <= end <= bytes@.len(),
        end <= *old(stop) <= bytes@.len(),
    ensures
        chunk_ranges(final(emits)@) == chunk_ranges(old(emits)@)
            + scan_emits(bytes@, start as int, end as int, *old(stop) as int),
        *final(stop) == scan_stop(bytes@, start as int, end as int, *old(stop) as int),
{
    let mut i: usize = end;
    while i > start
        invariant
            start <= i <= end <= bytes@.len(),
            i <= *stop <= bytes@.len(),
            chunk_ranges(emits@) + scan_emits(bytes@, start as int, i as int, *stop as int)
                =~= chunk_ranges(old(emits)@)
                + scan_emits(bytes@, start as int, end as int, *old(stop) as int),
            scan_stop(bytes@, start as int, i as int, *stop as int)
                == scan_stop(bytes@, start as int, end as int, *old(stop) as int),
        decreases i,
    {
        i = i - 1;
        if bytes[i] == SEARCH {
            let ghost before = emits@;
            let ghost stop_before = *stop as int;
            emits.push(Chunk { start: i + 1, end: *stop });
            proof {
                lemma_chunk_ranges_push(before, (Chunk { start: (i + 1) as usize, end: *stop }));
                assert(scan_emits(bytes@, start as int, i + 1, stop_before)
                    == seq![(i + 1 as int, stop_before)]
                    + scan_emits(bytes@, start as int, i as int, i + 1));
                assert(chunk_ranges(emits@) + scan_emits(bytes@, start as int, i as int, i + 1)
                    =~= chunk_ranges(before)
                    + scan_emits(bytes@, start as int, i + 1, stop_before));
            }
            *stop = i + 1;
        }
    }
}

/// Decodes one window's match mask from the most-significant end downward,
/// which visits the window's delimiters in decreasing address order. Bit `j`
/// of `matches` stands for the byte at `window_end - 64 + j`; for every set
/// bit, highest first, the chunk up to `stop` is emitted and the bit is
/// retired together with everything above it by keeping only the bits below
/// it. Equivalent to the bounded splicer over `[window_end - 64, window_end)`.
fn decode_window(
    bytes: &[u8],
    window_end: usize,
    matches: u64,
    stop: &mut usize,
    emits: &mut Vec<Chunk>,
)
    requires
        64 <= window_end <= bytes@.len(),
        forall|k: u64| k < 64 ==> (#[trigger] bit_at(matches, k)
            <==> bytes@[window_end - 64 + k] == SEARCH),
    ensures
        chunk_ranges(final(emits)@) == chunk_ranges(old(emits)@)
            + scan_emits(bytes@, window_end - 64, window_end as int, *old(stop) as int),
        *final(stop) == scan_stop(bytes@, window_end - 64, window_end as int, *old(stop) as int),
{
    let ghost lo: int = window_end - 64;
    let ghost s0: int = *stop as int;
    let mut m: u64 = matches;
    let ghost mut w: int = 64;
    while m != 0
        invariant
            64 <= window_end <= bytes@.len(),
            lo == window_end - 64,
            0 <= w <= 64,
            forall|k: u64| k < 64 ==> (#[trigger] bit_at(m, k)
                <==> (k < w && bytes@[lo + k] == SEARCH)),
            chunk_ranges(emits@) + scan_emits(bytes@, lo, lo + w, *stop as int)
                =~= chunk_ranges(old(emits)@) + scan_emits(bytes@, lo, lo + 64, s0),
            scan_stop(bytes@, lo, lo + w, *stop as int) == scan_stop(bytes@, lo, lo + 64, s0),
        decreases m,
    {
        let lead: u32 = m.leading_zeros();
        proof {
            lemma_leading_zeros(m, lead);
        }
        let offset: usize = window_end - (lead as usize);
        let ghost j: u64 = (63 - lead) as u64;
        let ghost p: int = lo + j;
        let ghost m_before = m;
        let ghost emits_before = emits@;
        let ghost stop_before = *stop as int;
        emits.push(Chunk { start: offset, end: *stop });
        *stop = offset;
        proof {
            assert(1u64 << ((63 - lead) as u64) >= 1) by (bit_vector)
                requires
                    lead < 64,
            ;
        }
        m = m & ((1u64 << ((63 - lead) as u64)) - 1);
        proof {
            lemma_clear_from(m_before, j);
            assert(m == m_before & (((1u64 << j) - 1) as u64));
            // The byte under the decoded bit is a delimiter; everything in
            // the window above it and below the old scan position is not.
            assert(bit_at(m_before, j));
            assert(bytes@[p] == SEARCH);
            assert(j < w);
            assert forall|i: int| p + 1 <= i < lo + w implies bytes@[i] != SEARCH by {
                let k: u64 = (i - lo) as u64;
                assert(!bit_at(m_before, k));
            }
            // Splice the still-unscanned range `[lo, lo + w)` at the found
            // delimiter: above `p` it is delimiter-free, so the range scans
            // as the one chunk at `p` followed by the rest below `p`.
            lemma_scan_split(bytes@, lo, p, lo + w, stop_before);
            lemma_scan_no_delim(bytes@, p, p + 1, lo + w, stop_before);
            assert(scan_emits(bytes@, p, p, p + 1) =~= Seq::<(int, int)>::empty());
            assert(scan_stop(bytes@, p, p, p + 1) == p + 1);
            assert(scan_emits(bytes@, p, p + 1, stop_before) =~= seq![(p + 1, stop_before)]);
            assert(scan_stop(bytes@, p, p + 1, stop_before) == p + 1);
            assert(offset == p + 1);
            lemma_chunk_ranges_push(
                emits_before,
                (Chunk { start: offset, end: stop_before as usize }),
            );
            assert(chunk_ranges(emits@) + scan_emits(bytes@, lo, p, p + 1)
                =~= chunk_ranges(emits_before) + scan_emits(bytes@, lo, lo + w, stop_before));
            w = j as int;
            // The cleared mask matches the new scan position.
            assert forall|k: u64| k < 64 implies (#[trigger] bit_at(m, k)
                <==> (k < w && bytes@[lo + k] == SEARCH)) by {
                assert(bit_at(m, k) <==> (bit_at(m_before, k) && k < j));
            }
        }
    }
    proof {
        lemma_zero64();
        assert forall|i: int| lo <= i < lo + w implies bytes@[i] != SEARCH by {
            let k: u64 = (i - lo) as u64;
            assert(!bit_at(m, k));
        }
        lemma_scan_no_delim(bytes@, lo, lo, lo + w, *stop as int);
        assert(scan_emits(bytes@, lo, lo, *stop as int) =~= Seq::<(int, int)>::empty());
        assert(chunk_ranges(emits@) =~= chunk_ranges(old(emits)@)
            + scan_emits(bytes@, lo, lo + 64, s0));
    }
}

/// The wide-window scanner: the shape of the fast path that compares a
/// 32-byte window per hardware operation. The unaligned bytes between the
/// buffer's top and the alignment seam go to the bounded splicer; the
/// aligned region is consumed 64 bytes at a time, two windows fused into one
/// mask; the leftover low bytes go to the splicer again; and the final
/// prefix is emitted unconditionally. `align_offset` is however far the
/// address one past the top index must advance to reach a 32-byte boundary;
/// the emitted chunks are the same whatever its value.
pub fn search256(bytes: &[u8], align_offset: usize, emits: &mut Vec<Chunk>)
    requires
        bytes@.len() >= 1,
        align_offset < 32,
    ensures
        chunk_ranges(final(emits)@) == chunk_ranges(old(emits)@) + chunks_of(bytes@),
{
    let n: usize = bytes.len();
    let mut last_printed: usize = n;
    let mut index: usize = n - 1;
    if index >= 64 {
        let aligned_index: usize = index - (32 - align_offset);
        slow_search_and_print(bytes, aligned_index, n, &mut last_printed, emits);
        index = aligned_index;
        proof {
            lemma_scan_stop_bounds(bytes@, index as int, n as int, n as int);
        }
        while index >= 64
            invariant
                n == bytes@.len(),
                index <= n,
                index <= last_printed <= n,
                last_printed == scan_stop(bytes@, index as int, n as int, n as int),
                chunk_ranges(emits@) =~= chunk_ranges(old(emits)@)
                    + scan_emits(bytes@, index as int, n as int, n as int),
            decreases index,
        {
            let window_end: usize = index;
            index = index - 32;
            let m_hi: u32 = mask32(bytes, index);
            index = index - 32;
            let m_lo: u32 = mask32(bytes, index);
            let matches: u64 = ((m_hi as u64) << 32) | (m_lo as u64);
            let ghost lp_before = last_printed as int;
            proof {
                lemma_fuse32(m_hi, m_lo);
                assert forall|k: u64| k < 64 implies (#[trigger] bit_at(matches, k)
                    <==> bytes@[window_end - 64 + k] == SEARCH) by {
                    if k < 32 {
                        let kk: u32 = k as u32;
                        assert(bit_at(matches, kk as u64) <==> bit_at32(m_lo, kk));
                        assert(bit_at32(m_lo, kk) <==> bytes@[index + kk] == SEARCH);
                    } else {
                        let kk: u32 = (k - 32) as u32;
                        assert(bit_at(matches, (kk + 32) as u64) <==> bit_at32(m_hi, kk));
                        assert(bit_at32(m_hi, kk) <==> bytes@[index + 32 + kk] == SEARCH);
                    }
                }
            }
            decode_window(bytes, window_end, matches, &mut last_printed, emits);
            proof {
                lemma_scan_split(bytes@, index as int, window_end as int, n as int, n as int);
                lemma_scan_stop_bounds(bytes@, index as int, window_end as int, lp_before);
                assert(chunk_ranges(emits@) =~= chunk_ranges(old(emits)@)
                    + scan_emits(bytes@, index as int, n as int, n as int));
            }
        }
        if index != 0 {
            slow_search_and_print(bytes, 0, index, &mut last_printed, emits);
            proof {
                lemma_scan_split(bytes@, 0, index as int, n as int, n as int);
                assert(chunk_ranges(emits@) =~= chunk_ranges(old(emits)@)
                    + scan_emits(bytes@, 0, n as int, n as int));
            }
        }
    } else {
        slow_search_and_print(bytes, 0, n, &mut last_printed, emits);
    }
    let ghost before = emits@;
    emits.push(Chunk { start: 0, end: last_printed });
    proof {
        lemma_chunk_ranges_push(before, (Chunk { start: 0, end: last_printed }));
        assert(chunk_ranges(emits@) =~= chunk_ranges(old(emits)@) + chunks_of(bytes@));
    }
}

/// The narrow-window scanner: the shape of the fast path for hardware whose
/// vector family compares 16 bytes at a time and lacks a direct mask
/// extraction, so four window masks are packed into one 64-bit mask. The
/// packing keeps the lane-to-bit order of the wide scanner: the lowest
/// address maps to the least-significant bit. Everything else mirrors
/// [`search256`] at half the alignment width.
pub fn search128(bytes: &[u8], align_offset: usize, emits: &mut Vec<Chunk>)
    requires
        bytes@.len() >= 1,
        align_offset < 16,
    ensures
        chunk_ranges(final(emits)@) == chunk_ranges(old(emits)@) + chunks_of(bytes@),
{
    let n: usize = bytes.len();
    let mut last_printed: usize = n;
    let mut index: usize = n - 1;
    if index >= 64 {
        let aligned_index: usize = index - (16 - align_offset);
        slow_search_and_print(bytes, aligned_index, n, &mut last_printed, emits);
        index = aligned_index;
        proof {
            lemma_scan_stop_bounds(bytes@, index as int, n as int, n as int);
        }
        while index >= 64
            invariant
                n == bytes@.len(),
                index <= n,
                index <= last_printed <= n,
                last_printed == scan_stop(bytes@, index as int, n as int, n as int),
                chunk_ranges(emits@) =~= chunk_ranges(old(emits)@)
                    + scan_emits(bytes@, index as int, n as int, n as int),
            decreases index,
        {
            let window_end: usize = index;
            index = index - 16;
            let q3: u16 = mask16(bytes, index);
            index = index - 16;
            let q2: u16 = mask16(bytes, index);
            index = index - 16;
            let q1: u16 = mask16(bytes, index);
            index = index - 16;
            let q0: u16 = mask16(bytes, index);
            let matches: u64 = ((q3 as u64) << 48) | ((q2 as u64) << 32) | ((q1 as u64) << 16)
                | (q0 as u64);
            let ghost lp_before = last_printed as int;
            proof {
                lemma_fuse16(q3, q2, q1, q0);
                assert forall|k: u64| k < 64 implies (#[trigger] bit_at(matches, k)
                    <==> bytes@[window_end - 64 + k] == SEARCH) by {
                    if k < 16 {
                        let kk: u16 = k as u16;
                        assert(bit_at(matches, kk as u64) <==> bit_at16(q0, kk));
                        assert(bit_at16(q0, kk) <==> bytes@[index + kk] == SEARCH);
                    } else if k < 32 {
                        let kk: u16 = (k - 16) as u16;
                        assert(bit_at(matches, (kk + 16) as u64) <==> bit_at16(q1, kk));
                        assert(bit_at16(q1, kk) <==> bytes@[index + 16 + kk] == SEARCH);
                    } else if k < 48 {
                        let kk: u16 = (k - 32) as u16;
                        assert(bit_at(matches, (kk + 32) as u64) <==> bit_at16(q2, kk));
                        assert(bit_at16(q2, kk) <==> bytes@[index + 32 + kk] == SEARCH);
                    } else {
                        let kk: u16 = (k - 48) as u16;
                        assert(bit_at(matches, (kk + 48) as u64) <==> bit_at16(q3, kk));
                        assert(bit_at16(q3, kk) <==> bytes@[index + 48 + kk] == SEARCH);
                    }
                }
            }
            decode_window(bytes, window_end, matches, &mut last_printed, emits);
            proof {
                lemma_scan_split(bytes@, index as int, window_end as int, n as int, n as int);
                lemma_scan_stop_bounds(bytes@, index as int, window_end as int, lp_before);
                assert(chunk_ranges(emits@) =~= chunk_ranges(old(emits)@)
                    + scan_emits(bytes@, index as int, n as int, n as int));
            }
        }
        if index != 0 {
            slow_search_and_print(bytes, 0, index, &mut last_printed, emits);
            proof {
                lemma_scan_split(bytes@, 0, index as int, n as int, n as int);
                assert(chunk_ranges(emits@) =~= chunk_ranges(old(emits)@)
                    + scan_emits(bytes@, 0, n as int, n as int));
            }
        }
    } else {
        slow_search_and_print(bytes, 0, n, &mut last_printed, emits);
    }
    let ghost before = emits@;
    emits.push(Chunk { start: 0, end: last_printed });
    proof {
        lemma_chunk_ranges_push(before, (Chunk { start: 0, end: last_printed }));
        assert(chunk_ranges(emits@) =~= chunk_ranges(old(emits)@) + chunks_of(bytes@));
    }
}

} // verus!

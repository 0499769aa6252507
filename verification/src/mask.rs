//! Match masks for the window scanners.
//!
//! A window scanner compares every byte of a fixed-size window against the
//! delimiter at once and reduces the comparison to a bitmask with one bit
//! per byte, in the reverse of memory order: the byte at the *lowest*
//! address of the window maps to the *least*-significant bit. Matches are
//! then decoded from the most-significant end, which walks the window in
//! decreasing address order.
//!
//! [`mask32`] and [`mask16`] build the per-window masks; the lemmas pin down
//! how fusing masks, finding the highest set bit, and clearing a bit
//! together with everything below it behave.

use vstd::prelude::*;

verus! {

use crate::SEARCH;

/// Bit `j` of a fused 64-bit match mask.
pub open spec fn bit_at(m: u64, j: u64) -> bool {
    (m >> j) & 1u64 == 1u64
}

/// Bit `j` of a 32-byte window's mask.
pub open spec fn bit_at32(m: u32, j: u32) -> bool {
    (m >> j) & 1u32 == 1u32
}

/// Bit `j` of a 16-byte window's mask.
pub open spec fn bit_at16(m: u16, j: u16) -> bool {
    (m >> j) & 1u16 == 1u16
}

/// The empty mask has no bit set.
proof fn lemma_zero32()
    by (bit_vector)
    ensures
        forall|j: u32| !(#[trigger] bit_at32(0u32, j)),
{
}

/// The empty mask has no bit set.
proof fn lemma_zero16()
    by (bit_vector)
    ensures
        forall|j: u16| !(#[trigger] bit_at16(0u16, j)),
{
}

/// The empty mask has no bit set.
pub proof fn lemma_zero64()
    by (bit_vector)
    ensures
        forall|j: u64| !(#[trigger] bit_at(0u64, j)),
{
}

/// Setting bit `i` leaves every other bit alone.
proof fn lemma_or32(m: u32, i: u32)
    by (bit_vector)
    requires
        i < 32,
    ensures
        forall|j: u32| j < 32 ==> (#[trigger] bit_at32(m | (1u32 << i), j)
            <==> (bit_at32(m, j) || j == i)),
{
}

/// Setting bit `i` leaves every other bit alone.
proof fn lemma_or16(m: u16, i: u16)
    by (bit_vector)
    requires
        i < 16,
    ensures
        forall|j: u16| j < 16 ==> (#[trigger] bit_at16(m | (1u16 << i), j)
            <==> (bit_at16(m, j) || j == i)),
{
}

/// Two 32-lane masks fused into one 64-bit mask keep the lane-to-bit order:
/// the low half holds the window at the lower addresses.
pub proof fn lemma_fuse32(hi: u32, lo: u32)
    by (bit_vector)
    ensures
        forall|j: u32| j < 32 ==> (#[trigger] bit_at(((hi as u64) << 32) | (lo as u64), j as u64)
            <==> bit_at32(lo, j)),
        forall|j: u32| j < 32 ==> (#[trigger] bit_at(((hi as u64) << 32) | (lo as u64), (j + 32) as u64)
            <==> bit_at32(hi, j)),
{
}

/// Four 16-lane masks packed into one 64-bit mask keep the lane-to-bit
/// order: quarter `q0` holds the window at the lowest addresses.
pub proof fn lemma_fuse16(q3: u16, q2: u16, q1: u16, q0: u16)
    by (bit_vector)
    ensures
        forall|j: u16| j < 16 ==> (#[trigger] bit_at(
            ((q3 as u64) << 48) | ((q2 as u64) << 32) | ((q1 as u64) << 16) | (q0 as u64),
            j as u64,
        ) <==> bit_at16(q0, j)),
        forall|j: u16| j < 16 ==> (#[trigger] bit_at(
            ((q3 as u64) << 48) | ((q2 as u64) << 32) | ((q1 as u64) << 16) | (q0 as u64),
            (j + 16) as u64,
        ) <==> bit_at16(q1, j)),
        forall|j: u16| j < 16 ==> (#[trigger] bit_at(
            ((q3 as u64) << 48) | ((q2 as u64) << 32) | ((q1 as u64) << 16) | (q0 as u64),
            (j + 32) as u64,
        ) <==> bit_at16(q2, j)),
        forall|j: u16| j < 16 ==> (#[trigger] bit_at(
            ((q3 as u64) << 48) | ((q2 as u64) << 32) | ((q1 as u64) << 16) | (q0 as u64),
            (j + 48) as u64,
        ) <==> bit_at16(q3, j)),
{
}

/// `m.leading_zeros()` locates the highest set bit of a non-empty mask: bit
/// `63 - lead` is set and every bit above it is clear.
pub proof fn lemma_leading_zeros(m: u64, lead: u32)
    requires
        m != 0,
        lead as int == vstd::std_specs::bits::u64_leading_zeros(m),
    ensures
        lead < 64,
        bit_at(m, (63 - lead) as u64),
        forall|k: u64| k < 64 && k > 63 - lead ==> !(#[trigger] bit_at(m, k)),
{
    vstd::std_specs::bits::axiom_u64_leading_zeros(m);
    let j: u64 = (63 - lead) as u64;
    assert((m >> j) & 1u64 != 0u64 ==> (m >> j) & 1u64 == 1u64) by (bit_vector);
    assert forall|k: u64| k < 64 && k > 63 - lead implies !(#[trigger] bit_at(m, k)) by {
        assert((m >> k) & 1u64 == 0u64);
        assert((m >> k) & 1u64 == 0u64 ==> !bit_at(m, k)) by (bit_vector);
    }
}

/// "Keep only the bits below `j`": the operation a window decoder uses to
/// retire the match at bit `j` (and anything above it already consumed).
/// The result is strictly smaller when bit `j` was set, so decoding ends.
pub proof fn lemma_clear_from(m: u64, j: u64)
    by (bit_vector)
    requires
        j < 64,
        bit_at(m, j),
    ensures
        forall|k: u64| k < 64 ==> (#[trigger] bit_at(m & (((1u64 << j) - 1) as u64), k)
            <==> (bit_at(m, k) && k < j)),
        m & (((1u64 << j) - 1) as u64) < m,
{
}

/// The match mask of the 32-byte window `[lo, lo + 32)`: bit `j` is set
/// exactly when byte `lo + j` is the delimiter.
pub fn mask32(bytes: &[u8], lo: usize) -> (m: u32)
    requires
        lo + 32 <= bytes@.len(),
    ensures
        forall|j: u32| j < 32 ==> (#[trigger] bit_at32(m, j) <==> bytes@[lo + j] == SEARCH),
{
    let n: usize = bytes.len();
    let mut m: u32 = 0;
    let mut k: usize = 0;
    proof {
        lemma_zero32();
    }
    while k < 32
        invariant
            k <= 32,
            n == bytes@.len(),
            lo + 32 <= n,
            forall|j: u32| j < k ==> (#[trigger] bit_at32(m, j) <==> bytes@[lo + j] == SEARCH),
            forall|j: u32| k <= j < 32 ==> !(#[trigger] bit_at32(m, j)),
        decreases 32 - k,
    {
        if bytes[lo + k] == SEARCH {
            proof {
                lemma_or32(m, k as u32);
            }
            m = m | (1u32 << (k as u32));
        }
        k = k + 1;
    }
    m
}

/// The match mask of the 16-byte window `[lo, lo + 16)`: bit `j` is set
/// exactly when byte `lo + j` is the delimiter.
pub fn mask16(bytes: &[u8], lo: usize) -> (m: u16)
    requires
        lo + 16 <= bytes@.len(),
    ensures
        forall|j: u16| j < 16 ==> (#[trigger] bit_at16(m, j) <==> bytes@[lo + j] == SEARCH),
{
    let n: usize = bytes.len();
    let mut m: u16 = 0;
    let mut k: usize = 0;
    proof {
        lemma_zero16();
    }
    while k < 16
        invariant
            k <= 16,
            n == bytes@.len(),
            lo + 16 <= n,
            forall|j: u16| j < k ==> (#[trigger] bit_at16(m, j) <==> bytes@[lo + j] == SEARCH),
            forall|j: u16| k <= j < 16 ==> !(#[trigger] bit_at16(m, j)),
        decreases 16 - k,
    {
        if bytes[lo + k] == SEARCH {
            proof {
                lemma_or16(m, k as u16);
            }
            m = m | (1u16 << (k as u16));
        }
        k = k + 1;
    }
    m
}

} // verus!

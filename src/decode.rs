//! Comparison of a computed syndrome with a stored one, and location of a
//! single flipped data bit.

use vstd::prelude::*;
use crate::bits::{count_ones, pop};

verus! {

/// Bits `1, 3, ..., 2k - 1` of `x`, packed as bits `0 .. k` of the result.
pub open spec fn odd_bits(x: u64, k: nat) -> u64
    decreases k,
{
    if k == 0 {
        0
    } else {
        odd_bits(x, (k - 1) as nat) | ((x >> ((2 * k - 1) as u64)) & 1) << ((k - 1) as u64)
    }
}

/// The bit location encoded by a syndrome difference: twelve bits, taken from
/// the odd-indexed bits of `x`.
pub open spec fn location_of(x: u64) -> u64 {
    odd_bits(x, 12)
}

/// Whether the syndrome difference `x` names no correctable bit: no
/// difference at all, a single differing bit (damage confined to the stored
/// code), or exactly ten differing bits (a pattern this medium produces that
/// must not be corrected).
pub open spec fn not_actionable(x: u64) -> bool {
    x == 0 || pop(x) == 1 || pop(x) == 10
}

/// The (byte, bit) that the syndrome difference `x` points at, if any; the bit
/// is counted from the most significant bit of the byte.
pub open spec fn error_location(x: u64) -> Option<(usize, usize)> {
    if not_actionable(x) {
        None
    } else {
        Some(((location_of(x) / 8) as usize, (location_of(x) % 8) as usize))
    }
}

proof fn lemma_odd_bits_bound(x: u64, k: nat)
    requires
        k <= 12,
    ensures
        odd_bits(x, k) < pow2_u64(k),
    decreases k,
{
    if k == 0 {
        assert(1u64 << 0u64 == 1) by (bit_vector);
    } else {
        lemma_odd_bits_bound(x, (k - 1) as nat);
        let a = odd_bits(x, (k - 1) as nat);
        let km1 = (k - 1) as u64;
        let sh = (2 * k - 1) as u64;
        let b = (x >> sh) & 1;
        assert(a < (1u64 << km1) && km1 < 12 ==> (a | (b << km1)) < (1u64 << (km1 + 1))) by (
        bit_vector)
            requires
                b == (x >> sh) & 1,
        ;
        assert(odd_bits(x, k) == a | (b << km1));
        assert(km1 + 1 == k as u64);
    }
}

spec fn pow2_u64(k: nat) -> u64 {
    1u64 << (k as u64)
}

/// Compares a syndrome computed from page data with the one stored beside it
/// and returns where the single flipped data bit is, when there is one to
/// correct.
pub fn find_error(calculated_ecc: u64, oob_ecc: u64) -> (r: Option<(usize, usize)>)
    ensures
        r == error_location(calculated_ecc ^ oob_ecc),
        r matches Some((byte, bit)) ==> byte < 512 && bit < 8,
{
    let xor_ecc = calculated_ecc ^ oob_ecc;
    let ones = count_ones(xor_ecc);
    if xor_ecc == 0 || ones == 1 || ones == 10 {
        return None;
    }
    let mut compressed: u64 = 0;
    let mut k: u64 = 0;
    while k < 12
        invariant
            k <= 12,
            compressed == odd_bits(xor_ecc, k as nat),
        decreases 12 - k,
    {
        compressed = compressed | ((xor_ecc >> (2 * k + 1)) & 1) << k;
        k = k + 1;
    }
    proof {
        lemma_odd_bits_bound(xor_ecc, 12);
        assert(1u64 << 12u64 == 4096) by (bit_vector);
    }
    Some(((compressed / 8) as usize, (compressed % 8) as usize))
}

} // verus!

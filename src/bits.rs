//! Bit counting and big-endian word reading, with their specifications.

use vstd::prelude::*;

verus! {

/// Number of set bits among the lowest `n` bits of `x`.
pub open spec fn pop_upto(x: u64, n: nat) -> nat
    decreases n,
{
    if n == 0 {
        0
    } else {
        pop_upto(x, (n - 1) as nat) + ((x >> ((n - 1) as u64)) & 1) as nat
    }
}

/// Number of set bits of `x`.
pub open spec fn pop(x: u64) -> nat {
    pop_upto(x, 64)
}

/// Parity of `x`: 1 when it has an odd number of set bits, else 0.
pub open spec fn parity(x: u64) -> u64 {
    (pop(x) % 2) as u64
}

/// The big-endian 64-bit word formed by bytes `8 * i .. 8 * i + 8` of `d`.
pub open spec fn word_be(d: Seq<u8>, i: int) -> u64 {
    (d[8 * i] as u64) << 56u64 | (d[8 * i + 1] as u64) << 48u64 | (d[8 * i + 2] as u64) << 40u64
        | (d[8 * i + 3] as u64) << 32u64 | (d[8 * i + 4] as u64) << 24u64 | (d[8 * i + 5] as u64)
        << 16u64 | (d[8 * i + 6] as u64) << 8u64 | (d[8 * i + 7] as u64)
}

/// Counts the set bits of `x`.
pub fn count_ones(x: u64) -> (r: u32)
    ensures
        r as nat == pop(x),
{
    let mut c: u32 = 0;
    let mut i: u64 = 0;
    while i < 64
        invariant
            i <= 64,
            c as nat == pop_upto(x, i as nat),
            c <= i,
        decreases 64 - i,
    {
        let b = (x >> i) & 1;
        assert(b <= 1) by (bit_vector)
            requires
                b == (x >> i) & 1,
        ;
        c = c + b as u32;
        i = i + 1;
    }
    c
}

/// Parity of the set bits of `x`.
pub fn parity_of(x: u64) -> (r: u64)
    ensures
        r == parity(x),
        r <= 1,
{
    (count_ones(x) % 2) as u64
}

/// Reads the big-endian word at word index `i` of `d`.
pub fn read_word_be(d: &[u8], i: usize) -> (r: u64)
    requires
        8 * i + 8 <= d@.len(),
    ensures
        r == word_be(d@, i as int),
{
    assert(d@.len() <= usize::MAX) by {
        assert(d@.len() == d.len());
    }
    let k: usize = 8 * i;
    (d[k] as u64) << 56u64 | (d[k + 1] as u64) << 48u64 | (d[k + 2] as u64) << 40u64 | (d[k + 3]
        as u64) << 32u64 | (d[k + 4] as u64) << 24u64 | (d[k + 5] as u64) << 16u64 | (d[k + 6]
        as u64) << 8u64 | (d[k + 7] as u64)
}

} // verus!

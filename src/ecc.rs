//! The page syndrome: a column parity over the page's 64-bit words and a line
//! parity over the word indices, packed into one value.

use vstd::prelude::*;
use crate::bits::{parity, pop, word_be};

verus! {

/// Largest `k` with `2^k <= n` (0 for `n <= 1`).
pub open spec fn log2(n: nat) -> nat
    decreases n,
{
    if n <= 1 {
        0
    } else {
        1 + log2(n / 2)
    }
}

/// `2^k`.
pub open spec fn pow2(k: nat) -> nat
    decreases k,
{
    if k == 0 {
        1
    } else {
        2 * pow2((k - 1) as nat)
    }
}

/// Number of line-parity slots.
pub const SLOTS: usize = 51;

/// Number of whole 64-bit words in a page.
pub open spec fn word_count(d: Seq<u8>) -> nat {
    d.len() / 8
}

/// Number of word-index bits that the line parity covers: `floor(log2)` of
/// the page's word count.
pub open spec fn max_pow(d: Seq<u8>) -> nat {
    log2(word_count(d))
}

/// XOR of the first `n` words of the page.
pub open spec fn column_xor(d: Seq<u8>, n: nat) -> u64
    decreases n,
{
    if n == 0 {
        0
    } else {
        column_xor(d, (n - 1) as nat) ^ word_be(d, n - 1)
    }
}

/// Whether word `j` is folded into slot `s`: slot `2 * p` takes the words
/// whose index has bit `p` clear, slot `2 * p + 1` those with bit `p` set,
/// for `p < max_pow(d)`.
pub open spec fn in_slot(d: Seq<u8>, s: nat, j: nat) -> bool {
    s / 2 < max_pow(d) && ((j as u64) >> ((s / 2) as u64)) & 1 == (s % 2) as u64
}

/// XOR of the first `n` words that belong to slot `s`.
pub open spec fn slot_xor(d: Seq<u8>, s: nat, n: nat) -> u64
    decreases n,
{
    if n == 0 {
        0
    } else {
        slot_xor(d, s, (n - 1) as nat) ^ (if in_slot(d, s, (n - 1) as nat) {
            word_be(d, n - 1)
        } else {
            0
        })
    }
}

/// The thirteen low syndrome bits, taken from the column parity `acc`: the
/// overall parity, then for each of the six bit-group splits of a word the
/// parity of the masked half and of its complement.
pub open spec fn column_bits(acc: u64) -> u64 {
    parity(acc) | parity(acc & 0xaaaa_aaaa_aaaa_aaaa) << 1u64 | parity(acc & 0x5555_5555_5555_5555)
        << 2u64 | parity(acc & 0xcccc_cccc_cccc_cccc) << 3u64 | parity(acc & 0x3333_3333_3333_3333)
        << 4u64 | parity(acc & 0xf0f0_f0f0_f0f0_f0f0) << 5u64 | parity(acc & 0x0f0f_0f0f_0f0f_0f0f)
        << 6u64 | parity(acc & 0xff00_ff00_ff00_ff00) << 7u64 | parity(acc & 0x00ff_00ff_00ff_00ff)
        << 8u64 | parity(acc & 0xffff_0000_ffff_0000) << 9u64 | parity(acc & 0x0000_ffff_0000_ffff)
        << 10u64 | parity(acc & 0xffff_ffff_0000_0000) << 11u64 | parity(
        acc & 0x0000_0000_ffff_ffff,
    ) << 12u64
}

/// The syndrome bit of slot `s`, in place: bit `13 + s`, set when the slot has odd parity.
pub open spec fn slot_bit(d: Seq<u8>, s: nat) -> u64 {
    if pop(slot_xor(d, s, word_count(d))) % 2 == 1 {
        1u64 << ((13 + s) as u64)
    } else {
        0
    }
}

/// The syndrome bits of the first `k` slots.
pub open spec fn slot_bits(d: Seq<u8>, k: nat) -> u64
    decreases k,
{
    if k == 0 {
        0
    } else {
        slot_bits(d, (k - 1) as nat) | slot_bit(d, (k - 1) as nat)
    }
}

/// The syndrome of a page whose data bytes are `d`.
pub open spec fn page_ecc(d: Seq<u8>) -> u64 {
    column_bits(column_xor(d, word_count(d))) | slot_bits(d, SLOTS as nat)
}

/// `2^k` is positive.
pub proof fn lemma_pow2_positive(k: nat)
    ensures
        pow2(k) >= 1,
    decreases k,
{
    if k > 0 {
        lemma_pow2_positive((k - 1) as nat);
    }
}

/// `log2(n) < k` whenever `n < 2^k` and `k >= 1`.
pub proof fn lemma_log2_below(n: nat, k: nat)
    requires
        1 <= k,
        n < pow2(k),
    ensures
        log2(n) < k,
    decreases k,
{
    if n > 1 {
        if k == 1 {
            assert(pow2(1) == 2) by {
                assert(pow2(0) == 1);
            }
        } else {
            lemma_log2_below(n / 2, (k - 1) as nat);
        }
    }
}

/// Computes `log2(n)`.
pub fn floor_log2(n: usize) -> (r: usize)
    ensures
        r as nat == log2(n as nat),
{
    let mut m: usize = n;
    let mut p: usize = 0;
    while m > 1
        invariant
            p + log2(m as nat) == log2(n as nat),
            p + m <= n || n <= 1,
            p <= n,
        decreases m,
    {
        m = m / 2;
        p = p + 1;
    }
    p
}

} // verus!

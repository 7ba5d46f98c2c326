//! Proof that the syndrome locates a single flipped data bit.

use vstd::prelude::*;
use crate::bits::{parity, pop, pop_upto, word_be};
use crate::decode::{error_location, location_of, not_actionable, odd_bits};
use crate::ecc::{
    column_bits, column_xor, in_slot, log2, max_pow, pow2, slot_bit, slot_bits, slot_xor,
    word_count, SLOTS,
};
use crate::extract::{calculated_ecc, flip_bit};

verus! {

/// The big-endian word of eight bytes.
spec fn word8(b0: u8, b1: u8, b2: u8, b3: u8, b4: u8, b5: u8, b6: u8, b7: u8) -> u64 {
    (b0 as u64) << 56u64 | (b1 as u64) << 48u64 | (b2 as u64) << 40u64 | (b3 as u64) << 32u64
        | (b4 as u64) << 24u64 | (b5 as u64) << 16u64 | (b6 as u64) << 8u64 | (b7 as u64)
}

proof fn lemma_word8_flip(
    b0: u8, b1: u8, b2: u8, b3: u8, b4: u8, b5: u8, b6: u8, b7: u8,
    c0: u8, c1: u8, c2: u8, c3: u8, c4: u8, c5: u8, c6: u8, c7: u8,
    k: u64, bit: u64,
)
    by (bit_vector)
    requires
        k < 8,
        bit < 8,
        c0 == (if k == 0 { b0 ^ (0x80u8 >> (bit as u8)) } else { b0 }),
        c1 == (if k == 1 { b1 ^ (0x80u8 >> (bit as u8)) } else { b1 }),
        c2 == (if k == 2 { b2 ^ (0x80u8 >> (bit as u8)) } else { b2 }),
        c3 == (if k == 3 { b3 ^ (0x80u8 >> (bit as u8)) } else { b3 }),
        c4 == (if k == 4 { b4 ^ (0x80u8 >> (bit as u8)) } else { b4 }),
        c5 == (if k == 5 { b5 ^ (0x80u8 >> (bit as u8)) } else { b5 }),
        c6 == (if k == 6 { b6 ^ (0x80u8 >> (bit as u8)) } else { b6 }),
        c7 == (if k == 7 { b7 ^ (0x80u8 >> (bit as u8)) } else { b7 }),
    ensures
        word8(c0, c1, c2, c3, c4, c5, c6, c7) == word8(b0, b1, b2, b3, b4, b5, b6, b7) ^ (1u64 << ((63 - (8 * k + bit)) as u64)),
{
}

/// The single word bit that flipping bit `bit` of byte `byte` changes.
spec fn delta_of(byte: usize, bit: usize) -> u64 {
    1u64 << (63 - (8 * (byte % 8) + bit)) as u64
}

proof fn lemma_words_flip(d: Seq<u8>, byte: usize, bit: usize, j: int)
    requires
        byte < d.len(),
        bit < 8,
        0 <= j < word_count(d),
    ensures
        word_be(flip_bit(d, byte, bit), j) == word_be(d, j) ^ (if j == byte / 8 {
            delta_of(byte, bit)
        } else {
            0
        }),
{
    let e = flip_bit(d, byte, bit);
    let x = word_be(d, j);
    if j == byte / 8 {
        let k = (byte % 8) as u64;
        let m = 0x80u8 >> (bit as u8);
        assert(byte == 8 * j + k);
        lemma_word8_flip(
            d[8 * j], d[8 * j + 1], d[8 * j + 2], d[8 * j + 3], d[8 * j + 4], d[8 * j + 5], d[8 * j + 6], d[8 * j + 7],
            e[8 * j], e[8 * j + 1], e[8 * j + 2], e[8 * j + 3], e[8 * j + 4], e[8 * j + 5], e[8 * j + 6], e[8 * j + 7],
            k, bit as u64,
        );
    } else {
        assert(x ^ 0 == x) by (bit_vector);
        assert(byte < 8 * j || byte >= 8 * j + 8);
        assert(word_be(e, j) == word_be(d, j)) by {
            assert(e[8 * j] == d[8 * j]);
            assert(e[8 * j + 1] == d[8 * j + 1]);
            assert(e[8 * j + 2] == d[8 * j + 2]);
            assert(e[8 * j + 3] == d[8 * j + 3]);
            assert(e[8 * j + 4] == d[8 * j + 4]);
            assert(e[8 * j + 5] == d[8 * j + 5]);
            assert(e[8 * j + 6] == d[8 * j + 6]);
            assert(e[8 * j + 7] == d[8 * j + 7]);
        }
    }
}

proof fn lemma_xor_regroup(a: u64, x: u64, f: u64, g: u64)
    by (bit_vector)
    ensures
        (a ^ f) ^ (x ^ g) == (a ^ x) ^ (f ^ g),
        f ^ 0 == f,
        0 ^ g == g,
        0u64 ^ 0u64 == 0,
{
}

proof fn lemma_column_flip(d: Seq<u8>, byte: usize, bit: usize, n: nat)
    requires
        byte < d.len(),
        bit < 8,
        n <= word_count(d),
    ensures
        column_xor(flip_bit(d, byte, bit), n) == column_xor(d, n) ^ (if byte / 8 < n {
            delta_of(byte, bit)
        } else {
            0
        }),
    decreases n,
{
    let e = flip_bit(d, byte, bit);
    let delta = delta_of(byte, bit);
    if n == 0 {
        lemma_xor_regroup(0, 0, 0, 0);
    } else {
        lemma_column_flip(d, byte, bit, (n - 1) as nat);
        lemma_words_flip(d, byte, bit, n - 1);
        let f: u64 = if byte / 8 < n - 1 { delta } else { 0 };
        let g: u64 = if n - 1 == byte / 8 { delta } else { 0 };
        lemma_xor_regroup(column_xor(d, (n - 1) as nat), word_be(d, n - 1), f, g);
        lemma_xor_regroup(0, 0, delta, delta);
    }
}

proof fn lemma_slot_flip(d: Seq<u8>, byte: usize, bit: usize, s: nat, n: nat)
    requires
        byte < d.len(),
        bit < 8,
        n <= word_count(d),
    ensures
        slot_xor(flip_bit(d, byte, bit), s, n) == slot_xor(d, s, n) ^ (if byte / 8 < n && in_slot(
            d,
            s,
            (byte / 8) as nat,
        ) {
            delta_of(byte, bit)
        } else {
            0
        }),
    decreases n,
{
    let e = flip_bit(d, byte, bit);
    let delta = delta_of(byte, bit);
    let w = (byte / 8) as nat;
    if n == 0 {
        lemma_xor_regroup(0, 0, 0, 0);
    } else {
        lemma_slot_flip(d, byte, bit, s, (n - 1) as nat);
        lemma_words_flip(d, byte, bit, n - 1);
        assert(max_pow(e) == max_pow(d));
        let j = (n - 1) as nat;
        let f: u64 = if w < j && in_slot(d, s, w) { delta } else { 0 };
        let g: u64 = if j == w && in_slot(d, s, w) { delta } else { 0 };
        let x: u64 = if in_slot(d, s, j) { word_be(d, j as int) } else { 0 };
        lemma_xor_regroup(slot_xor(d, s, j), x, f, g);
        lemma_xor_regroup(0, 0, delta, delta);
        lemma_xor_regroup(word_be(d, j as int), 0, delta, 0);
    }
}

proof fn lemma_bit_of_flip(y: u64, q: u64, i: u64)
    by (bit_vector)
    requires
        q < 64,
        i < 64,
    ensures
        i == q ==> (((y ^ (1u64 << q)) >> i) & 1 == 1 <==> (y >> i) & 1 == 0),
        i != q ==> ((y ^ (1u64 << q)) >> i) & 1 == (y >> i) & 1,
        (y >> i) & 1 <= 1,
        ((y ^ (1u64 << q)) >> i) & 1 <= 1,
{
}

proof fn lemma_pop_flip(y: u64, q: u64, n: nat)
    requires
        q < 64,
        n <= 64,
    ensures
        n <= q ==> pop_upto(y ^ (1u64 << q), n) == pop_upto(y, n),
        n > q && (y >> q) & 1 == 1 ==> pop_upto(y ^ (1u64 << q), n) + 1 == pop_upto(y, n),
        n > q && (y >> q) & 1 == 0 ==> pop_upto(y ^ (1u64 << q), n) == pop_upto(y, n) + 1,
    decreases n,
{
    if n > 0 {
        lemma_pop_flip(y, q, (n - 1) as nat);
        lemma_bit_of_flip(y, q, (n - 1) as u64);
        lemma_bit_of_flip(y, q, q);
    }
}

proof fn lemma_parity_flip(y: u64, q: u64)
    requires
        q < 64,
    ensures
        parity(y ^ (1u64 << q)) == 1 - parity(y),
        parity(y) <= 1,
{
    lemma_pop_flip(y, q, 64);
    lemma_bit_of_flip(y, q, q);
}

proof fn lemma_masked_parity_flip(acc: u64, q: u64, m: u64)
    requires
        q < 64,
    ensures
        parity((acc ^ (1u64 << q)) & m) == parity(acc & m) ^ (if (1u64 << q) & m != 0 {
            1u64
        } else {
            0u64
        }),
        parity(acc & m) <= 1,
{
    let z = (1u64 << q) & m;
    let y = acc & m;
    assert((acc ^ (1u64 << q)) & m == y ^ z && (z == 0 || z == 1u64 << q)) by (bit_vector)
        requires
            z == (1u64 << q) & m,
            y == acc & m,
            q < 64,
    ;
    let p = parity(y);
    assert(p ^ 0u64 == p && y ^ 0u64 == y && (p <= 1 ==> 1 - p == p ^ 1u64)) by (bit_vector);
    lemma_parity_flip(y, q);
}

/// Thirteen one-bit values packed as bits `0 .. 13`.
spec fn pack13(
    p0: u64, p1: u64, p2: u64, p3: u64, p4: u64, p5: u64, p6: u64,
    p7: u64, p8: u64, p9: u64, p10: u64, p11: u64, p12: u64,
) -> u64 {
    p0 | p1 << 1u64 | p2 << 2u64 | p3 << 3u64 | p4 << 4u64 | p5 << 5u64 | p6 << 6u64 | p7 << 7u64
        | p8 << 8u64 | p9 << 9u64 | p10 << 10u64 | p11 << 11u64 | p12 << 12u64
}

proof fn lemma_pack13_xor(
    p0: u64, p1: u64, p2: u64, p3: u64, p4: u64, p5: u64, p6: u64,
    p7: u64, p8: u64, p9: u64, p10: u64, p11: u64, p12: u64,
    f0: u64, f1: u64, f2: u64, f3: u64, f4: u64, f5: u64, f6: u64,
    f7: u64, f8: u64, f9: u64, f10: u64, f11: u64, f12: u64,
)
    by (bit_vector)
    requires
        p0 <= 1, p1 <= 1, p2 <= 1, p3 <= 1, p4 <= 1, p5 <= 1, p6 <= 1,
        p7 <= 1, p8 <= 1, p9 <= 1, p10 <= 1, p11 <= 1, p12 <= 1,
        f0 <= 1, f1 <= 1, f2 <= 1, f3 <= 1, f4 <= 1, f5 <= 1, f6 <= 1,
        f7 <= 1, f8 <= 1, f9 <= 1, f10 <= 1, f11 <= 1, f12 <= 1,
    ensures
        pack13(p0, p1, p2, p3, p4, p5, p6, p7, p8, p9, p10, p11, p12) ^ pack13(
            p0 ^ f0, p1 ^ f1, p2 ^ f2, p3 ^ f3, p4 ^ f4, p5 ^ f5, p6 ^ f6,
            p7 ^ f7, p8 ^ f8, p9 ^ f9, p10 ^ f10, p11 ^ f11, p12 ^ f12,
        ) == pack13(f0, f1, f2, f3, f4, f5, f6, f7, f8, f9, f10, f11, f12),
        pack13(p0, p1, p2, p3, p4, p5, p6, p7, p8, p9, p10, p11, p12) < 0x2000,
{
}

/// 1 when `x` is not zero.
spec fn ind(x: u64) -> u64 {
    if x != 0 {
        1
    } else {
        0
    }
}

/// Which of the thirteen column syndrome bits change when the column parity
/// changes by `delta`.
spec fn column_flips(delta: u64) -> u64 {
    pack13(
        1,
        ind(delta & 0xaaaa_aaaa_aaaa_aaaa),
        ind(delta & 0x5555_5555_5555_5555),
        ind(delta & 0xcccc_cccc_cccc_cccc),
        ind(delta & 0x3333_3333_3333_3333),
        ind(delta & 0xf0f0_f0f0_f0f0_f0f0),
        ind(delta & 0x0f0f_0f0f_0f0f_0f0f),
        ind(delta & 0xff00_ff00_ff00_ff00),
        ind(delta & 0x00ff_00ff_00ff_00ff),
        ind(delta & 0xffff_0000_ffff_0000),
        ind(delta & 0x0000_ffff_0000_ffff),
        ind(delta & 0xffff_ffff_0000_0000),
        ind(delta & 0x0000_0000_ffff_ffff),
    )
}

proof fn lemma_column_bits_flip(acc: u64, q: u64)
    requires
        q < 64,
    ensures
        column_bits(acc) ^ column_bits(acc ^ (1u64 << q)) == column_flips(1u64 << q),
        column_bits(acc) < 0x2000,
        column_bits(acc ^ (1u64 << q)) < 0x2000,
{
    let a = acc ^ (1u64 << q);
    lemma_parity_flip(acc, q);
    lemma_parity_flip(a, q);
    lemma_masked_parity_flip(acc, q, 0xaaaa_aaaa_aaaa_aaaa);
    lemma_masked_parity_flip(acc, q, 0x5555_5555_5555_5555);
    lemma_masked_parity_flip(acc, q, 0xcccc_cccc_cccc_cccc);
    lemma_masked_parity_flip(acc, q, 0x3333_3333_3333_3333);
    lemma_masked_parity_flip(acc, q, 0xf0f0_f0f0_f0f0_f0f0);
    lemma_masked_parity_flip(acc, q, 0x0f0f_0f0f_0f0f_0f0f);
    lemma_masked_parity_flip(acc, q, 0xff00_ff00_ff00_ff00);
    lemma_masked_parity_flip(acc, q, 0x00ff_00ff_00ff_00ff);
    lemma_masked_parity_flip(acc, q, 0xffff_0000_ffff_0000);
    lemma_masked_parity_flip(acc, q, 0x0000_ffff_0000_ffff);
    lemma_masked_parity_flip(acc, q, 0xffff_ffff_0000_0000);
    lemma_masked_parity_flip(acc, q, 0x0000_0000_ffff_ffff);
    lemma_masked_parity_flip(a, q, 0xaaaa_aaaa_aaaa_aaaa);
    lemma_masked_parity_flip(a, q, 0x5555_5555_5555_5555);
    lemma_masked_parity_flip(a, q, 0xcccc_cccc_cccc_cccc);
    lemma_masked_parity_flip(a, q, 0x3333_3333_3333_3333);
    lemma_masked_parity_flip(a, q, 0xf0f0_f0f0_f0f0_f0f0);
    lemma_masked_parity_flip(a, q, 0x0f0f_0f0f_0f0f_0f0f);
    lemma_masked_parity_flip(a, q, 0xff00_ff00_ff00_ff00);
    lemma_masked_parity_flip(a, q, 0x00ff_00ff_00ff_00ff);
    lemma_masked_parity_flip(a, q, 0xffff_0000_ffff_0000);
    lemma_masked_parity_flip(a, q, 0x0000_ffff_0000_ffff);
    lemma_masked_parity_flip(a, q, 0xffff_ffff_0000_0000);
    lemma_masked_parity_flip(a, q, 0x0000_0000_ffff_ffff);
    let p0 = parity(acc);
    assert(parity(a) == p0 ^ 1u64) by {
        assert(p0 <= 1 ==> 1 - p0 == p0 ^ 1u64) by (bit_vector);
    }
    lemma_pack13_xor(
        parity(acc),
        parity(acc & 0xaaaa_aaaa_aaaa_aaaa),
        parity(acc & 0x5555_5555_5555_5555),
        parity(acc & 0xcccc_cccc_cccc_cccc),
        parity(acc & 0x3333_3333_3333_3333),
        parity(acc & 0xf0f0_f0f0_f0f0_f0f0),
        parity(acc & 0x0f0f_0f0f_0f0f_0f0f),
        parity(acc & 0xff00_ff00_ff00_ff00),
        parity(acc & 0x00ff_00ff_00ff_00ff),
        parity(acc & 0xffff_0000_ffff_0000),
        parity(acc & 0x0000_ffff_0000_ffff),
        parity(acc & 0xffff_ffff_0000_0000),
        parity(acc & 0x0000_0000_ffff_ffff),
        1,
        ind((1u64 << q) & 0xaaaa_aaaa_aaaa_aaaa),
        ind((1u64 << q) & 0x5555_5555_5555_5555),
        ind((1u64 << q) & 0xcccc_cccc_cccc_cccc),
        ind((1u64 << q) & 0x3333_3333_3333_3333),
        ind((1u64 << q) & 0xf0f0_f0f0_f0f0_f0f0),
        ind((1u64 << q) & 0x0f0f_0f0f_0f0f_0f0f),
        ind((1u64 << q) & 0xff00_ff00_ff00_ff00),
        ind((1u64 << q) & 0x00ff_00ff_00ff_00ff),
        ind((1u64 << q) & 0xffff_0000_ffff_0000),
        ind((1u64 << q) & 0x0000_ffff_0000_ffff),
        ind((1u64 << q) & 0xffff_ffff_0000_0000),
        ind((1u64 << q) & 0x0000_0000_ffff_ffff),
    );
    lemma_pack13_xor(
        parity(a),
        parity(a & 0xaaaa_aaaa_aaaa_aaaa),
        parity(a & 0x5555_5555_5555_5555),
        parity(a & 0xcccc_cccc_cccc_cccc),
        parity(a & 0x3333_3333_3333_3333),
        parity(a & 0xf0f0_f0f0_f0f0_f0f0),
        parity(a & 0x0f0f_0f0f_0f0f_0f0f),
        parity(a & 0xff00_ff00_ff00_ff00),
        parity(a & 0x00ff_00ff_00ff_00ff),
        parity(a & 0xffff_0000_ffff_0000),
        parity(a & 0x0000_ffff_0000_ffff),
        parity(a & 0xffff_ffff_0000_0000),
        parity(a & 0x0000_0000_ffff_ffff),
        0, 0, 0, 0, 0, 0, 0, 0, 0, 0, 0, 0, 0,
    );
}

/// The slot syndrome bit `13 + s` when word `w` lies in slot `s`, for the
/// first twelve slots.
spec fn slot_term(w: u64, mp: u64, s: u64) -> u64 {
    if s / 2 < mp && (w >> (s / 2)) & 1 == s % 2 {
        1u64 << ((13 + s) as u64)
    } else {
        0
    }
}

/// The syndrome bits of the first twelve slots that change when word `w` changes.
spec fn slot_flips12(w: u64, mp: u64) -> u64 {
    0u64 | slot_term(w, mp, 0) | slot_term(w, mp, 1) | slot_term(w, mp, 2) | slot_term(w, mp, 3)
        | slot_term(w, mp, 4) | slot_term(w, mp, 5) | slot_term(w, mp, 6) | slot_term(w, mp, 7)
        | slot_term(w, mp, 8) | slot_term(w, mp, 9) | slot_term(w, mp, 10) | slot_term(w, mp, 11)
}

/// The compared syndrome difference when bit `63 - t` of word `w` flips.
spec fn flip_syndrome(t: u64, w: u64, mp: u64) -> u64 {
    ((column_flips(1u64 << ((63 - t) as u64)) ^ slot_flips12(w, mp)) >> 1u64) & 0xff_ffff
}

proof fn lemma_flip_syndrome_bits(t: u64, w: u64, mp: u64, j: u64, v: u64)
    by (bit_vector)
    requires
        v == t + 64 * w,
        t < 64,
        w < 64,
        mp <= 25,
        w >> mp == 0,
        j < 32,
    ensures
        ((flip_syndrome(t, w, mp) >> ((2 * j) as u64)) & 1) + ((flip_syndrome(t, w, mp) >> ((2 * j + 1) as u64)) & 1)
            == (if j < 6 {
            1u64
        } else if j < 12 && j - 6 < mp {
            1u64
        } else {
            0u64
        }),
        j < 12 ==> (flip_syndrome(t, w, mp) >> ((2 * j + 1) as u64)) & 1 == (v >> j) & 1,
{
}

/// The slot syndrome bits, among the first `k` slots, that change when word `w` changes.
spec fn slot_flips(d: Seq<u8>, w: nat, k: nat) -> u64
    decreases k,
{
    if k == 0 {
        0
    } else {
        slot_flips(d, w, (k - 1) as nat) | (if in_slot(d, (k - 1) as nat, w) {
            1u64 << ((13 + k - 1) as u64)
        } else {
            0
        })
    }
}

proof fn lemma_or_step(aa: u64, bb: u64, ff: u64, a: u64, b: u64, g: u64, sh: u64)
    by (bit_vector)
    requires
        aa ^ bb == ff,
        aa & 0x1fff == 0,
        bb & 0x1fff == 0,
        13 <= sh < 64,
        aa < (1u64 << sh),
        bb < (1u64 << sh),
        a == 0 || a == (1u64 << sh),
        b == 0 || b == (1u64 << sh),
        g == (if a != b { 1u64 << sh } else { 0 }),
    ensures
        (aa | a) ^ (bb | b) == ff | g,
        (aa | a) & 0x1fff == 0,
        (bb | b) & 0x1fff == 0,
        sh + 1 < 64 ==> (aa | a) < (1u64 << ((sh + 1) as u64)),
        sh + 1 < 64 ==> (bb | b) < (1u64 << ((sh + 1) as u64)),
{
}

proof fn lemma_slot_bits_flip(d: Seq<u8>, byte: usize, bit: usize, k: nat)
    requires
        byte < d.len(),
        bit < 8,
        d.len() % 8 == 0,
        k <= SLOTS,
    ensures
        slot_bits(d, k) ^ slot_bits(flip_bit(d, byte, bit), k) == slot_flips(d, (byte / 8) as nat, k),
        slot_bits(d, k) & 0x1fff == 0,
        slot_bits(flip_bit(d, byte, bit), k) & 0x1fff == 0,
        k < SLOTS ==> slot_bits(d, k) < (1u64 << ((13 + k) as u64)),
        k < SLOTS ==> slot_bits(flip_bit(d, byte, bit), k) < (1u64 << ((13 + k) as u64)),
    decreases k,
{
    let e = flip_bit(d, byte, bit);
    let w = (byte / 8) as nat;
    if k == 0 {
        assert(0u64 ^ 0u64 == 0u64 && 0u64 & 0x1fff == 0 && 0u64 < (1u64 << 13u64)) by (bit_vector);
    } else {
        let s = (k - 1) as nat;
        lemma_slot_bits_flip(d, byte, bit, s);
        let nw = word_count(d);
        assert(word_count(e) == nw);
        lemma_slot_flip(d, byte, bit, s, nw);
        let q = (63 - (8 * (byte % 8) + bit)) as u64;
        let x = slot_xor(d, s, nw);
        let sh = (13 + s) as u64;
        let a = slot_bit(d, s);
        let b = slot_bit(e, s);
        if in_slot(d, s, w) {
            lemma_parity_flip(x, q);
        } else {
            assert(x ^ 0 == x) by (bit_vector);
        }
        let g: u64 = if in_slot(d, s, w) { 1u64 << sh } else { 0 };
        lemma_or_step(slot_bits(d, s), slot_bits(e, s), slot_flips(d, w, s), a, b, g, sh);
    }
}

proof fn lemma_slot_flips_high(d: Seq<u8>, w: nat, k: nat)
    requires
        12 <= k <= SLOTS,
    ensures
        slot_flips(d, w, k) & 0x1ff_ffff == slot_flips(d, w, 12) & 0x1ff_ffff,
    decreases k,
{
    if k > 12 {
        lemma_slot_flips_high(d, w, (k - 1) as nat);
        let f = slot_flips(d, w, (k - 1) as nat);
        let sh = (13 + k - 1) as u64;
        assert(25 <= sh < 64 ==> (f | (1u64 << sh)) & 0x1ff_ffff == f & 0x1ff_ffff && (f | 0) == f) by (bit_vector);
    }
}

proof fn lemma_slot_flips12(d: Seq<u8>, w: nat)
    requires
        w < 64,
        max_pow(d) < 64,
    ensures
        slot_flips(d, w, 12) == slot_flips12(w as u64, max_pow(d) as u64),
{
    reveal_with_fuel(slot_flips, 13);
}

proof fn lemma_join(c: u64, c2: u64, ss: u64, ss2: u64, cf: u64, sf: u64, sf12: u64)
    by (bit_vector)
    requires
        c < 0x2000,
        c2 < 0x2000,
        ss & 0x1fff == 0,
        ss2 & 0x1fff == 0,
        c ^ c2 == cf,
        ss ^ ss2 == sf,
        sf & 0x1ff_ffff == sf12 & 0x1ff_ffff,
    ensures
        (((c | ss) >> 1u64) & 0xff_ffff) ^ (((c2 | ss2) >> 1u64) & 0xff_ffff) == ((cf ^ sf12) >> 1u64)
            & 0xff_ffff,
{
}

proof fn lemma_syndrome_flip(d: Seq<u8>, byte: usize, bit: usize)
    requires
        d.len() % 8 == 0,
        byte < d.len(),
        byte < 512,
        bit < 8,
        max_pow(d) < 64,
    ensures
        calculated_ecc(d) ^ calculated_ecc(flip_bit(d, byte, bit)) == flip_syndrome(
            (8 * (byte % 8) + bit) as u64,
            (byte / 8) as u64,
            max_pow(d) as u64,
        ),
{
    let e = flip_bit(d, byte, bit);
    let nw = word_count(d);
    let w = (byte / 8) as nat;
    let t = (8 * (byte % 8) + bit) as u64;
    let q = (63 - t) as u64;
    assert(word_count(e) == nw);
    lemma_column_flip(d, byte, bit, nw);
    let acc = column_xor(d, nw);
    assert(column_xor(e, nw) == acc ^ (1u64 << q));
    lemma_column_bits_flip(acc, q);
    lemma_slot_bits_flip(d, byte, bit, SLOTS as nat);
    lemma_slot_flips_high(d, w, SLOTS as nat);
    lemma_slot_flips12(d, w);
    lemma_join(
        column_bits(acc),
        column_bits(acc ^ (1u64 << q)),
        slot_bits(d, SLOTS as nat),
        slot_bits(e, SLOTS as nat),
        column_flips(1u64 << q),
        slot_flips(d, w, SLOTS as nat),
        slot_flips12(w as u64, max_pow(d) as u64),
    );
}

proof fn lemma_mask_step(v: u64, ob: u64, bk: u64, k: u64)
    by (bit_vector)
    requires
        k < 12,
        v < 4096,
        ob == v & !(0xffff_ffff_ffff_ffffu64 << k),
        bk == (v >> k) & 1,
    ensures
        ob | (bk << k) == v & !(0xffff_ffff_ffff_ffffu64 << ((k + 1) as u64)),
{
}

proof fn lemma_mask_ends(v: u64)
    by (bit_vector)
    ensures
        v < 4096 ==> v & !(0xffff_ffff_ffff_ffffu64 << 12u64) == v,
        v & !(0xffff_ffff_ffff_ffffu64 << 0u64) == 0,
{
}

proof fn lemma_flip_syndrome_location(t: u64, w: u64, mp: u64, k: nat)
    requires
        t < 64,
        w < 64,
        mp <= 25,
        w >> mp == 0,
        k <= 12,
    ensures
        odd_bits(flip_syndrome(t, w, mp), k) == ((t + 64 * w) as u64) & !(0xffff_ffff_ffff_ffffu64 << (k as u64)),
    decreases k,
{
    let x = flip_syndrome(t, w, mp);
    let v = (t + 64 * w) as u64;
    if k == 0 {
        lemma_mask_ends(v);
    } else {
        lemma_flip_syndrome_location(t, w, mp, (k - 1) as nat);
        lemma_flip_syndrome_bits(t, w, mp, (k - 1) as u64, v);
        lemma_mask_step(v, odd_bits(x, (k - 1) as nat), (v >> ((k - 1) as u64)) & 1, (k - 1) as u64);
    }
}

/// Flipping one data bit of a page changes the compared syndrome so that the
/// decoder reports exactly that bit, unless the difference has one or ten
/// bits set (patterns that are never corrected). The page is a whole number
/// of words; the byte lies within the first 512 and its word index within
/// the `2^max_pow` words that the location slots can name (the reach of the
/// twelve location bits).
pub proof fn lemma_single_bit_located(d: Seq<u8>, byte: usize, bit: usize)
    requires
        d.len() < crate::block::MAX_PAGE_SIZE,
        d.len() % 8 == 0,
        byte < d.len(),
        byte < 512,
        bit < 8,
        byte / 8 < pow2(max_pow(d)),
        pop(calculated_ecc(d) ^ calculated_ecc(flip_bit(d, byte, bit))) != 1,
        pop(calculated_ecc(d) ^ calculated_ecc(flip_bit(d, byte, bit))) != 10,
    ensures
        error_location(calculated_ecc(d) ^ calculated_ecc(flip_bit(d, byte, bit))) == Some((byte, bit)),
{
    let mp = max_pow(d);
    assert(pow2(26) == 0x400_0000) by {
        reveal_with_fuel(pow2, 27);
    }
    crate::ecc::lemma_log2_below(word_count(d), 26);
    let t = (8 * (byte % 8) + bit) as u64;
    let w = (byte / 8) as u64;
    let m = mp as u64;
    reveal_with_fuel(pow2, 7);
    if mp == 0 {
        assert(w < 1 ==> w >> 0u64 == 0) by (bit_vector);
    } else if mp == 1 {
        assert(w < 2 ==> w >> 1u64 == 0) by (bit_vector);
    } else if mp == 2 {
        assert(w < 4 ==> w >> 2u64 == 0) by (bit_vector);
    } else if mp == 3 {
        assert(w < 8 ==> w >> 3u64 == 0) by (bit_vector);
    } else if mp == 4 {
        assert(w < 16 ==> w >> 4u64 == 0) by (bit_vector);
    } else if mp == 5 {
        assert(w < 32 ==> w >> 5u64 == 0) by (bit_vector);
    } else {
        assert(w < 64 && m >= 6 ==> w >> m == 0) by (bit_vector);
    }
    lemma_syndrome_flip(d, byte, bit);
    let x = flip_syndrome(t, w, m);
    lemma_flip_syndrome_bits(t, w, m, 0, (t + 64 * w) as u64);
    assert(x != 0) by {
        if x == 0 {
            assert(x >> 0u64 == 0 && x >> 1u64 == 0) by (bit_vector)
                requires x == 0;
        }
    }
    assert(!not_actionable(x));
    lemma_flip_syndrome_location(t, w, m, 12);
    let v = (t + 64 * w) as u64;
    lemma_mask_ends(v);
    assert(location_of(x) == v);
    assert(v == 8 * byte + bit);
}

proof fn lemma_log2_pow2(k: nat)
    ensures
        log2(pow2(k)) == k,
    decreases k,
{
    if k > 0 {
        lemma_log2_pow2((k - 1) as nat);
        crate::ecc::lemma_pow2_positive((k - 1) as nat);
        assert(pow2(k) / 2 == pow2((k - 1) as nat));
    }
}

/// On a page of `2^k` words, at most 512 bytes, flipping one data bit makes
/// the decoder report exactly that bit, unless the difference has one or ten
/// bits set.
pub proof fn lemma_single_bit_located_power_of_two(d: Seq<u8>, k: nat, byte: usize, bit: usize)
    requires
        d.len() == 8 * pow2(k),
        d.len() <= 512,
        byte < d.len(),
        bit < 8,
        pop(calculated_ecc(d) ^ calculated_ecc(flip_bit(d, byte, bit))) != 1,
        pop(calculated_ecc(d) ^ calculated_ecc(flip_bit(d, byte, bit))) != 10,
    ensures
        error_location(calculated_ecc(d) ^ calculated_ecc(flip_bit(d, byte, bit))) == Some((byte, bit)),
{
    lemma_log2_pow2(k);
    assert(word_count(d) == pow2(k));
    lemma_single_bit_located(d, byte, bit);
}

} // verus!

use flash_extract::block::Page;
use flash_extract::decode::find_error;

fn ecc_of(data: &[u8]) -> u64 {
    Page { data }.calc_ecc()
}

fn pattern(len: usize, seed: u8) -> Vec<u8> {
    (0..len).map(|i| (i as u8).wrapping_mul(37).wrapping_add(seed)).collect()
}

#[test]
fn zero_page_has_zero_syndrome() {
    let data = vec![0u8; 512];
    assert_eq!(ecc_of(&data), 0);
}

#[test]
fn top_bit_of_first_byte() {
    let mut data = vec![0u8; 512];
    data[0] = 0x80;
    assert_eq!(ecc_of(&data), 0x00AA_AAAB);
}

#[test]
fn calc_ecc_is_deterministic() {
    let data = pattern(512, 3);
    assert_eq!(ecc_of(&data), ecc_of(&data));
}

#[test]
fn equal_syndromes_give_no_error() {
    let data = pattern(512, 11);
    let s = (ecc_of(&data) >> 1) & 0xff_ffff;
    assert_eq!(find_error(s, s), None);
}

#[test]
fn single_differing_bit_is_ignored() {
    assert_eq!(find_error(0x10, 0), None);
    assert_eq!(find_error(0, 1 << 23), None);
}

#[test]
fn ten_differing_bits_are_ignored() {
    assert_eq!(find_error(0x3ff, 0), None);
}

#[test]
fn location_from_odd_bits() {
    // Odd bits 1 and 3 set: location 0b11 = 3, byte 0, bit 3.
    assert_eq!(find_error(0b1010, 0), Some((0, 3)));
    // All twelve odd bits set: location 4095.
    assert_eq!(find_error(0xAA_AAAA, 0), Some((511, 7)));
}

#[test]
fn single_bit_round_trip() {
    let data = pattern(512, 5);
    let calculated = (ecc_of(&data) >> 1) & 0xff_ffff;
    for &(byte, bit) in &[(0usize, 0usize), (7, 7), (100, 3), (255, 1), (511, 6)] {
        let mut flipped = data.clone();
        flipped[byte] ^= 0x80 >> bit;
        let stored = (ecc_of(&flipped) >> 1) & 0xff_ffff;
        assert_eq!(find_error(calculated, stored), Some((byte, bit)));
    }
}

#[test]
fn one_word_page_has_no_location_slots() {
    let mut data = vec![0u8; 8];
    data[7] = 1;
    assert_eq!(ecc_of(&data), 0x1555);
}

#[test]
fn sixteen_word_page_is_not_locatable() {
    // Sixteen words: four location slot pairs, so a flipped bit changes
    // ten compared syndrome bits, a pattern that is never corrected.
    let data = pattern(128, 9);
    let calculated = (ecc_of(&data) >> 1) & 0xff_ffff;
    let mut flipped = data.clone();
    flipped[10] ^= 0x04;
    let stored = (ecc_of(&flipped) >> 1) & 0xff_ffff;
    assert_eq!((calculated ^ stored).count_ones(), 10);
    assert_eq!(find_error(calculated, stored), None);
}

#[test]
fn small_power_of_two_pages_locate_the_bit() {
    for &len in &[8usize, 16, 32, 64, 256] {
        let data = pattern(len, 21);
        let calculated = (ecc_of(&data) >> 1) & 0xff_ffff;
        let byte = len - 3;
        let mut flipped = data.clone();
        flipped[byte] ^= 0x80 >> 5;
        let stored = (ecc_of(&flipped) >> 1) & 0xff_ffff;
        assert_eq!(find_error(calculated, stored), Some((byte, 5)));
    }
}

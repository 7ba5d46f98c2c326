use flash_extract::block::Page;
use flash_extract::extract::{do_appended, do_interlaced, ExtractError};
use flash_extract::block::LayoutError;

const PAGE: usize = 512;
const OOB: usize = 16;
const PAGES: usize = 32;

fn stored_syndrome(data: &[u8]) -> u32 {
    ((Page { data }.calc_ecc() >> 1) & 0xff_ffff) as u32
}

/// Fills a page with a repeating pattern; `tweak` varies the last two bytes.
fn page_bytes(index: usize, tweak: u16) -> Vec<u8> {
    let mut p: Vec<u8> = (0..PAGE).map(|i| ((i * 7 + index * 13) % 200) as u8).collect();
    p[PAGE - 2] = (tweak >> 8) as u8;
    p[PAGE - 1] = tweak as u8;
    p
}

/// One interlaced block whose OOB regions hold the true syndromes, with the
/// good-block marker of page 0 at OOB byte 6.
fn interlaced_dump() -> (Vec<u8>, Vec<Vec<u8>>) {
    let mut pages = Vec::new();
    for index in 0..PAGES {
        let mut tweak: u16 = 0;
        let mut p = page_bytes(index, tweak);
        if index == 0 {
            while stored_syndrome(&p) & 0xff != 0xff {
                tweak = tweak.wrapping_add(1);
                p = page_bytes(index, tweak);
            }
        }
        pages.push(p);
    }
    let mut dump = Vec::new();
    for p in &pages {
        dump.extend_from_slice(p);
        let mut oob = vec![0x11u8; OOB];
        oob[6..10].copy_from_slice(&stored_syndrome(p).to_le_bytes());
        dump.extend_from_slice(&oob);
    }
    (dump, pages)
}

#[test]
fn end_to_end_clean_and_corrected() {
    let (dump, pages) = interlaced_dump();
    let all: Vec<u8> = pages.concat();
    let out = do_interlaced(&dump, PAGE, OOB, PAGES).unwrap();
    assert_eq!(out.pages.len(), PAGE * PAGES);
    assert_eq!(out.pages, all);
    assert_eq!(out.oob.len(), OOB * PAGES);

    let mut corrupted = dump.clone();
    let page = 5;
    let byte = 100;
    let bit = 3;
    corrupted[page * (PAGE + OOB) + byte] ^= 0x80 >> bit;
    let out = do_interlaced(&corrupted, PAGE, OOB, PAGES).unwrap();
    assert_eq!(out.pages, all);
}

#[test]
fn interlaced_skipped_block_emits_nothing() {
    let dump = vec![0xffu8; (PAGE + OOB) * PAGES];
    let out = do_interlaced(&dump, PAGE, OOB, PAGES).unwrap();
    assert!(out.pages.is_empty());
    assert!(out.oob.is_empty());
}

#[test]
fn appended_skipped_block_still_emits_oob() {
    let mut dump = vec![0xffu8; (PAGE + OOB) * PAGES];
    for b in dump[PAGE * PAGES..].iter_mut() {
        *b = 0x22;
    }
    let out = do_appended(&dump, PAGE, OOB, PAGES).unwrap();
    assert!(out.pages.is_empty());
    assert_eq!(out.oob, vec![0x22u8; OOB * PAGES]);
}

#[test]
fn appended_block_is_corrected() {
    let pages: Vec<Vec<u8>> = (0..4).map(|i| page_bytes(i, 1)).collect();
    let mut dump: Vec<u8> = pages.concat();
    for (i, p) in pages.iter().enumerate() {
        let mut oob = vec![0xffu8; OOB];
        oob[6..10].copy_from_slice(&stored_syndrome(p).to_le_bytes());
        if i == 0 {
            oob[6] = 0xff;
        }
        dump.extend_from_slice(&oob);
    }
    let oob_section = dump[PAGE * 4..].to_vec();
    // Page 0's stored syndrome had its low byte replaced by the marker, so
    // only the other pages are checked against exact syndromes here.
    let mut corrupted = dump.clone();
    corrupted[2 * PAGE + 300] ^= 0x80 >> 6;
    let clean = do_appended(&dump, PAGE, OOB, 4).unwrap();
    let fixed = do_appended(&corrupted, PAGE, OOB, 4).unwrap();
    assert_eq!(clean.pages[PAGE..], pages[1..].concat()[..]);
    assert_eq!(fixed.pages[PAGE..], clean.pages[PAGE..]);
    assert_eq!(clean.oob, oob_section);
}

#[test]
fn configuration_errors() {
    let dump = vec![0u8; 100];
    assert_eq!(do_interlaced(&dump, 0, 16, 1).err(), Some(ExtractError::InvalidPageSize));
    assert_eq!(do_interlaced(&dump, 12, 16, 1).err(), Some(ExtractError::InvalidPageSize));
    assert_eq!(
        do_interlaced(&dump, 512, 16, 0).err(),
        Some(ExtractError::Layout(LayoutError::InvalidGeometry))
    );
    assert_eq!(
        do_appended(&dump, 512, 16, 1).err(),
        Some(ExtractError::Layout(LayoutError::LengthMismatch))
    );
}

#[test]
fn small_oob_fails_only_for_kept_blocks() {
    // One appended block of two pages with 8-byte OOB regions.
    let mut dump = vec![0x12u8; 2 * 512 + 2 * 8];
    dump[1024 + 6] = 0xff;
    assert_eq!(do_appended(&dump, 512, 8, 2).err(), Some(ExtractError::OobTooSmall));
    // The same sizes, interlaced: page 0's OOB follows its data.
    let mut dump = vec![0x12u8; 2 * 512 + 2 * 8];
    dump[512 + 6] = 0xff;
    assert_eq!(do_interlaced(&dump, 512, 8, 2).err(), Some(ExtractError::OobTooSmall));
}

#[test]
fn small_oob_with_skipped_blocks_still_extracts() {
    // No good-block marker: every block is bad, so no stored syndrome is read.
    let dump = vec![0x12u8; 2 * 512 + 2 * 8];
    let out = do_appended(&dump, 512, 8, 2).unwrap();
    assert!(out.pages.is_empty());
    assert_eq!(out.oob, vec![0x12u8; 16]);
    let out = do_interlaced(&dump, 512, 8, 2).unwrap();
    assert!(out.pages.is_empty());
    assert!(out.oob.is_empty());
}

//! The extraction pipeline: skips erased and bad blocks, corrects single-bit
//! errors in page data, and produces the page stream and the OOB stream.

use vstd::prelude::*;
use crate::block::{
    block_size, geometry_ok, AppendedBlock, Block, InterlacedBlock, LayoutError, OOB, Page,
    PageBytes, MAX_PAGE_SIZE, pair_bytes, well_sized,
};
use crate::decode::{error_location, find_error};
use crate::ecc::page_ecc;

verus! {

/// Byte offset, within a page's OOB, of the stored syndrome.
pub const ECC_OFFSET: usize = 6;

/// Smallest OOB region that holds the stored syndrome.
pub const MIN_OOB_SIZE: usize = 10;

/// Mask of the 24 syndrome bits that are compared.
pub const ECC_MASK: u64 = 0xff_ffff;

/// The syndrome stored in an OOB region: four little-endian bytes at offset 6,
/// low 24 bits.
pub open spec fn stored_ecc(oob: Seq<u8>) -> u64 {
    ((oob[6] as u64) | (oob[7] as u64) << 8u64 | (oob[8] as u64) << 16u64 | (oob[9] as u64) << 24u64)
        & ECC_MASK
}

/// The syndrome of page data as it is compared with the stored one: without
/// the overall parity bit, low 24 bits.
pub open spec fn calculated_ecc(d: Seq<u8>) -> u64 {
    (page_ecc(d) >> 1u64) & ECC_MASK
}

/// `d` with bit `bit` (counted from the most significant) of byte `byte`
/// flipped, when that byte exists.
pub open spec fn flip_bit(d: Seq<u8>, byte: usize, bit: usize) -> Seq<u8> {
    if byte < d.len() {
        d.update(byte as int, d[byte as int] ^ (0x80u8 >> (bit as u8)))
    } else {
        d
    }
}

/// The page data as emitted: with the located bit flipped, when the stored
/// syndrome locates one.
pub open spec fn corrected_page(d: Seq<u8>, oob: Seq<u8>) -> Seq<u8> {
    match error_location(calculated_ecc(d) ^ stored_ecc(oob)) {
        Some((byte, bit)) => flip_bit(d, byte, bit),
        None => d,
    }
}

/// The corrected data of the pages, concatenated.
pub open spec fn pages_out(pages: Seq<PageBytes>) -> Seq<u8>
    decreases pages.len(),
{
    if pages.len() == 0 {
        Seq::empty()
    } else {
        pages_out(pages.drop_last()) + corrected_page(pages.last().0, pages.last().1)
    }
}

/// The OOB bytes of the pages, concatenated.
pub open spec fn oobs_out(pages: Seq<PageBytes>) -> Seq<u8>
    decreases pages.len(),
{
    if pages.len() == 0 {
        Seq::empty()
    } else {
        oobs_out(pages.drop_last()) + pages.last().1
    }
}

/// The blocks of `buf` under a layout.
pub open spec fn blocks_of<'a, B: Block<'a>>(buf: Seq<u8>, page_size: nat, oob_size: nat, pages_per_block: nat) -> Seq<Seq<PageBytes>> {
    Seq::new(
        buf.len() / block_size(page_size, oob_size, pages_per_block),
        |b: int| B::layout_block(buf, page_size, oob_size, pages_per_block, b as nat),
    )
}

/// Whether a block is left out of the page stream.
pub open spec fn skipped<'a, B: Block<'a>>(pages: Seq<PageBytes>) -> bool {
    B::is_bad(pages) || B::is_empty(pages)
}

/// The (page, OOB) streams of interlaced blocks: both only from the blocks
/// that are not skipped.
pub open spec fn interlaced_streams(blocks: Seq<Seq<PageBytes>>) -> (Seq<u8>, Seq<u8>)
    decreases blocks.len(),
{
    if blocks.len() == 0 {
        (Seq::empty(), Seq::empty())
    } else {
        let prev = interlaced_streams(blocks.drop_last());
        let blk = blocks.last();
        if skipped::<InterlacedBlock>(blk) {
            prev
        } else {
            (prev.0 + pages_out(blk), prev.1 + oobs_out(blk))
        }
    }
}

/// The (page, OOB) streams of appended blocks: pages only from the blocks that
/// are not skipped, OOB from every block.
pub open spec fn appended_streams(blocks: Seq<Seq<PageBytes>>) -> (Seq<u8>, Seq<u8>)
    decreases blocks.len(),
{
    if blocks.len() == 0 {
        (Seq::empty(), Seq::empty())
    } else {
        let prev = appended_streams(blocks.drop_last());
        let blk = blocks.last();
        if skipped::<AppendedBlock>(blk) {
            (prev.0, prev.1 + oobs_out(blk))
        } else {
            (prev.0 + pages_out(blk), prev.1 + oobs_out(blk))
        }
    }
}

/// Why a dump cannot be extracted.
#[derive(Clone, Copy, Debug, PartialEq, Eq, Structural)]
pub enum ExtractError {
    /// The page size is zero, not a multiple of 8, or too large for the syndrome.
    InvalidPageSize,
    /// A block is kept, but the OOB regions cannot hold the stored syndrome
    /// that its pages are checked against.
    OobTooSmall,
    /// The dump cannot be cut into blocks.
    Layout(LayoutError),
}

/// Whether the page size is a positive multiple of 8 that the syndrome covers.
pub open spec fn page_size_ok(page_size: nat) -> bool {
    0 < page_size < MAX_PAGE_SIZE && page_size % 8 == 0
}

/// Whether every block is skipped, so that no stored syndrome is read.
pub open spec fn all_skipped<'a, B: Block<'a>>(blocks: Seq<Seq<PageBytes>>) -> bool {
    forall|b: int| 0 <= b < blocks.len() ==> #[trigger] skipped::<B>(blocks[b])
}

/// What the configuration check of an extraction returns: the first problem
/// with the sizes, if any. The OOB size is checked later, only when a kept
/// page's stored syndrome must be read.
pub open spec fn config_error(len: nat, page_size: nat, oob_size: nat, pages_per_block: nat) -> Option<ExtractError> {
    if !page_size_ok(page_size) {
        Some(ExtractError::InvalidPageSize)
    } else if !geometry_ok(page_size, oob_size, pages_per_block) {
        Some(ExtractError::Layout(LayoutError::InvalidGeometry))
    } else if len % block_size(page_size, oob_size, pages_per_block) != 0 {
        Some(ExtractError::Layout(LayoutError::LengthMismatch))
    } else {
        None
    }
}

/// The two output streams of an extraction.
pub struct Extracted {
    /// Corrected data of the pages that were kept.
    pub pages: Vec<u8>,
    /// OOB bytes, per the layout's rule.
    pub oob: Vec<u8>,
}

/// Reads the stored syndrome of an OOB region.
fn read_stored_ecc(oob: &[u8]) -> (r: u64)
    requires
        oob@.len() >= MIN_OOB_SIZE,
    ensures
        r == stored_ecc(oob@),
{
    ((oob[6] as u64) | (oob[7] as u64) << 8u64 | (oob[8] as u64) << 16u64 | (oob[9] as u64)
        << 24u64) & ECC_MASK
}

/// Appends the data of `page` to `out`, with the bit that the syndromes
/// locate flipped.
pub fn emit_page(page: Page, oob: OOB, out: &mut Vec<u8>)
    requires
        page.data@.len() < MAX_PAGE_SIZE,
        oob.data@.len() >= MIN_OOB_SIZE,
    ensures
        final(out)@ == old(out)@ + corrected_page(page.data@, oob.data@),
{
    let d = page.data;
    let calculated = (page.calc_ecc() >> 1) & ECC_MASK;
    let stored = read_stored_ecc(oob.data);
    let fix = find_error(calculated, stored);
    let ghost start = out@;
    let ghost want = corrected_page(d@, oob.data@);
    let mut i: usize = 0;
    while i < d.len()
        invariant
            d@ == page.data@,
            want == corrected_page(d@, oob.data@),
            fix == error_location(calculated_ecc(d@) ^ stored_ecc(oob.data@)),
            fix matches Some((byte, bit)) ==> bit < 8,
            want.len() == d@.len(),
            i <= d@.len(),
            out@ == start + want.take(i as int),
        decreases d.len() - i,
    {
        let x = d[i];
        let y: u8 = match fix {
            Some((byte, bit)) => if byte == i {
                x ^ (0x80u8 >> (bit as u8))
            } else {
                x
            },
            None => x,
        };
        out.push(y);
        assert(want.take(i + 1) =~= want.take(i as int).push(y));
        i = i + 1;
    }
    assert(want.take(d@.len() as int) =~= want);
}

/// Appends the bytes of `src` to `out`.
fn append_bytes(src: &[u8], out: &mut Vec<u8>)
    ensures
        final(out)@ == old(out)@ + src@,
{
    let ghost start = out@;
    let mut i: usize = 0;
    while i < src.len()
        invariant
            i <= src@.len(),
            out@ == start + src@.take(i as int),
        decreases src.len() - i,
    {
        out.push(src[i]);
        assert(src@.take(i + 1) =~= src@.take(i as int).push(src@[i as int]));
        i = i + 1;
    }
    assert(src@.take(src@.len() as int) =~= src@);
}

/// Whether every page of a block can be checked against its stored syndrome.
pub open spec fn checkable(pages: Seq<PageBytes>) -> bool {
    forall|p: int|
        0 <= p < pages.len() ==> (#[trigger] pages[p]).0.len() < MAX_PAGE_SIZE && pages[p].1.len()
            >= MIN_OOB_SIZE
}

/// Appends the corrected data of each page to `out`.
fn emit_pages(pairs: &[(Page, OOB)], out: &mut Vec<u8>)
    requires
        checkable(pair_bytes(pairs@)),
    ensures
        final(out)@ == old(out)@ + pages_out(pair_bytes(pairs@)),
{
    let ghost start = out@;
    let ghost all = pair_bytes(pairs@);
    let mut p: usize = 0;
    while p < pairs.len()
        invariant
            all == pair_bytes(pairs@),
            all.len() == pairs@.len(),
            checkable(all),
            p <= pairs@.len(),
            out@ == start + pages_out(all.take(p as int)),
        decreases pairs.len() - p,
    {
        let (page, oob) = pairs[p];
        assert(all[p as int] == (page.data@, oob.data@));
        emit_page(page, oob, out);
        assert(all.take(p + 1).drop_last() =~= all.take(p as int));
        p = p + 1;
    }
    assert(all.take(pairs@.len() as int) =~= all);
}

/// Appends the OOB bytes of each page to `out`.
fn emit_oobs(pairs: &[(Page, OOB)], out: &mut Vec<u8>)
    ensures
        final(out)@ == old(out)@ + oobs_out(pair_bytes(pairs@)),
{
    let ghost start = out@;
    let ghost all = pair_bytes(pairs@);
    let mut p: usize = 0;
    while p < pairs.len()
        invariant
            all == pair_bytes(pairs@),
            all.len() == pairs@.len(),
            p <= pairs@.len(),
            out@ == start + oobs_out(all.take(p as int)),
        decreases pairs.len() - p,
    {
        let oob = pairs[p].1;
        assert(all[p as int].1 == oob.data@);
        append_bytes(oob.data, out);
        assert(all.take(p + 1).drop_last() =~= all.take(p as int));
        p = p + 1;
    }
    assert(all.take(pairs@.len() as int) =~= all);
}

/// Whether the page size is one that an extraction accepts.
fn check_page_size(page_size: usize) -> (r: bool)
    ensures
        r == page_size_ok(page_size as nat),
{
    page_size != 0 && page_size % 8 == 0 && page_size < MAX_PAGE_SIZE
}

/// Extracts an interlaced dump: skips erased and bad blocks; for each other
/// block emits the corrected data of its pages and their OOB bytes. OOB
/// regions too small for the stored syndrome fail only when a block is kept.
pub fn do_interlaced(contents: &[u8], page_size: usize, oob_size: usize, pages_per_block: usize) -> (r: Result<Extracted, ExtractError>)
    ensures
        match config_error(contents@.len(), page_size as nat, oob_size as nat, pages_per_block as nat) {
            Some(e) => r == Err::<Extracted, ExtractError>(e),
            None => if oob_size < MIN_OOB_SIZE && !all_skipped::<InterlacedBlock>(
                blocks_of::<InterlacedBlock>(contents@, page_size as nat, oob_size as nat, pages_per_block as nat),
            ) {
                r == Err::<Extracted, ExtractError>(ExtractError::OobTooSmall)
            } else {
                r matches Ok(x) && (x.pages@, x.oob@) == interlaced_streams(
                    blocks_of::<InterlacedBlock>(contents@, page_size as nat, oob_size as nat, pages_per_block as nat),
                )
            },
        },
{
    if !check_page_size(page_size) {
        return Err(ExtractError::InvalidPageSize);
    }
    let blocks = match InterlacedBlock::from_slice(contents, page_size, oob_size, pages_per_block) {
        Ok(bs) => bs,
        Err(e) => return Err(ExtractError::Layout(e)),
    };
    let ghost model = blocks_of::<InterlacedBlock>(contents@, page_size as nat, oob_size as nat, pages_per_block as nat);
    let mut pages: Vec<u8> = Vec::new();
    let mut oob: Vec<u8> = Vec::new();
    let mut b: usize = 0;
    while b < blocks.len()
        invariant
            blocks.len() == model.len(),
            page_size_ok(page_size as nat),
            config_error(contents@.len(), page_size as nat, oob_size as nat, pages_per_block as nat) is None,
            model == blocks_of::<InterlacedBlock>(contents@, page_size as nat, oob_size as nat, pages_per_block as nat),
            oob_size < MIN_OOB_SIZE ==> forall|c: int| 0 <= c < b ==> #[trigger] skipped::<InterlacedBlock>(model[c]),
            forall|c: int| 0 <= c < blocks.len() ==> #[trigger] blocks[c].pages_view() == model[c],
            forall|c: int| 0 <= c < blocks.len() ==> well_sized(#[trigger] blocks[c].pages_view(), page_size as nat, oob_size as nat, pages_per_block as nat),
            b <= blocks.len(),
            (pages@, oob@) == interlaced_streams(model.take(b as int)),
        decreases blocks.len() - b,
    {
        let block = &blocks[b];
        assert(model.take(b + 1).drop_last() =~= model.take(b as int));
        assert(model.take(b + 1).last() == model[b as int]);
        if block.bad_block() || block.empty_block() {
            b = b + 1;
            continue;
        }
        if oob_size < MIN_OOB_SIZE {
            assert(!skipped::<InterlacedBlock>(model[b as int]));
            assert(!all_skipped::<InterlacedBlock>(model));
            return Err(ExtractError::OobTooSmall);
        }
        let pairs = block.iter();
        assert(well_sized(blocks[b as int].pages_view(), page_size as nat, oob_size as nat, pages_per_block as nat));
        emit_pages(pairs, &mut pages);
        emit_oobs(pairs, &mut oob);
        b = b + 1;
    }
    assert(model.take(blocks.len() as int) =~= model);
    Ok(Extracted { pages, oob })
}

/// Extracts an appended dump: emits the OOB bytes of every block; skips
/// erased and bad blocks for the page stream, and emits the corrected data
/// of the pages of the others. OOB regions too small for the stored syndrome
/// fail only when a block is kept.
pub fn do_appended(contents: &[u8], page_size: usize, oob_size: usize, pages_per_block: usize) -> (r: Result<Extracted, ExtractError>)
    ensures
        match config_error(contents@.len(), page_size as nat, oob_size as nat, pages_per_block as nat) {
            Some(e) => r == Err::<Extracted, ExtractError>(e),
            None => if oob_size < MIN_OOB_SIZE && !all_skipped::<AppendedBlock>(
                blocks_of::<AppendedBlock>(contents@, page_size as nat, oob_size as nat, pages_per_block as nat),
            ) {
                r == Err::<Extracted, ExtractError>(ExtractError::OobTooSmall)
            } else {
                r matches Ok(x) && (x.pages@, x.oob@) == appended_streams(
                    blocks_of::<AppendedBlock>(contents@, page_size as nat, oob_size as nat, pages_per_block as nat),
                )
            },
        },
{
    if !check_page_size(page_size) {
        return Err(ExtractError::InvalidPageSize);
    }
    let blocks = match AppendedBlock::from_slice(contents, page_size, oob_size, pages_per_block) {
        Ok(bs) => bs,
        Err(e) => return Err(ExtractError::Layout(e)),
    };
    let ghost model = blocks_of::<AppendedBlock>(contents@, page_size as nat, oob_size as nat, pages_per_block as nat);
    let mut pages: Vec<u8> = Vec::new();
    let mut oob: Vec<u8> = Vec::new();
    let mut b: usize = 0;
    while b < blocks.len()
        invariant
            blocks.len() == model.len(),
            page_size_ok(page_size as nat),
            config_error(contents@.len(), page_size as nat, oob_size as nat, pages_per_block as nat) is None,
            model == blocks_of::<AppendedBlock>(contents@, page_size as nat, oob_size as nat, pages_per_block as nat),
            oob_size < MIN_OOB_SIZE ==> forall|c: int| 0 <= c < b ==> #[trigger] skipped::<AppendedBlock>(model[c]),
            forall|c: int| 0 <= c < blocks.len() ==> #[trigger] blocks[c].pages_view() == model[c],
            forall|c: int| 0 <= c < blocks.len() ==> well_sized(#[trigger] blocks[c].pages_view(), page_size as nat, oob_size as nat, pages_per_block as nat),
            b <= blocks.len(),
            (pages@, oob@) == appended_streams(model.take(b as int)),
        decreases blocks.len() - b,
    {
        let block = &blocks[b];
        assert(model.take(b + 1).drop_last() =~= model.take(b as int));
        assert(model.take(b + 1).last() == model[b as int]);
        let pairs = block.iter();
        emit_oobs(pairs, &mut oob);
        if block.bad_block() || block.empty_block() {
            b = b + 1;
            continue;
        }
        if oob_size < MIN_OOB_SIZE {
            assert(!skipped::<AppendedBlock>(model[b as int]));
            assert(!all_skipped::<AppendedBlock>(model));
            return Err(ExtractError::OobTooSmall);
        }
        assert(well_sized(blocks[b as int].pages_view(), page_size as nat, oob_size as nat, pages_per_block as nat));
        emit_pages(pairs, &mut pages);
        b = b + 1;
    }
    assert(model.take(blocks.len() as int) =~= model);
    Ok(Extracted { pages, oob })
}

} // verus!

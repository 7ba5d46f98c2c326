//! Pages, OOB regions, and the two physical block layouts.

use vstd::prelude::*;
use vstd::slice::slice_subrange;
use crate::bits::{parity_of, read_word_be, word_be};
use crate::ecc::{
    column_bits, column_xor, floor_log2, in_slot, lemma_log2_below, max_pow, page_ecc, pow2,
    slot_bit, slot_bits, slot_xor, word_count, SLOTS,
};

verus! {

/// Largest page, in bytes, whose syndrome can be computed (exclusive): the
/// line parity slots cover word counts below `2^26`.
pub const MAX_PAGE_SIZE: usize = 0x2000_0000;

/// The main data of one page, borrowed from the dump.
#[derive(Clone, Copy)]
pub struct Page<'a> {
    pub data: &'a [u8],
}

impl<'a> Page<'a> {
    /// The syndrome of the page's data: see `page_ecc`.
    pub fn calc_ecc(self) -> (r: u64)
        requires
            self.data@.len() < MAX_PAGE_SIZE,
        ensures
            r == page_ecc(self.data@),
    {
        let d = self.data;
        let len = d.len();
        let nw = len / 8;
        let mp = floor_log2(nw);
        proof {
            reveal_with_fuel(pow2, 27);
            assert(pow2(26) == 0x400_0000);
            lemma_log2_below(nw as nat, 26);
        }
        let mut acc: u64 = 0;
        let mut big_acc: Vec<u64> = Vec::new();
        while big_acc.len() < SLOTS
            invariant
                big_acc.len() <= SLOTS,
                forall|s: int| 0 <= s < big_acc.len() ==> big_acc[s] == 0,
            decreases SLOTS - big_acc.len(),
        {
            big_acc.push(0);
        }
        let mut index: usize = 0;
        while index < nw
            invariant
                d@ == self.data@,
                nw == word_count(d@),
                mp == max_pow(d@),
                mp < 26,
                index <= nw,
                big_acc.len() == SLOTS,
                acc == column_xor(d@, index as nat),
                forall|s: int|
                    0 <= s < SLOTS ==> #[trigger] big_acc[s] == slot_xor(d@, s as nat, index as nat),
            decreases nw - index,
        {
            let chunk = read_word_be(d, index);
            acc = acc ^ chunk;
            let mut pow: usize = 0;
            while pow < mp
                invariant
                    d@ == self.data@,
                    mp == max_pow(d@),
                    mp < 26,
                    pow <= mp,
                    index < nw,
                    nw == word_count(d@),
                    chunk == word_be(d@, index as int),
                    big_acc.len() == SLOTS,
                    forall|s: int|
                        0 <= s < 2 * pow ==> #[trigger] big_acc[s] == slot_xor(
                            d@,
                            s as nat,
                            (index + 1) as nat,
                        ),
                    forall|s: int|
                        2 * pow <= s < SLOTS ==> #[trigger] big_acc[s] == slot_xor(
                            d@,
                            s as nat,
                            index as nat,
                        ),
                decreases mp - pow,
            {
                let lo: usize = 2 * pow;
                let hi: usize = 2 * pow + 1;
                let b = ((index as u64) >> (pow as u64)) & 1;
                assert(b == 0 || b == 1) by (bit_vector)
                    requires
                        b == ((index as u64) >> (pow as u64)) & 1,
                ;
                let x = big_acc[lo];
                let y = big_acc[hi];
                assert(x ^ 0 == x && y ^ 0 == y) by (bit_vector);
                if b == 0 {
                    big_acc[lo] = x ^ chunk;
                } else {
                    big_acc[hi] = y ^ chunk;
                }
                assert(in_slot(d@, lo as nat, index as nat) == (b == 0));
                assert(in_slot(d@, hi as nat, index as nat) == (b == 1));
                pow = pow + 1;
            }
            assert forall|s: int| 2 * mp <= s < SLOTS implies #[trigger] big_acc[s] == slot_xor(
                d@,
                s as nat,
                (index + 1) as nat,
            ) by {
                let v = big_acc[s];
                assert(v ^ 0 == v) by (bit_vector);
                assert(!in_slot(d@, s as nat, index as nat));
            }
            index = index + 1;
        }
        let mut parity: u64 = parity_of(acc) | parity_of(acc & 0xaaaa_aaaa_aaaa_aaaa) << 1u64
            | parity_of(acc & 0x5555_5555_5555_5555) << 2u64 | parity_of(
            acc & 0xcccc_cccc_cccc_cccc,
        ) << 3u64 | parity_of(acc & 0x3333_3333_3333_3333) << 4u64 | parity_of(
            acc & 0xf0f0_f0f0_f0f0_f0f0,
        ) << 5u64 | parity_of(acc & 0x0f0f_0f0f_0f0f_0f0f) << 6u64 | parity_of(
            acc & 0xff00_ff00_ff00_ff00,
        ) << 7u64 | parity_of(acc & 0x00ff_00ff_00ff_00ff) << 8u64 | parity_of(
            acc & 0xffff_0000_ffff_0000,
        ) << 9u64 | parity_of(acc & 0x0000_ffff_0000_ffff) << 10u64 | parity_of(
            acc & 0xffff_ffff_0000_0000,
        ) << 11u64 | parity_of(acc & 0x0000_0000_ffff_ffff) << 12u64;
        let ghost head = column_bits(acc);
        assert(parity == head | slot_bits(d@, 0)) by {
            assert(parity == column_bits(acc));
            let p = parity;
            assert(p | 0 == p) by (bit_vector);
        }
        let mut k: usize = 0;
        while k < SLOTS
            invariant
                k <= SLOTS,
                big_acc.len() == SLOTS,
                nw == word_count(d@),
                forall|s: int|
                    0 <= s < SLOTS ==> #[trigger] big_acc[s] == slot_xor(d@, s as nat, nw as nat),
                parity == head | slot_bits(d@, k as nat),
            decreases SLOTS - k,
        {
            let ghost prev = slot_bits(d@, k as nat);
            let ghost bit = slot_bit(d@, k as nat);
            let c = crate::bits::count_ones(big_acc[k]);
            let add: u64 = if c % 2 != 0 {
                1u64 << ((13 + k) as u64)
            } else {
                0
            };
            assert(add == bit);
            parity = parity | add;
            assert((head | prev) | bit == head | (prev | bit)) by (bit_vector);
            k = k + 1;
        }
        parity
    }
}

/// The out-of-band (spare) bytes of one page, borrowed from the dump.
#[derive(Clone, Copy)]
pub struct OOB<'a> {
    pub data: &'a [u8],
}


/// The bytes of a page as a pair: main data, then OOB.
pub type PageBytes = (Seq<u8>, Seq<u8>);

/// The bytes of each (page, OOB) pair.
pub open spec fn pair_bytes<'a>(s: Seq<(Page<'a>, OOB<'a>)>) -> Seq<PageBytes> {
    s.map_values(|pr: (Page<'a>, OOB<'a>)| (pr.0.data@, pr.1.data@))
}

/// Why a dump cannot be cut into blocks.
#[derive(Clone, Copy, Debug, PartialEq, Eq, Structural)]
pub enum LayoutError {
    /// The raw size of a block is zero or does not fit in `usize`.
    InvalidGeometry,
    /// The dump's length is not a whole number of blocks.
    LengthMismatch,
}

/// Raw bytes taken by one block: every page's data and OOB, in either layout.
pub open spec fn block_size(page_size: nat, oob_size: nat, pages_per_block: nat) -> nat {
    (page_size + oob_size) * pages_per_block
}

/// Whether a block's raw size is positive and fits in `usize`.
pub open spec fn geometry_ok(page_size: nat, oob_size: nat, pages_per_block: nat) -> bool {
    0 < block_size(page_size, oob_size, pages_per_block) <= usize::MAX
}

/// Whether `x` is a byte of erased flash.
pub open spec fn erased(x: u8) -> bool {
    x == 0xff || x == 0xfe
}

/// Whether every byte of `d` is a byte of erased flash.
pub open spec fn bytes_erased(d: Seq<u8>) -> bool {
    forall|i: int| 0 <= i < d.len() ==> erased(#[trigger] d[i])
}

/// Whether every byte of a page's data and OOB is a byte of erased flash.
pub open spec fn page_erased(pb: PageBytes) -> bool {
    bytes_erased(pb.0) && bytes_erased(pb.1)
}

/// Whether every byte of `d` is `0xff`.
pub open spec fn bytes_ff(d: Seq<u8>) -> bool {
    forall|i: int| 0 <= i < d.len() ==> #[trigger] d[i] == 0xff
}

/// Whether every byte of `d` is a byte of erased flash.
fn all_erased(d: &[u8]) -> (r: bool)
    ensures
        r == bytes_erased(d@),
{
    let mut i: usize = 0;
    while i < d.len()
        invariant
            i <= d@.len(),
            forall|j: int| 0 <= j < i ==> erased(#[trigger] d@[j]),
        decreases d.len() - i,
    {
        let x = d[i];
        if x != 0xff && x != 0xfe {
            return false;
        }
        i = i + 1;
    }
    true
}

/// Whether every byte of `d` is `0xff`.
fn all_ff(d: &[u8]) -> (r: bool)
    ensures
        r == bytes_ff(d@),
{
    let mut i: usize = 0;
    while i < d.len()
        invariant
            i <= d@.len(),
            forall|j: int| 0 <= j < i ==> #[trigger] d@[j] == 0xff,
        decreases d.len() - i,
    {
        if d[i] != 0xff {
            return false;
        }
        i = i + 1;
    }
    true
}

/// Whether the OOB of page `p` holds the good-block marker.
pub open spec fn marked_good(pages: Seq<PageBytes>, p: int) -> bool {
    pages[p].1.len() > 6 && pages[p].1[6] == 0xff
}

/// Whether a block holds `pages_per_block` pages, each of `page_size` data
/// bytes and `oob_size` OOB bytes.
pub open spec fn well_sized(pages: Seq<PageBytes>, page_size: nat, oob_size: nat, pages_per_block: nat) -> bool {
    &&& pages.len() == pages_per_block
    &&& forall|p: int| 0 <= p < pages.len() ==> (#[trigger] pages[p]).0.len() == page_size && pages[p].1.len() == oob_size
}

/// A block of `pages_per_block` (page, OOB) pairs, cut from a dump by one of
/// the physical layouts.
pub trait Block<'a>: Sized {
    /// The (data, OOB) bytes of each page, in physical order.
    spec fn pages_view(&self) -> Seq<PageBytes>;

    /// The pages of block `b` of `buf` under this layout.
    spec fn layout_block(buf: Seq<u8>, page_size: nat, oob_size: nat, pages_per_block: nat, b: nat) -> Seq<PageBytes>;

    /// Whether a block with these pages is erased.
    spec fn is_empty(pages: Seq<PageBytes>) -> bool;

    /// Whether a block with these pages is marked bad.
    spec fn is_bad(pages: Seq<PageBytes>) -> bool;

    /// Cuts `slice` into blocks, in physical order.
    fn from_slice(slice: &'a [u8], page_size: usize, oob_size: usize, pages_per_block: usize) -> (r: Result<Vec<Self>, LayoutError>)
        ensures
            (r == Err::<Vec<Self>, LayoutError>(LayoutError::InvalidGeometry)) <==> !geometry_ok(page_size as nat, oob_size as nat, pages_per_block as nat),
            (r == Err::<Vec<Self>, LayoutError>(LayoutError::LengthMismatch)) <==> geometry_ok(page_size as nat, oob_size as nat, pages_per_block as nat)
                && slice@.len() % block_size(page_size as nat, oob_size as nat, pages_per_block as nat) != 0,
            r matches Ok(bs) ==> {
                &&& bs.len() == slice@.len() / block_size(page_size as nat, oob_size as nat, pages_per_block as nat)
                &&& forall|b: int| 0 <= b < bs.len() ==> #[trigger] bs[b].pages_view() == Self::layout_block(slice@, page_size as nat, oob_size as nat, pages_per_block as nat, b as nat)
                &&& forall|b: int| 0 <= b < bs.len() ==> well_sized(#[trigger] bs[b].pages_view(), page_size as nat, oob_size as nat, pages_per_block as nat)
            },
    ;

    /// The (page, OOB) pairs, in physical order.
    fn iter(&self) -> (r: &[(Page<'a>, OOB<'a>)])
        ensures
            pair_bytes(r@) == self.pages_view(),
    ;

    /// Whether the block is erased.
    fn empty_block(&self) -> (r: bool)
        ensures
            r == Self::is_empty(self.pages_view()),
    ;

    /// Whether the block carries the manufacturer's bad-block mark.
    fn bad_block(&self) -> (r: bool)
        ensures
            r == Self::is_bad(self.pages_view()),
    ;
}


/// A block whose pages each hold their data followed directly by their OOB.
pub struct InterlacedBlock<'a> {
    data: Vec<(Page<'a>, OOB<'a>)>,
}

impl<'a> Block<'a> for InterlacedBlock<'a> {
    closed spec fn pages_view(&self) -> Seq<PageBytes> {
        pair_bytes(self.data@)
    }

    open spec fn layout_block(buf: Seq<u8>, page_size: nat, oob_size: nat, pages_per_block: nat, b: nat) -> Seq<PageBytes> {
        Seq::new(
            pages_per_block,
            |p: int|
                {
                    let start = b * block_size(page_size, oob_size, pages_per_block) + p * (page_size + oob_size);
                    (
                        buf.subrange(start, start + page_size),
                        buf.subrange(start + page_size, start + page_size + oob_size),
                    )
                },
        )
    }

    open spec fn is_empty(pages: Seq<PageBytes>) -> bool {
        forall|p: int| 0 <= p < pages.len() ==> #[trigger] page_erased(pages[p])
    }

    open spec fn is_bad(pages: Seq<PageBytes>) -> bool {
        !(exists|p: int| 0 <= p < 2 && p < pages.len() && #[trigger] marked_good(pages, p))
    }

    fn from_slice(slice: &'a [u8], page_size: usize, oob_size: usize, pages_per_block: usize) -> (r: Result<Vec<Self>, LayoutError>) {
        let page_raw_size = match page_size.checked_add(oob_size) {
            Some(v) => v,
            None => {
                proof {
                    assert(pages_per_block == 0 || block_size(page_size as nat, oob_size as nat, pages_per_block as nat) > usize::MAX) by (nonlinear_arith)
                        requires page_size + oob_size > usize::MAX;
                }
                return Err(LayoutError::InvalidGeometry);
            },
        };
        let block_raw_size = match page_raw_size.checked_mul(pages_per_block) {
            Some(v) => v,
            None => return Err(LayoutError::InvalidGeometry),
        };
        if block_raw_size == 0 {
            return Err(LayoutError::InvalidGeometry);
        }
        if slice.len() % block_raw_size != 0 {
            return Err(LayoutError::LengthMismatch);
        }
        let ghost buf = slice@;
        let n_blocks = slice.len() / block_raw_size;
        proof {
            assert(buf.len() == slice.len());
            assert(n_blocks * block_raw_size == buf.len()) by (nonlinear_arith)
                requires
                    buf.len() % (block_raw_size as nat) == 0,
                    n_blocks == buf.len() / (block_raw_size as nat),
                    block_raw_size > 0,
            ;
        }
        let mut blocks: Vec<Self> = Vec::new();
        let mut b: usize = 0;
        while b < n_blocks
            invariant
                buf == slice@,
                block_raw_size == block_size(page_size as nat, oob_size as nat, pages_per_block as nat),
                page_raw_size == page_size + oob_size,
                block_raw_size > 0,
                n_blocks * block_raw_size == buf.len(),
                buf.len() <= usize::MAX,
                b <= n_blocks,
                blocks.len() == b,
                forall|c: int| 0 <= c < b ==> #[trigger] blocks[c].pages_view() == Self::layout_block(buf, page_size as nat, oob_size as nat, pages_per_block as nat, c as nat),
                forall|c: int| 0 <= c < b ==> well_sized(#[trigger] blocks[c].pages_view(), page_size as nat, oob_size as nat, pages_per_block as nat),
            decreases n_blocks - b,
        {
            proof {
                assert(b * block_raw_size + block_raw_size <= buf.len()) by (nonlinear_arith)
                    requires b < n_blocks, n_blocks * block_raw_size == buf.len();
            }
            let base: usize = b * block_raw_size;
            let ghost want = Self::layout_block(buf, page_size as nat, oob_size as nat, pages_per_block as nat, b as nat);
            let mut data: Vec<(Page<'a>, OOB<'a>)> = Vec::new();
            let mut p: usize = 0;
            while p < pages_per_block
                invariant
                    buf == slice@,
                    block_raw_size == block_size(page_size as nat, oob_size as nat, pages_per_block as nat),
                    page_raw_size == page_size + oob_size,
                    base == b * block_raw_size,
                    base + block_raw_size <= buf.len(),
                    buf.len() <= usize::MAX,
                    want == Self::layout_block(buf, page_size as nat, oob_size as nat, pages_per_block as nat, b as nat),
                    p <= pages_per_block,
                    data.len() == p,
                    forall|q: int| 0 <= q < p ==> (#[trigger] data[q].0.data@, data[q].1.data@) == want[q],
                    forall|q: int| 0 <= q < p ==> (#[trigger] data[q].0.data@).len() == page_size && data[q].1.data@.len() == oob_size,
                decreases pages_per_block - p,
            {
                proof {
                    assert(p * page_raw_size + page_raw_size <= block_raw_size) by (nonlinear_arith)
                        requires p < pages_per_block, block_raw_size == page_raw_size * pages_per_block;
                }
                let start: usize = base + p * page_raw_size;
                let page = Page { data: slice_subrange(slice, start, start + page_size) };
                let oob = OOB { data: slice_subrange(slice, start + page_size, start + page_raw_size) };
                data.push((page, oob));
                p = p + 1;
            }
            assert(pair_bytes(data@) =~= want);
            blocks.push(InterlacedBlock { data });
            b = b + 1;
        }
        proof {
            assert(n_blocks == buf.len() / (block_raw_size as nat)) by (nonlinear_arith)
                requires n_blocks * block_raw_size == buf.len(), block_raw_size > 0;
        }
        Ok(blocks)
    }

    fn iter(&self) -> (r: &[(Page<'a>, OOB<'a>)]) {
        self.data.as_slice()
    }

    fn empty_block(&self) -> (r: bool) {
        let ghost pages = self.pages_view();
        let mut p: usize = 0;
        while p < self.data.len()
            invariant
                pages == self.pages_view(),
                pages.len() == self.data.len(),
                p <= self.data.len(),
                forall|q: int| 0 <= q < p ==> #[trigger] page_erased(pages[q]),
            decreases self.data.len() - p,
        {
            let (page, oob) = self.data[p];
            assert(pages[p as int] == (page.data@, oob.data@));
            if !all_erased(page.data) {
                assert(!page_erased(pages[p as int]));
                return false;
            }
            if !all_erased(oob.data) {
                assert(!page_erased(pages[p as int]));
                return false;
            }
            p = p + 1;
        }
        true
    }

    fn bad_block(&self) -> (r: bool) {
        let mut bad = true;
        let mut p: usize = 0;
        while p < 2 && p < self.data.len()
            invariant
                p <= 2,
                p <= self.data.len(),
                bad == !(exists|q: int| 0 <= q < p && #[trigger] marked_good(self.pages_view(), q)),
            decreases 2 - p,
        {
            let oob = self.data[p].1;
            if oob.data.len() > 6 && oob.data[6] == 0xff {
                assert(marked_good(self.pages_view(), p as int));
                bad = false;
            }
            p = p + 1;
        }
        bad
    }
}

/// A block that holds the data of all its pages first, then the OOB of all its pages.
pub struct AppendedBlock<'a> {
    data: Vec<(Page<'a>, OOB<'a>)>,
}

impl<'a> Block<'a> for AppendedBlock<'a> {
    closed spec fn pages_view(&self) -> Seq<PageBytes> {
        pair_bytes(self.data@)
    }

    open spec fn layout_block(buf: Seq<u8>, page_size: nat, oob_size: nat, pages_per_block: nat, b: nat) -> Seq<PageBytes> {
        Seq::new(
            pages_per_block,
            |p: int|
                {
                    let base = b * block_size(page_size, oob_size, pages_per_block);
                    let data_start = base + p * page_size;
                    let oob_start = base + pages_per_block * page_size + p * oob_size;
                    (
                        buf.subrange(data_start, data_start + page_size),
                        buf.subrange(oob_start, oob_start + oob_size),
                    )
                },
        )
    }

    open spec fn is_empty(pages: Seq<PageBytes>) -> bool {
        forall|p: int| 0 <= p < pages.len() ==> #[trigger] bytes_ff(pages[p].0)
    }

    open spec fn is_bad(pages: Seq<PageBytes>) -> bool {
        !(exists|p: int| 0 <= p < 1 && p < pages.len() && #[trigger] marked_good(pages, p))
    }

    fn from_slice(slice: &'a [u8], page_size: usize, oob_size: usize, pages_per_block: usize) -> (r: Result<Vec<Self>, LayoutError>) {
        let page_raw_size = match page_size.checked_add(oob_size) {
            Some(v) => v,
            None => {
                proof {
                    assert(pages_per_block == 0 || block_size(page_size as nat, oob_size as nat, pages_per_block as nat) > usize::MAX) by (nonlinear_arith)
                        requires page_size + oob_size > usize::MAX;
                }
                return Err(LayoutError::InvalidGeometry);
            },
        };
        let block_raw_size = match page_raw_size.checked_mul(pages_per_block) {
            Some(v) => v,
            None => return Err(LayoutError::InvalidGeometry),
        };
        if block_raw_size == 0 {
            return Err(LayoutError::InvalidGeometry);
        }
        if slice.len() % block_raw_size != 0 {
            return Err(LayoutError::LengthMismatch);
        }
        proof {
            assert(page_size * pages_per_block <= block_raw_size) by (nonlinear_arith)
                requires block_raw_size == (page_size + oob_size) * pages_per_block;
        }
        let pages_section: usize = page_size * pages_per_block;
        let ghost buf = slice@;
        let n_blocks = slice.len() / block_raw_size;
        proof {
            assert(buf.len() == slice.len());
            assert(n_blocks * block_raw_size == buf.len()) by (nonlinear_arith)
                requires
                    buf.len() % (block_raw_size as nat) == 0,
                    n_blocks == buf.len() / (block_raw_size as nat),
                    block_raw_size > 0,
            ;
        }
        let mut blocks: Vec<Self> = Vec::new();
        let mut b: usize = 0;
        while b < n_blocks
            invariant
                buf == slice@,
                block_raw_size == block_size(page_size as nat, oob_size as nat, pages_per_block as nat),
                pages_section == page_size * pages_per_block,
                block_raw_size > 0,
                n_blocks * block_raw_size == buf.len(),
                buf.len() <= usize::MAX,
                b <= n_blocks,
                blocks.len() == b,
                forall|c: int| 0 <= c < b ==> #[trigger] blocks[c].pages_view() == Self::layout_block(buf, page_size as nat, oob_size as nat, pages_per_block as nat, c as nat),
                forall|c: int| 0 <= c < b ==> well_sized(#[trigger] blocks[c].pages_view(), page_size as nat, oob_size as nat, pages_per_block as nat),
            decreases n_blocks - b,
        {
            proof {
                assert(b * block_raw_size + block_raw_size <= buf.len()) by (nonlinear_arith)
                    requires b < n_blocks, n_blocks * block_raw_size == buf.len();
            }
            let base: usize = b * block_raw_size;
            let ghost want = Self::layout_block(buf, page_size as nat, oob_size as nat, pages_per_block as nat, b as nat);
            let mut data: Vec<(Page<'a>, OOB<'a>)> = Vec::new();
            let mut p: usize = 0;
            while p < pages_per_block
                invariant
                    buf == slice@,
                    block_raw_size == block_size(page_size as nat, oob_size as nat, pages_per_block as nat),
                    pages_section == page_size * pages_per_block,
                    base == b * block_raw_size,
                    base + block_raw_size <= buf.len(),
                    buf.len() <= usize::MAX,
                    want == Self::layout_block(buf, page_size as nat, oob_size as nat, pages_per_block as nat, b as nat),
                    p <= pages_per_block,
                    data.len() == p,
                    forall|q: int| 0 <= q < p ==> (#[trigger] data[q].0.data@, data[q].1.data@) == want[q],
                    forall|q: int| 0 <= q < p ==> (#[trigger] data[q].0.data@).len() == page_size && data[q].1.data@.len() == oob_size,
                decreases pages_per_block - p,
            {
                proof {
                    assert(p * page_size + page_size <= pages_section) by (nonlinear_arith)
                        requires p < pages_per_block, pages_section == page_size * pages_per_block;
                    assert(pages_section + p * oob_size + oob_size <= block_raw_size) by (nonlinear_arith)
                        requires
                            p < pages_per_block,
                            pages_section == page_size * pages_per_block,
                            block_raw_size == (page_size + oob_size) * pages_per_block,
                    ;
                }
                let data_start: usize = base + p * page_size;
                let oob_start: usize = base + pages_section + p * oob_size;
                let page = Page { data: slice_subrange(slice, data_start, data_start + page_size) };
                let oob = OOB { data: slice_subrange(slice, oob_start, oob_start + oob_size) };
                data.push((page, oob));
                p = p + 1;
            }
            assert(pair_bytes(data@) =~= want);
            blocks.push(AppendedBlock { data });
            b = b + 1;
        }
        proof {
            assert(n_blocks == buf.len() / (block_raw_size as nat)) by (nonlinear_arith)
                requires n_blocks * block_raw_size == buf.len(), block_raw_size > 0;
        }
        Ok(blocks)
    }

    fn iter(&self) -> (r: &[(Page<'a>, OOB<'a>)]) {
        self.data.as_slice()
    }

    fn empty_block(&self) -> (r: bool) {
        let ghost pages = self.pages_view();
        let mut p: usize = 0;
        while p < self.data.len()
            invariant
                pages == self.pages_view(),
                pages.len() == self.data.len(),
                p <= self.data.len(),
                forall|q: int| 0 <= q < p ==> #[trigger] bytes_ff(pages[q].0),
            decreases self.data.len() - p,
        {
            let page = self.data[p].0;
            assert(pages[p as int].0 == page.data@);
            if !all_ff(page.data) {
                return false;
            }
            p = p + 1;
        }
        true
    }

    fn bad_block(&self) -> (r: bool) {
        let mut bad = true;
        if self.data.len() > 0 {
            let oob = self.data[0].1;
            if oob.data.len() > 6 && oob.data[6] == 0xff {
                assert(marked_good(self.pages_view(), 0));
                bad = false;
            }
        }
        bad
    }
}

} // verus!

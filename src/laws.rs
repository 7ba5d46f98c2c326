//! Laws relating the codec, the decoder and the block layouts.

use vstd::prelude::*;
use crate::block::{
    block_size, geometry_ok, bytes_erased, bytes_ff, marked_good, AppendedBlock, Block, InterlacedBlock, PageBytes,
};
use crate::decode::error_location;
use crate::ecc::page_ecc;
use crate::extract::{blocks_of, calculated_ecc, oobs_out};

verus! {

/// The syndrome depends on the page's bytes alone: equal pages have equal syndromes.
pub proof fn lemma_ecc_deterministic(a: Seq<u8>, b: Seq<u8>)
    requires
        a == b,
    ensures
        page_ecc(a) == page_ecc(b),
        calculated_ecc(a) == calculated_ecc(b),
{
}

/// A page checked against its own syndrome shows no error.
pub proof fn lemma_self_consistent(d: Seq<u8>)
    ensures
        error_location(calculated_ecc(d) ^ calculated_ecc(d)) is None,
{
    let c = calculated_ecc(d);
    assert(c ^ c == 0) by (bit_vector);
}

/// Whether every data and OOB byte of every page is `x`.
pub open spec fn filled_with(pages: Seq<PageBytes>, x: u8) -> bool {
    forall|p: int|
        0 <= p < pages.len() ==> (forall|i: int| 0 <= i < (#[trigger] pages[p]).0.len() ==> pages[p].0[i] == x)
            && (forall|i: int| 0 <= i < pages[p].1.len() ==> pages[p].1[i] == x)
}

/// A block of `0xff` bytes is empty under both layouts.
pub proof fn lemma_ff_block_empty(pages: Seq<PageBytes>)
    requires
        filled_with(pages, 0xff),
    ensures
        InterlacedBlock::is_empty(pages),
        AppendedBlock::is_empty(pages),
{
    assert forall|p: int| 0 <= p < pages.len() implies #[trigger] bytes_erased(pages[p].0) && bytes_erased(pages[p].1) && bytes_ff(pages[p].0) by {
        assert(pages[p] == pages[p]);
    }
}

/// A block of `0xfe` bytes with some page data is empty under the interlaced
/// layout and not under the appended one.
pub proof fn lemma_fe_block_empty_interlaced_only(pages: Seq<PageBytes>)
    requires
        filled_with(pages, 0xfe),
        pages.len() > 0,
        pages[0].0.len() > 0,
    ensures
        InterlacedBlock::is_empty(pages),
        !AppendedBlock::is_empty(pages),
{
    assert forall|p: int| 0 <= p < pages.len() implies #[trigger] bytes_erased(pages[p].0) && bytes_erased(pages[p].1) by {
        assert(pages[p] == pages[p]);
    }
    assert(pages[0].0[0] == 0xfe);
    assert(!bytes_ff(pages[0].0));
}

/// A good-block marker (`0xff` at OOB byte 6) on one of the first two pages
/// makes an interlaced block good.
pub proof fn lemma_marked_interlaced_good(pages: Seq<PageBytes>, p: int)
    requires
        0 <= p < 2,
        p < pages.len(),
        pages[p].1.len() > 6,
        pages[p].1[6] == 0xff,
    ensures
        !InterlacedBlock::is_bad(pages),
{
    assert(marked_good(pages, p));
}

/// A good-block marker (`0xff` at OOB byte 6) on the first page makes an
/// appended block good.
pub proof fn lemma_marked_appended_good(pages: Seq<PageBytes>)
    requires
        pages.len() > 0,
        pages[0].1.len() > 6,
        pages[0].1[6] == 0xff,
    ensures
        !AppendedBlock::is_bad(pages),
{
    assert(marked_good(pages, 0));
}

/// An interlaced block whose first two pages both lack the good-block marker is bad.
pub proof fn lemma_unmarked_interlaced_bad(pages: Seq<PageBytes>)
    requires
        forall|p: int| 0 <= p < 2 && p < pages.len() ==> pages[p].1.len() > 6 && #[trigger] pages[p].1[6] != 0xff,
    ensures
        InterlacedBlock::is_bad(pages),
{
}

/// An appended block whose first page lacks the good-block marker is bad.
pub proof fn lemma_unmarked_appended_bad(pages: Seq<PageBytes>)
    requires
        pages.len() > 0 ==> pages[0].1.len() > 6 && pages[0].1[6] != 0xff,
    ensures
        AppendedBlock::is_bad(pages),
{
}

/// Data then OOB of each page, concatenated: the raw bytes of an interlaced block.
pub open spec fn interlaced_bytes(pages: Seq<PageBytes>) -> Seq<u8>
    decreases pages.len(),
{
    if pages.len() == 0 {
        Seq::empty()
    } else {
        interlaced_bytes(pages.drop_last()) + pages.last().0 + pages.last().1
    }
}

/// The data of each page, concatenated.
pub open spec fn data_bytes(pages: Seq<PageBytes>) -> Seq<u8>
    decreases pages.len(),
{
    if pages.len() == 0 {
        Seq::empty()
    } else {
        data_bytes(pages.drop_last()) + pages.last().0
    }
}

/// All data, then all OOB: the raw bytes of an appended block.
pub open spec fn appended_bytes(pages: Seq<PageBytes>) -> Seq<u8> {
    data_bytes(pages) + oobs_out(pages)
}

/// The raw bytes of interlaced blocks, concatenated.
pub open spec fn interlaced_dump(blocks: Seq<Seq<PageBytes>>) -> Seq<u8>
    decreases blocks.len(),
{
    if blocks.len() == 0 {
        Seq::empty()
    } else {
        interlaced_dump(blocks.drop_last()) + interlaced_bytes(blocks.last())
    }
}

/// The raw bytes of appended blocks, concatenated.
pub open spec fn appended_dump(blocks: Seq<Seq<PageBytes>>) -> Seq<u8>
    decreases blocks.len(),
{
    if blocks.len() == 0 {
        Seq::empty()
    } else {
        appended_dump(blocks.drop_last()) + appended_bytes(blocks.last())
    }
}

proof fn lemma_interlaced_pages(buf: Seq<u8>, ps: nat, os: nat, n: nat, b: nat, k: nat)
    requires
        k <= n,
        (b + 1) * block_size(ps, os, n) <= buf.len(),
    ensures
        interlaced_bytes(InterlacedBlock::layout_block(buf, ps, os, n, b).take(k as int))
            == buf.subrange((b * block_size(ps, os, n)) as int, (b * block_size(ps, os, n) + k * (ps + os)) as int),
    decreases k,
{
    let blk = InterlacedBlock::layout_block(buf, ps, os, n, b);
    let base = b * block_size(ps, os, n);
    let r = ps + os;
    if k == 0 {
        assert(k * r == 0 && base <= buf.len()) by (nonlinear_arith)
            requires k == 0, base == b * ((ps + os) * n), (b + 1) * ((ps + os) * n) <= buf.len();
        assert(blk.take(0) =~= Seq::<PageBytes>::empty());
        assert(buf.subrange((base) as int, (base + k * r) as int) =~= Seq::<u8>::empty());
    } else {
        lemma_interlaced_pages(buf, ps, os, n, b, (k - 1) as nat);
        assert(blk.take(k as int).drop_last() =~= blk.take(k - 1));
        let s = base + (k - 1) * r;
        assert(s + r == base + k * r && base + k * r <= buf.len()) by (nonlinear_arith)
            requires
                s == base + (k - 1) * r,
                k <= n,
                base == b * ((ps + os) * n),
                r == ps + os,
                (b + 1) * ((ps + os) * n) <= buf.len(),
                k >= 1,
        ;
        assert(buf.subrange((base) as int, (s) as int) + buf.subrange((s) as int, (s + ps) as int) + buf.subrange((s + ps) as int, (s + r) as int)
            =~= buf.subrange((base) as int, (base + k * r) as int));
    }
}

proof fn lemma_appended_pages(buf: Seq<u8>, ps: nat, os: nat, n: nat, b: nat, k: nat)
    requires
        k <= n,
        (b + 1) * block_size(ps, os, n) <= buf.len(),
    ensures
        data_bytes(AppendedBlock::layout_block(buf, ps, os, n, b).take(k as int))
            == buf.subrange((b * block_size(ps, os, n)) as int, (b * block_size(ps, os, n) + k * ps) as int),
        oobs_out(AppendedBlock::layout_block(buf, ps, os, n, b).take(k as int))
            == buf.subrange((b * block_size(ps, os, n) + n * ps) as int, (b * block_size(ps, os, n) + n * ps + k * os) as int),
    decreases k,
{
    let blk = AppendedBlock::layout_block(buf, ps, os, n, b);
    let base = b * block_size(ps, os, n);
    if k == 0 {
        assert(k * ps == 0 && k * os == 0 && base + n * ps <= buf.len()) by (nonlinear_arith)
            requires k == 0, base == b * ((ps + os) * n), (b + 1) * ((ps + os) * n) <= buf.len();
        assert(blk.take(0) =~= Seq::<PageBytes>::empty());
        assert(buf.subrange((base) as int, (base + k * ps) as int) =~= Seq::<u8>::empty());
        assert(buf.subrange((base + n * ps) as int, (base + n * ps + k * os) as int) =~= Seq::<u8>::empty());
    } else {
        lemma_appended_pages(buf, ps, os, n, b, (k - 1) as nat);
        assert(blk.take(k as int).drop_last() =~= blk.take(k - 1));
        let s = base + (k - 1) * ps;
        let t = base + n * ps + (k - 1) * os;
        assert(s + ps == base + k * ps && t + os == base + n * ps + k * os && base + n * ps + k * os <= buf.len()
            && base + k * ps <= base + n * ps) by (nonlinear_arith)
            requires
                s == base + (k - 1) * ps,
                t == base + n * ps + (k - 1) * os,
                k <= n,
                base == b * ((ps + os) * n),
                (b + 1) * ((ps + os) * n) <= buf.len(),
                k >= 1,
        ;
        assert(buf.subrange((base) as int, (s) as int) + buf.subrange((s) as int, (s + ps) as int) =~= buf.subrange((base) as int, (base + k * ps) as int));
        assert(buf.subrange((base + n * ps) as int, (t) as int) + buf.subrange((t) as int, (t + os) as int) =~= buf.subrange((base + n * ps) as int, (base + n * ps + k * os) as int));
    }
}

proof fn lemma_interlaced_blocks(buf: Seq<u8>, ps: nat, os: nat, n: nat, m: nat)
    requires
        geometry_ok(ps, os, n),
        buf.len() % block_size(ps, os, n) == 0,
        m <= buf.len() / block_size(ps, os, n),
    ensures
        interlaced_dump(blocks_of::<InterlacedBlock>(buf, ps, os, n).take(m as int))
            == buf.subrange(0, (m * block_size(ps, os, n)) as int),
    decreases m,
{
    let blocks = blocks_of::<InterlacedBlock>(buf, ps, os, n);
    let bs = block_size(ps, os, n);
    if m == 0 {
        assert(blocks.take(0) =~= Seq::<Seq<PageBytes>>::empty());
        assert(m * bs == 0) by (nonlinear_arith)
            requires m == 0;
        assert(buf.subrange(0, 0) =~= Seq::<u8>::empty());
    } else {
        assert(blocks.take(m as int).last() == InterlacedBlock::layout_block(buf, ps, os, n, (m - 1) as nat));
        lemma_interlaced_blocks(buf, ps, os, n, (m - 1) as nat);
        assert(blocks.take(m as int).drop_last() =~= blocks.take(m - 1));
        assert(m * bs <= buf.len() && (m - 1) * bs + bs == m * bs && n * (ps + os) == bs) by (nonlinear_arith)
            requires
                m <= buf.len() / bs,
                bs > 0,
                bs == (ps + os) * n,
                m >= 1,
        ;
        lemma_interlaced_pages(buf, ps, os, n, (m - 1) as nat, n);
        assert(InterlacedBlock::layout_block(buf, ps, os, n, (m - 1) as nat).take(n as int)
            =~= InterlacedBlock::layout_block(buf, ps, os, n, (m - 1) as nat));
        assert(buf.subrange(0, ((m - 1) * bs) as int) + buf.subrange(((m - 1) * bs) as int, (m * bs) as int) =~= buf.subrange(0, (m * bs) as int));
    }
}

proof fn lemma_appended_blocks(buf: Seq<u8>, ps: nat, os: nat, n: nat, m: nat)
    requires
        geometry_ok(ps, os, n),
        buf.len() % block_size(ps, os, n) == 0,
        m <= buf.len() / block_size(ps, os, n),
    ensures
        appended_dump(blocks_of::<AppendedBlock>(buf, ps, os, n).take(m as int))
            == buf.subrange(0, (m * block_size(ps, os, n)) as int),
    decreases m,
{
    let blocks = blocks_of::<AppendedBlock>(buf, ps, os, n);
    let bs = block_size(ps, os, n);
    if m == 0 {
        assert(blocks.take(0) =~= Seq::<Seq<PageBytes>>::empty());
        assert(m * bs == 0) by (nonlinear_arith)
            requires m == 0;
        assert(buf.subrange(0, 0) =~= Seq::<u8>::empty());
    } else {
        assert(blocks.take(m as int).last() == AppendedBlock::layout_block(buf, ps, os, n, (m - 1) as nat));
        lemma_appended_blocks(buf, ps, os, n, (m - 1) as nat);
        assert(blocks.take(m as int).drop_last() =~= blocks.take(m - 1));
        let base = (m - 1) * bs;
        assert(m * bs <= buf.len() && base + bs == m * bs && base + n * ps + n * os == m * bs) by (nonlinear_arith)
            requires
                m <= buf.len() / bs,
                bs > 0,
                bs == (ps + os) * n,
                base == (m - 1) * bs,
                m >= 1,
        ;
        lemma_appended_pages(buf, ps, os, n, (m - 1) as nat, n);
        assert(AppendedBlock::layout_block(buf, ps, os, n, (m - 1) as nat).take(n as int)
            =~= AppendedBlock::layout_block(buf, ps, os, n, (m - 1) as nat));
        assert(buf.subrange(0, (base) as int) + buf.subrange((base) as int, (base + n * ps) as int) + buf.subrange((base + n * ps) as int, (base + n * ps + n * os) as int)
            =~= buf.subrange(0, (m * bs) as int));
    }
}

/// Cutting a dump into interlaced blocks and putting each page's data and OOB
/// back together, in order, gives the dump again.
pub proof fn lemma_interlaced_round_trip(buf: Seq<u8>, page_size: nat, oob_size: nat, pages_per_block: nat)
    requires
        geometry_ok(page_size, oob_size, pages_per_block),
        buf.len() % block_size(page_size, oob_size, pages_per_block) == 0,
    ensures
        interlaced_dump(blocks_of::<InterlacedBlock>(buf, page_size, oob_size, pages_per_block)) == buf,
{
    let bs = block_size(page_size, oob_size, pages_per_block);
    let m = buf.len() / bs;
    lemma_interlaced_blocks(buf, page_size, oob_size, pages_per_block, m);
    let blocks = blocks_of::<InterlacedBlock>(buf, page_size, oob_size, pages_per_block);
    assert(blocks.take(m as int) =~= blocks);
    assert(m * bs == buf.len()) by (nonlinear_arith)
        requires m == buf.len() / bs, buf.len() % bs == 0, bs > 0;
    assert(buf.subrange(0, buf.len() as int) =~= buf);
}

/// Cutting a dump into appended blocks and putting back, block by block, the
/// data of every page and then the OOB of every page gives the dump again.
pub proof fn lemma_appended_round_trip(buf: Seq<u8>, page_size: nat, oob_size: nat, pages_per_block: nat)
    requires
        geometry_ok(page_size, oob_size, pages_per_block),
        buf.len() % block_size(page_size, oob_size, pages_per_block) == 0,
    ensures
        appended_dump(blocks_of::<AppendedBlock>(buf, page_size, oob_size, pages_per_block)) == buf,
{
    let bs = block_size(page_size, oob_size, pages_per_block);
    let m = buf.len() / bs;
    lemma_appended_blocks(buf, page_size, oob_size, pages_per_block, m);
    let blocks = blocks_of::<AppendedBlock>(buf, page_size, oob_size, pages_per_block);
    assert(blocks.take(m as int) =~= blocks);
    assert(m * bs == buf.len()) by (nonlinear_arith)
        requires m == buf.len() / bs, buf.len() % bs == 0, bs > 0;
    assert(buf.subrange(0, buf.len() as int) =~= buf);
}

} // verus!

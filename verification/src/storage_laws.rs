//! How temporary storage gives space away, and where the pages of a file lie.

use vstd::prelude::*;
use crate::codec::{encodable, encode_row, lemma_le_len};
use crate::temp_run::{blocks_of, fits_page, is_content};
use crate::temp_storage::{BlockRange, DiskWrite, TempStorageManager, below, block_at, buffer_error, chunk, disk_after, disk_after_all, free_after, is_best_fit, pages_after, run_length, some_fits, total_blocks};
use crate::value::Value;

verus! {

/// Whether a block belongs to one of some ranges.
pub open spec fn among(ranges: Seq<BlockRange>, block: int) -> bool {
    exists|k: int|
        0 <= k < ranges.len() && (#[trigger] ranges[k]).start_block <= block
            < ranges[k].start_block + ranges[k].num_blocks
}

/// Whether a block can still be given away: it was given back, or it lies behind all that were
/// ever given.
pub open spec fn is_spare(storage: &TempStorageManager, block: int) -> bool {
    among(storage.free(), block) || (storage.frontier() is Some && storage.frontier()->0 <= block)
}

proof fn lemma_free_after(free: Seq<BlockRange>, k: int, num: u64, block: int)
    requires
        0 <= k < free.len(),
        0 < num <= free[k].num_blocks,
        free[k].start_block + free[k].num_blocks <= u64::MAX,
        forall|i: int, j: int|
            0 <= i < j < free.len() ==> crate::temp_storage::apart(#[trigger] free[i], #[trigger] free[j]),
    ensures
        among(free_after(free, k, num as int), block) <==> among(free, block) && !(
        free[k].start_block <= block < free[k].start_block + num),
{
    let after = free_after(free, k, num as int);
    let others = free.update(k, free.last()).drop_last();
    let e = free[k];
    let last = free.len() - 1;
    if among(after, block) {
        let i = choose|i: int|
            0 <= i < after.len() && (#[trigger] after[i]).start_block <= block
                < after[i].start_block + after[i].num_blocks;
        if i < others.len() {
            let o = if i == k {
                last
            } else {
                i
            };
            assert(after[i] == free[o]);
            assert(free[o].start_block <= block < free[o].start_block + free[o].num_blocks);
            if o < k {
                assert(crate::temp_storage::apart(free[o], free[k]));
            } else {
                assert(crate::temp_storage::apart(free[k], free[o]));
            }
        } else {
            assert(free[k].start_block <= block < free[k].start_block + free[k].num_blocks);
        }
    }
    if among(free, block) && !(e.start_block <= block < e.start_block + num) {
        let i = choose|i: int|
            0 <= i < free.len() && (#[trigger] free[i]).start_block <= block < free[i].start_block
                + free[i].num_blocks;
        if i == k {
            let rest = after[after.len() - 1];
            assert(rest.start_block <= block < rest.start_block + rest.num_blocks);
        } else {
            let o = if i == last {
                k
            } else {
                i
            };
            assert(after[o] == free[i]);
            assert(after[o].start_block <= block < after[o].start_block + after[o].num_blocks);
        }
    }
}

/// Giving space away takes exactly the blocks that are given from those that are spare: none is
/// lost, and none can be given twice.
pub proof fn space_is_given_once(
    before: &TempStorageManager,
    after: &TempStorageManager,
    start: u64,
    num: u64,
    block: int,
)
    requires
        before.inv(),
        num > 0,
        before.has_space(num),
        before.gave_space(after, start, num),
    ensures
        is_spare(after, block) <==> is_spare(before, block) && !(start <= block < start + num),
        forall|b: int| start <= b < start + num ==> #[trigger] is_spare(before, b),
{
    before.lemma_space();
    if some_fits(before.free(), num) {
        let k = choose|k: int| #[trigger]
            is_best_fit(before.free(), num, k) && start == before.free()[k].start_block
                && after.free() == free_after(before.free(), k, num as int);
        let e = before.free()[k];
        assert(below(e, before.frontier()));
        lemma_free_after(before.free(), k, num, block);
        assert forall|b: int| start <= b < start + num implies #[trigger] is_spare(before, b) by {
            assert(e.start_block <= b < e.start_block + e.num_blocks);
        }
    } else {
        if among(before.free(), block) {
            let i = choose|i: int|
                0 <= i < before.free().len() && (#[trigger] before.free()[i]).start_block <= block
                    < before.free()[i].start_block + before.free()[i].num_blocks;
            assert(below(before.free()[i], before.frontier()));
        }
    }
}

/// Space that was given back is used before new space is taken, and of the ranges that are large
/// enough the smallest.
pub proof fn the_smallest_range_that_fits_is_used(
    before: &TempStorageManager,
    after: &TempStorageManager,
    start: u64,
    num: u64,
    i: int,
)
    requires
        before.inv(),
        num > 0,
        before.has_space(num),
        before.gave_space(after, start, num),
        0 <= i < before.free().len(),
        before.free()[i].num_blocks >= num,
    ensures
        after.frontier() == before.frontier(),
        exists|k: int|
            0 <= k < before.free().len() && (#[trigger] before.free()[k]).start_block == start && num
                <= before.free()[k].num_blocks <= before.free()[i].num_blocks,
{
    assert(some_fits(before.free(), num));
    let k = choose|k: int| #[trigger]
        is_best_fit(before.free(), num, k) && start == before.free()[k].start_block
            && after.free() == free_after(before.free(), k, num as int);
    assert(before.free()[k].start_block == start);
}

/// The pages of a file lie in its ranges, one range after the other.
pub proof fn pages_follow_their_ranges(extents: Seq<BlockRange>, k: int, i: int)
    requires
        0 <= k < extents.len(),
        0 <= i < extents[k].num_blocks,
    ensures
        block_at(extents, total_blocks(extents.take(k)) + i) == extents[k].start_block + i,
        run_length(extents, total_blocks(extents.take(k)) + i) == extents[k].num_blocks - i,
        total_blocks(extents.take(k + 1)) == total_blocks(extents.take(k)) + extents[k].num_blocks,
        total_blocks(extents.take(0)) == 0,
    decreases extents.len(),
{
    let init = extents.drop_last();
    assert(extents.take(k + 1).drop_last() =~= extents.take(k));
    assert(extents.take(0) =~= Seq::<BlockRange>::empty());
    if k == extents.len() - 1 {
        assert(extents.take(k) =~= init);
    } else {
        assert(init.take(k) =~= extents.take(k));
        assert(init[k] == extents[k]);
        pages_follow_their_ranges(init, k, i);
        lemma_total_grows(init, k + 1);
        assert(init.take(k + 1) =~= extents.take(k + 1));
    }
}

proof fn lemma_total_grows(extents: Seq<BlockRange>, k: int)
    requires
        0 <= k <= extents.len(),
    ensures
        total_blocks(extents.take(k)) <= total_blocks(extents),
    decreases extents.len(),
{
    if k == extents.len() {
        assert(extents.take(k) =~= extents);
    } else {
        assert(extents.drop_last().take(k) =~= extents.take(k));
        lemma_total_grows(extents.drop_last(), k);
    }
}

/// What is written to pages is what they hold afterwards, byte by byte, and the other pages are as
/// they were.
pub proof fn pages_hold_what_is_written(
    pages: Seq<Seq<u8>>,
    first: int,
    num: int,
    data: Seq<u8>,
    size: int,
    i: int,
    b: int,
)
    requires
        size > 0,
        0 <= first,
        0 <= num,
        first + num <= pages.len(),
        data.len() == num * size,
        0 <= i < pages.len(),
        0 <= b < size,
    ensures
        pages_after(pages, first, num, data, size).len() == pages.len(),
        first <= i < first + num ==> {
            &&& pages_after(pages, first, num, data, size)[i].len() == size
            &&& 0 <= (i - first) * size + b < data.len()
            &&& pages_after(pages, first, num, data, size)[i][b] == data[(i - first) * size + b]
        },
        !(first <= i < first + num) ==> pages_after(pages, first, num, data, size)[i] == pages[i],
{
    if first <= i < first + num {
        let k = i - first;
        assert(0 <= k * size && k * size + size <= num * size) by (nonlinear_arith)
            requires
                0 <= k < num,
                size > 0,
        ;
        assert(chunk(data, size, k)[b] == data[k * size + b]);
    }
}

/// Writing to a run of blocks changes these blocks and no other.
pub proof fn blocks_hold_what_is_written(
    disk: spec_fn(int) -> Seq<u8>,
    start: int,
    num: int,
    data: Seq<u8>,
    size: int,
    block: int,
    b: int,
)
    requires
        size > 0,
        0 <= num,
        data.len() == num * size,
        0 <= b < size,
    ensures
        start <= block < start + num ==> {
            let held = (disk_after(disk, start, num, data, size))(block);
            held.len() == size && held[b] == data[(block - start) * size + b]
        },
        !(start <= block < start + num) ==> (disk_after(disk, start, num, data, size))(block)
            == disk(block),
{
    if start <= block < start + num {
        let k = block - start;
        assert(0 <= k * size && k * size + size <= num * size) by (nonlinear_arith)
            requires
                0 <= k < num,
                size > 0,
        ;
        assert(chunk(data, size, k)[b] == data[k * size + b]);
    }
}

/// A buffer suits some pages where it is as long as they are.
pub proof fn buffers_are_as_long_as_their_pages(len: nat, num: u64, size: nat)
    requires
        len <= usize::MAX,
        size > 0,
    ensures
        buffer_error(len, num, size) is None <==> len == num * size,
{
    if num == 0 {
        assert(num * size == 0) by (nonlinear_arith)
            requires
                num == 0,
        ;
    }
}

/// A span of pages is turned down exactly where it does not lie in one range of the file.
pub proof fn spans_lie_in_one_range(storage: &TempStorageManager, f: u64, page: u64, num: u64)
    requires
        storage.inv(),
        num > 0,
    ensures
        storage.span_error(f, page, num) is None <==> storage.has_file(f) && exists|k: int|
            0 <= k < storage.extents(f).len() && #[trigger] total_blocks(storage.extents(f).take(k))
                <= page && page + num <= total_blocks(storage.extents(f).take(k))
                + storage.extents(f)[k].num_blocks,
{
    if storage.has_file(f) {
        let extents = storage.extents(f);
        if page < storage.page_count(f) {
            let k = lemma_range_of(extents, page as int);
            pages_follow_their_ranges(extents, k, page - total_blocks(extents.take(k)));
            assert(total_blocks(extents.take(k)) <= page);
        }
        if exists|k: int|
            0 <= k < extents.len() && #[trigger] total_blocks(extents.take(k)) <= page && page + num
                <= total_blocks(extents.take(k)) + extents[k].num_blocks {
            let k = choose|k: int|
                0 <= k < extents.len() && #[trigger] total_blocks(extents.take(k)) <= page && page
                    + num <= total_blocks(extents.take(k)) + extents[k].num_blocks;
            pages_follow_their_ranges(extents, k, page - total_blocks(extents.take(k)));
            lemma_total_grows(extents, k + 1);
        }
    }
}

proof fn lemma_range_of(extents: Seq<BlockRange>, page: int) -> (k: int)
    requires
        0 <= page < total_blocks(extents),
    ensures
        0 <= k < extents.len(),
        total_blocks(extents.take(k)) <= page < total_blocks(extents.take(k))
            + extents[k].num_blocks,
    decreases extents.len(),
{
    let init = extents.drop_last();
    let last = extents.len() - 1;
    assert(extents.take(last) =~= init);
    if page >= total_blocks(init) {
        last
    } else {
        let k = lemma_range_of(init, page);
        assert(init.take(k) =~= extents.take(k));
        k
    }
}

/// The blocks of some ranges are those of the first range in their order, then those of the next.
pub proof fn blocks_follow_their_ranges(ranges: Seq<BlockRange>, k: int, i: int)
    requires
        0 <= k < ranges.len(),
        0 <= i < ranges[k].num_blocks,
    ensures
        blocks_of(ranges).len() == total_blocks(ranges),
        total_blocks(ranges.take(k)) + i < total_blocks(ranges),
        blocks_of(ranges)[total_blocks(ranges.take(k)) + i] == ranges[k].start_block + i,
    decreases ranges.len(),
{
    let init = ranges.drop_last();
    lemma_blocks_len(init);
    if k == ranges.len() - 1 {
        assert(ranges.take(k) =~= init);
    } else {
        assert(init.take(k) =~= ranges.take(k));
        assert(init[k] == ranges[k]);
        blocks_follow_their_ranges(init, k, i);
    }
}

proof fn lemma_blocks_len(ranges: Seq<BlockRange>)
    ensures
        blocks_of(ranges).len() == total_blocks(ranges),
    decreases ranges.len(),
{
    if ranges.len() > 0 {
        lemma_blocks_len(ranges.drop_last());
    }
}

/// Bytes are the content of blocks where they are those of the first block, then those of the next,
/// and no more.
pub proof fn content_is_block_after_block(
    disk: spec_fn(int) -> Seq<u8>,
    blocks: Seq<int>,
    data: Seq<u8>,
    size: int,
)
    requires
        size > 0,
        forall|j: int| 0 <= j < blocks.len() ==> (#[trigger] disk(blocks[j])).len() == size,
    ensures
        is_content(disk, blocks, data, size) <==> data.len() == blocks.len() * size && forall|
            j: int,
            b: int,
        |
            0 <= j < blocks.len() && 0 <= b < size ==> #[trigger] data[j * size + b] == disk(
                blocks[j],
            )[b],
{
    if data.len() == blocks.len() * size {
        if is_content(disk, blocks, data, size) {
            assert forall|j: int, b: int|
                0 <= j < blocks.len() && 0 <= b < size implies #[trigger] data[j * size + b]
                == disk(blocks[j])[b] by {
                lemma_chunk_within(j, blocks.len() as int, size);
                assert(chunk(data, size, j)[b] == data[j * size + b]);
            }
        }
        if forall|j: int, b: int|
            0 <= j < blocks.len() && 0 <= b < size ==> #[trigger] data[j * size + b] == disk(
                blocks[j],
            )[b] {
            assert forall|j: int| 0 <= j < blocks.len() implies #[trigger] chunk(data, size, j)
                == disk(blocks[j]) by {
                lemma_chunk_within(j, blocks.len() as int, size);
                assert forall|b: int| 0 <= b < size implies chunk(data, size, j)[b] == disk(
                    blocks[j],
                )[b] by {
                    assert(chunk(data, size, j)[b] == data[j * size + b]);
                }
                assert(disk(blocks[j]).len() == size);
                assert(chunk(data, size, j) =~= disk(blocks[j]));
            }
        }
    }
}

proof fn lemma_chunk_within(j: int, n: int, size: int)
    requires
        0 <= j < n,
        size > 0,
    ensures
        0 <= j * size,
        j * size + size <= n * size,
{
    assert(0 <= j * size && j * size + size <= n * size) by (nonlinear_arith)
        requires
            0 <= j < n,
            size > 0,
    ;
}

/// Blocks of a table that are read together lie one after the other in the bytes.
pub proof fn table_blocks_lie_one_after_the_other(
    data: Seq<u8>,
    size: int,
    n: nat,
    i: int,
    b: int,
)
    requires
        size > 0,
        data.len() == n * size,
        0 <= i < n,
        0 <= b < size,
    ensures
        crate::scan::blocks_in(data, size, n).len() == n,
        crate::scan::blocks_in(data, size, n)[i].len() == size,
        crate::scan::blocks_in(data, size, n)[i][b] == data[i * size + b],
{
    lemma_chunk_within(i, n as int, size);
    assert((i + 1) * size == i * size + size) by (nonlinear_arith);
}

/// Of several writes, the last one to a block is what it holds; a block that none is to stays as it
/// was.
pub proof fn the_last_write_counts(
    disk: spec_fn(int) -> Seq<u8>,
    writes: Seq<DiskWrite>,
    size: int,
    block: int,
    k: int,
)
    requires
        -1 <= k < writes.len(),
        k >= 0 ==> writes[k].range.start_block <= block < writes[k].range.start_block
            + writes[k].range.num_blocks,
        forall|i: int|
            k < i < writes.len() ==> !((#[trigger] writes[i]).range.start_block <= block
                < writes[i].range.start_block + writes[i].range.num_blocks),
    ensures
        (disk_after_all(disk, writes, size))(block) == (if k < 0 {
            disk(block)
        } else {
            let first = (block - writes[k].range.start_block) * size;
            writes[k].data@.subrange(first, first + size)
        }),
    decreases writes.len(),
{
    if writes.len() > 0 {
        let init = writes.drop_last();
        let last = writes.len() - 1;
        if k < last {
            assert(!(writes[last].range.start_block <= block < writes[last].range.start_block
                + writes[last].range.num_blocks));
            assert forall|i: int| k < i < init.len() implies !((
            #[trigger] init[i]).range.start_block <= block < init[i].range.start_block
                + init[i].range.num_blocks) by {
                assert(init[i] == writes[i]);
            }
            if k >= 0 {
                assert(init[k] == writes[k]);
            }
            the_last_write_counts(disk, init, size, block, k);
        }
    }
}

/// A row fits a page where its bytes, with four for their number, leave room for the two of the
/// row count.
pub proof fn rows_fit_by_their_bytes(row: Seq<Value>, size: nat)
    ensures
        fits_page(row, size) <==> encodable(row) && encode_row(row).len() <= u32::MAX
            && encode_row(row).len() + 4 + 2 <= size,
{
    lemma_le_len(encode_row(row).len(), 4);
}

} // verus!

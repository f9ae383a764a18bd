//! How an external sort divides its memory.

use vstd::prelude::*;
use crate::join_plan::{at_least, clamp, clamped, max_of, saturated, saturating_product};
use crate::row::Row;

verus! {

pub const MAX_SORT_SPILL_BATCH_PAGES: usize = 512;

pub const MAX_SORT_MERGE_READER_PAGES: usize = 128;

pub const MAX_SORT_MERGE_TOTAL_READER_PAGES: usize = 128;

pub const MIN_SORT_MERGE_READER_PAGES: usize = 8;

pub const SORT_MISC_RESERVE_BYTES: usize = 0x4_0000;

/// How many rows a list has room for after one more is appended: twice as many where it was
/// full.
pub open spec fn grown(len: int, cap: int) -> int {
    if len < cap {
        cap
    } else if cap == 0 {
        4
    } else {
        saturated(2 * cap)
    }
}

pub fn projected_vec_capacity_after_push(len: usize, cap: usize) -> (r: usize)
    ensures
        r as int == grown(len as int, cap as int),
{
    if len < cap {
        cap
    } else if cap == 0 {
        4
    } else {
        saturating_product(2, cap)
    }
}

/// The pages that a spill writes at a time: an eighth of the memory.
pub open spec fn spill_pages(total: int, block: int) -> int {
    clamped(
        total / saturated(8 * at_least(block, 1)),
        4,
        MAX_SORT_SPILL_BATCH_PAGES as int,
    )
}

pub fn choose_sort_spill_batch_pages(total_budget_bytes: usize, block_size: usize) -> (r: usize)
    ensures
        r as int == spill_pages(total_budget_bytes as int, block_size as int),
        4 <= r <= MAX_SORT_SPILL_BATCH_PAGES,
{
    let unit: usize = saturating_product(8, max_of(block_size, 1));
    clamp(total_budget_bytes / unit, 4, MAX_SORT_SPILL_BATCH_PAGES)
}

/// The memory that is kept back for the writer of a spill.
pub open spec fn writer_reserve(total: int, block: int) -> int {
    saturated(saturated((spill_pages(total, block) + 1) * block) + SORT_MISC_RESERVE_BYTES)
}

pub fn sort_writer_reserve_bytes(total_budget_bytes: usize, block_size: usize) -> (r: usize)
    ensures
        r as int == writer_reserve(total_budget_bytes as int, block_size as int),
{
    let pages: usize = choose_sort_spill_batch_pages(total_budget_bytes, block_size);
    let bytes: usize = saturating_product(pages + 1, block_size);
    bytes.saturating_add(SORT_MISC_RESERVE_BYTES)
}

/// The memory for the rows of a run: at least a block.
pub open spec fn row_budget(total: int, block: int) -> int {
    at_least(
        at_least(total - writer_reserve(total, at_least(block, 1)), 0),
        at_least(block, 1),
    )
}

pub fn sort_row_budget_bytes(sort_run_bytes: usize, block_size: usize) -> (r: usize)
    ensures
        r as int == row_budget(sort_run_bytes as int, block_size as int),
{
    let block: usize = max_of(block_size, 1);
    let reserve: usize = sort_writer_reserve_bytes(sort_run_bytes, block);
    max_of(sort_run_bytes.saturating_sub(reserve), block)
}

/// The memory for the readers of a merge: a quarter, but no more than a fixed number of pages.
pub open spec fn merge_reader_budget(total: int, block: int) -> int {
    clamped(
        total / 4,
        block,
        at_least(saturated(MAX_SORT_MERGE_TOTAL_READER_PAGES * block), block),
    )
}

pub fn sort_merge_reader_budget_bytes(total_budget_bytes: usize, block_size: usize) -> (r: usize)
    ensures
        r as int == merge_reader_budget(total_budget_bytes as int, block_size as int),
{
    let most: usize = max_of(
        saturating_product(MAX_SORT_MERGE_TOTAL_READER_PAGES, block_size),
        block_size,
    );
    clamp(total_budget_bytes / 4, block_size, most)
}

/// How many runs are merged at a time, so that each reader has enough pages.
pub open spec fn fan_in(total: int, block: int) -> int {
    let pages = at_least(
        merge_reader_budget(total, at_least(block, 1)) / at_least(block, 1),
        1,
    );
    at_least(pages / MIN_SORT_MERGE_READER_PAGES as int, 2)
}

pub fn choose_sort_merge_fan_in(sort_run_bytes: usize, block_size: usize) -> (r: usize)
    ensures
        r as int == fan_in(sort_run_bytes as int, block_size as int),
        r >= 2,
{
    let block: usize = max_of(block_size, 1);
    let pages: usize = max_of(sort_merge_reader_budget_bytes(sort_run_bytes, block) / block, 1);
    max_of(pages / MIN_SORT_MERGE_READER_PAGES, 2)
}

/// The pages that each reader of a merge asks for at a time.
pub open spec fn merge_reader_pages(total: int, block: int, runs: int) -> int {
    if runs > 0 {
        clamped(
            merge_reader_budget(total, at_least(block, 1)) / saturated(
                runs * at_least(block, 1),
            ),
            1,
            MAX_SORT_MERGE_READER_PAGES as int,
        )
    } else {
        16
    }
}

pub fn choose_merge_reader_pages(
    sort_run_bytes: usize,
    block_size: usize,
    num_runs: usize,
) -> (r: usize)
    ensures
        r as int == merge_reader_pages(
            sort_run_bytes as int,
            block_size as int,
            num_runs as int,
        ),
        1 <= r <= MAX_SORT_MERGE_READER_PAGES,
{
    if num_runs == 0 {
        return 16;
    }
    let block: usize = max_of(block_size, 1);
    let budget: usize = sort_merge_reader_budget_bytes(sort_run_bytes, block);
    let unit: usize = saturating_product(num_runs, block);
    proof {
        assert(num_runs * block >= 1) by (nonlinear_arith)
            requires
                num_runs >= 1,
                block >= 1,
        ;
    }
    clamp(budget / unit, 1, MAX_SORT_MERGE_READER_PAGES)
}

/// What the rows of a run would take with one more row.
pub open spec fn projected(bytes_used: int, row_bytes: int, capacity: int) -> int {
    saturated(saturated(bytes_used + row_bytes) + saturated(capacity * vstd::layout::size_of::<Row>() as int))
}

pub fn projected_sort_bytes(bytes_used: usize, row_bytes: usize, capacity: usize) -> (r: usize)
    ensures
        r as int == projected(bytes_used as int, row_bytes as int, capacity as int),
{
    let a: usize = bytes_used.saturating_add(row_bytes);
    a.saturating_add(saturating_product(capacity, core::mem::size_of::<Row>()))
}

} // verus!

//! How memory and storage are shared out, said of the shares.

use vstd::prelude::*;
use crate::context::{query_budget, sort_run_size};
use crate::join_plan::{at_least, clamped, saturated};
use crate::scan::batch_size;
use crate::sort_plan::{fan_in, grown, merge_reader_pages, projected, row_budget, spill_pages, writer_reserve};

verus! {

/// A number that is held between two others is the nearest to it among those between them.
pub proof fn clamping_takes_the_nearest(n: int, low: int, high: int, other: int)
    requires
        low <= high,
        low <= other <= high,
    ensures
        low <= clamped(n, low, high) <= high,
        n <= other ==> clamped(n, low, high) <= other,
        other <= n ==> other <= clamped(n, low, high),
        low <= n <= high ==> clamped(n, low, high) == n,
{
}

/// A number that is saturated is the nearest to it that fits.
pub proof fn saturating_takes_the_nearest(n: int, other: int)
    requires
        0 <= other <= usize::MAX,
    ensures
        0 <= saturated(n) <= usize::MAX,
        n <= other ==> saturated(n) <= other,
        other <= n ==> other <= saturated(n),
        0 <= n <= usize::MAX ==> saturated(n) == n,
{
}

/// The larger of two numbers is one of them, and not less than either.
pub proof fn the_larger_one_is_taken(n: int, low: int)
    ensures
        at_least(n, low) >= n,
        at_least(n, low) >= low,
        at_least(n, low) == n || at_least(n, low) == low,
{
}

/// A sort works with four fifths of the memory that two cached blocks leave, rounded down, but with
/// no less than a block.
pub proof fn sorts_get_four_fifths(limit: int, block: int)
    requires
        0 <= limit,
        0 <= block,
    ensures
        sort_run_size(limit, block) >= block,
        sort_run_size(limit, block) > block ==> ({
            let left = limit - 2 * block;
            left >= 0 && 5 * sort_run_size(limit, block) <= 4 * left < 5 * (sort_run_size(
                limit,
                block,
            ) + 1)
        }),
        4 * (limit - 2 * block) >= 5 * (block + 1) ==> sort_run_size(limit, block) > block,
{
}

/// A query gets the memory that two cached blocks and some slack leave, but no less than a block.
/// The slack is a sixteenth of the memory, yet at least two and at most eight megabytes.
pub proof fn queries_leave_some_slack(limit: int, block: int)
    requires
        0 <= limit,
        0 <= block,
    ensures
        query_budget(limit, block) >= block,
        query_budget(limit, block) > block ==> ({
            let slack = limit - 2 * block - query_budget(limit, block);
            &&& 2 * 1024 * 1024 <= slack <= 8 * 1024 * 1024
            &&& slack < 8 * 1024 * 1024 && slack > 2 * 1024 * 1024 ==> 16 * slack <= limit < 16 * (
            slack + 1)
            &&& slack == 2 * 1024 * 1024 ==> limit < 16 * (slack + 1)
            &&& slack == 8 * 1024 * 1024 ==> limit >= 16 * slack
        }),
        limit - 2 * block - 8 * 1024 * 1024 > block ==> query_budget(limit, block) > block,
{
}

/// A list keeps its capacity while there is room in it, and doubles it where there is none.
pub proof fn lists_double_where_they_are_full(len: int, cap: int)
    requires
        0 <= len <= cap,
        2 * cap <= usize::MAX,
    ensures
        len < cap ==> grown(len, cap) == cap,
        len == cap && cap > 0 ==> grown(len, cap) == 2 * cap,
        grown(0, 0) == 4,
        grown(len, cap) > len,
{
}

/// A run is written in batches of an eighth of the memory, but of four pages at least and of five
/// hundred and twelve at most.
pub proof fn runs_are_written_in_eighths(total: int, block: int)
    requires
        0 <= total,
        0 < block,
        8 * block <= usize::MAX,
    ensures
        4 <= spill_pages(total, block) <= 512,
        spill_pages(total, block) > 4 ==> spill_pages(total, block) * (8 * block) <= total,
        spill_pages(total, block) < 512 ==> total < (spill_pages(total, block) + 1) * (8 * block),
{
    let unit = 8 * block;
    let q = total / unit;
    let n = spill_pages(total, block);
    assert(q * unit <= total < (q + 1) * unit) by {
        vstd::arithmetic::div_mod::lemma_fundamental_div_mod(total, unit);
        vstd::arithmetic::div_mod::lemma_mod_bound(total, unit);
        assert(unit * q == q * unit) by (nonlinear_arith);
        assert((q + 1) * unit == q * unit + unit) by (nonlinear_arith);
    }
    if n > 4 {
        assert(n <= q);
        assert(n * unit <= q * unit) by (nonlinear_arith)
            requires
                n <= q,
                unit > 0,
        ;
    }
    if n < 512 {
        assert(q <= n);
        assert((q + 1) * unit <= (n + 1) * unit) by (nonlinear_arith)
            requires
                q <= n,
                unit > 0,
        ;
    }
}

/// Rows get the memory that writing a run leaves, but no less than a block.
pub proof fn rows_get_what_writing_leaves(total: int, block: int)
    requires
        0 <= total,
        0 < block,
    ensures
        row_budget(total, block) >= block,
        row_budget(total, block) > block ==> row_budget(total, block) + writer_reserve(total, block)
            == total,
        total - writer_reserve(total, block) > block ==> row_budget(total, block) > block,
{
}

/// A merge has at least two inputs, and reads at least a page of each at a time.
pub proof fn merges_have_two_inputs(total: int, block: int, runs: int)
    requires
        0 <= total,
        0 < block,
        0 < runs,
    ensures
        fan_in(total, block) >= 2,
        merge_reader_pages(total, block, runs) >= 1,
{
}

/// What a sort takes with a row more is what it takes now, the row, and the list of rows.
pub proof fn a_row_more_takes_its_bytes(used: int, row: int, capacity: int)
    requires
        0 <= used,
        0 <= row,
        0 <= capacity,
        used + row + capacity * vstd::layout::size_of::<crate::row::Row>() <= usize::MAX,
    ensures
        projected(used, row, capacity) == used + row + capacity * vstd::layout::size_of::<
            crate::row::Row,
        >(),
{
    let s = vstd::layout::size_of::<crate::row::Row>() as int;
    assert(capacity * s >= 0) by (nonlinear_arith)
        requires
            capacity >= 0,
            s >= 0,
    ;
}

/// A scan asks for all blocks that are left, unless they are more than five hundred and twelve or
/// take more than half of the memory that is there; it always asks for one.
pub proof fn scans_ask_for_what_fits(remaining: int, available: int, block: int)
    requires
        0 < remaining,
        0 <= available,
        0 < block,
    ensures
        1 <= batch_size(remaining, available, block) <= remaining,
        batch_size(remaining, available, block) <= 512,
        batch_size(remaining, available, block) > 1 ==> batch_size(remaining, available, block) * (2
            * block) <= available,
        batch_size(remaining, available, block) < remaining && batch_size(
            remaining,
            available,
            block,
        ) < 512 ==> available < (batch_size(remaining, available, block) + 1) * (2 * block),
{
    let unit = 2 * block;
    let q = available / unit;
    let n = batch_size(remaining, available, block);
    vstd::arithmetic::div_mod::lemma_fundamental_div_mod(available, unit);
    vstd::arithmetic::div_mod::lemma_mod_bound(available, unit);
    assert(unit * q == q * unit) by (nonlinear_arith);
    assert((q + 1) * unit == q * unit + unit) by (nonlinear_arith);
    if n > 1 {
        assert(n * unit <= q * unit) by (nonlinear_arith)
            requires
                n <= q,
                unit > 0,
        ;
    }
    if n < remaining && n < 512 {
        assert((q + 1) * unit <= (n + 1) * unit) by (nonlinear_arith)
            requires
                q <= n,
                unit > 0,
        ;
    }
}

} // verus!

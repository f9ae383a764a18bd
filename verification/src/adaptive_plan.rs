//! How an adaptive join divides its memory.

use vstd::prelude::*;
use crate::join_plan::{at_least, clamp, clamped, max_of, saturated, saturating_product};
use crate::join_table::{key_heap_size, key_heap_size_of};
use crate::row::{Row, heap_size, in_bounds, pick, string_capacity, string_lengths};
use crate::value::{Data, Value};
use crate::views::{positions, values_of};

verus! {

pub const MIN_ADAPTIVE_PARTITIONS: usize = 4;

pub const MAX_ADAPTIVE_PARTITIONS: usize = 20;

/// The most pages that finishing the files of one side takes: a batch for each partition, and one
/// for the rows that go with the partition in memory.
pub const FINISH_PAGES: usize = 10752;

pub const TARGET_ADAPTIVE_PARTITION_PAGES: usize = 800;

pub const IN_MEMORY_HASH_BUILD_DEN: usize = 3;

pub const HYBRID_RESIDENT_DEN: usize = 6;

pub const SORT_MERGE_SWITCH_MULTIPLIER: usize = 4;

pub const ESTIMATED_AVG_COL_BYTES: usize = 24;

pub const ESTIMATED_ROW_OVERHEAD_BYTES: usize = 32;

pub const HASH_BUILD_ROW_SAFETY_OVERHEAD_BYTES: usize = 96;

/// How many partitions an adaptive join makes.
pub fn choose_adaptive_partitions(sort_run_bytes: usize, block_size: usize) -> (r: usize)
    ensures
        r as int == clamped(
            sort_run_bytes as int / at_least(
                saturated(TARGET_ADAPTIVE_PARTITION_PAGES * block_size),
                1,
            ),
            MIN_ADAPTIVE_PARTITIONS as int,
            MAX_ADAPTIVE_PARTITIONS as int,
        ),
        MIN_ADAPTIVE_PARTITIONS <= r <= MAX_ADAPTIVE_PARTITIONS,
{
    let target: usize = max_of(
        saturating_product(TARGET_ADAPTIVE_PARTITION_PAGES, block_size),
        1,
    );
    clamp(sort_run_bytes / target, MIN_ADAPTIVE_PARTITIONS, MAX_ADAPTIVE_PARTITIONS)
}

/// The pages that a sequential reader asks for at a time, where several share the memory.
pub fn choose_reader_batch(sort_run_bytes: usize, block_size: usize, num_concurrent: usize) -> (r:
    usize)
    ensures
        r as int == clamped(
            sort_run_bytes as int / at_least(num_concurrent as int, 1) / at_least(
                block_size as int,
                1,
            ),
            16,
            128,
        ),
        16 <= r <= 128,
{
    let per_reader: usize = sort_run_bytes / max_of(num_concurrent, 1);
    clamp(per_reader / max_of(block_size, 1), 16, 128)
}

/// The pages that each partition writer gathers.
pub fn choose_adaptive_writer_batch(
    sort_run_bytes: usize,
    block_size: usize,
    num_partitions: usize,
) -> (r: usize)
    ensures
        r as int == clamped(
            sort_run_bytes as int / 4 / at_least(num_partitions as int, 1) / at_least(
                block_size as int,
                1,
            ),
            16,
            256,
        ),
        16 <= r <= 256,
{
    let budget: usize = sort_run_bytes / 4;
    let per_writer: usize = budget / max_of(num_partitions, 1);
    clamp(per_writer / max_of(block_size, 1), 16, 256)
}

/// The memory for a build side that is kept whole: a third, at least a block.
pub fn choose_in_memory_build_budget_bytes(sort_run_bytes: usize, block_size: usize) -> (r: usize)
    ensures
        r as int == at_least(sort_run_bytes as int / 3, at_least(block_size as int, 1)),
{
    max_of(sort_run_bytes / IN_MEMORY_HASH_BUILD_DEN, max_of(block_size, 1))
}

/// The memory for the partition that is kept: a sixth, at least a block.
pub fn choose_hybrid_resident_budget_bytes(sort_run_bytes: usize, block_size: usize) -> (r: usize)
    ensures
        r as int == at_least(sort_run_bytes as int / 6, at_least(block_size as int, 1)),
{
    max_of(sort_run_bytes / HYBRID_RESIDENT_DEN, max_of(block_size, 1))
}

/// The size from which on both inputs have to be for a sort-merge join.
pub fn sort_merge_threshold_bytes(sort_run_bytes: usize, block_size: usize) -> (r: usize)
    ensures
        r as int == saturated(
            at_least(sort_run_bytes as int / 3, at_least(block_size as int, 1)) * 4,
        ),
{
    saturating_product(
        choose_in_memory_build_budget_bytes(sort_run_bytes, block_size),
        SORT_MERGE_SWITCH_MULTIPLIER,
    )
}

/// The size that a row with so many columns is expected to have.
pub fn estimated_row_width_bytes(columns: usize) -> (r: usize)
    ensures
        r as int == saturated(
            saturated(columns * ESTIMATED_AVG_COL_BYTES) + ESTIMATED_ROW_OVERHEAD_BYTES,
        ),
{
    saturating_product(columns, ESTIMATED_AVG_COL_BYTES).saturating_add(
        ESTIMATED_ROW_OVERHEAD_BYTES,
    )
}

/// The memory that the key filters of so many partitions take.
pub fn estimate_partition_filter_bytes(num_partitions: usize) -> (r: usize)
    ensures
        r as int == saturated(
            saturated(num_partitions * crate::bloom::PROBE_PRUNE_FILTER_WORDS) * 8,
        ),
{
    saturating_product(
        saturating_product(num_partitions, crate::bloom::PROBE_PRUNE_FILTER_WORDS),
        8,
    )
}

/// The list of key fields that a key of so many columns needs.
pub open spec fn key_fields(columns: nat) -> Option<nat> {
    if columns <= 1 {
        None
    } else {
        Some(columns)
    }
}

/// Whether so many bytes may be what a build row takes in a hash table: the sizes of the row and
/// of its key, for some capacities of their strings, and what an entry needs.
pub open spec fn is_build_size(row: Seq<Value>, at: Seq<int>, bytes: int) -> bool {
    exists|row_caps: Seq<usize>, key_caps: Seq<usize>|
        row_caps.len() == string_lengths(row).len() && key_caps.len() == string_lengths(
            pick(row, at),
        ).len() && bytes == saturated(
            saturated(#[trigger] heap_size(row.len(), row_caps) as int) + saturated(
                #[trigger] key_heap_size(key_fields(at.len()), key_caps) as int,
            ) + HASH_BUILD_ROW_SAFETY_OVERHEAD_BYTES,
        )
}

/// An estimate of the memory that a build row takes in a hash table: the row, its key and what
/// an entry needs. It goes by the capacities that the strings happen to have.
pub fn estimate_hash_build_row_bytes(row: &Row, key_indices: &[usize]) -> (r: usize)
    requires
        in_bounds(positions(key_indices@), row@.len() as int),
    ensures
        is_build_size(row@, positions(key_indices@), r as int),
{
    let ghost at = positions(key_indices@);
    let ghost key = pick(row@, at);
    let row_bytes: usize = row.estimate_heap_size();
    let values = row.values();
    let mut caps: Vec<usize> = Vec::new();
    let mut i: usize = 0;
    proof {
        assert(key.take(0) =~= Seq::<Value>::empty());
        assert(values_of(values@).len() == values@.len());
    }
    while i < key_indices.len()
        invariant
            i <= key_indices@.len(),
            at == positions(key_indices@),
            key == pick(row@, at),
            values_of(values@) == row@,
            values_of(values@).len() == values@.len(),
            in_bounds(at, row@.len() as int),
            caps@.len() == string_lengths(key.take(i as int)).len(),
        decreases key_indices@.len() - i,
    {
        proof {
            assert(at[i as int] == key_indices@[i as int]);
            assert(key.take(i + 1).drop_last() =~= key.take(i as int));
            assert(key.take(i + 1).last() == row@[at[i as int]]);
        }
        if let Data::String(s) = &values[key_indices[i]] {
            caps.push(string_capacity(s));
        }
        i += 1;
    }
    proof {
        assert(key.take(i as int) =~= key);
    }
    let fields: Option<usize> = if key_indices.len() <= 1 {
        None
    } else {
        Some(key_indices.len())
    };
    let key_bytes: usize = key_heap_size_of(fields, caps.as_slice());
    proof {
        let rc = choose|rc: Seq<usize>|
            rc.len() == string_lengths(row@).len() && row_bytes == (if #[trigger] heap_size(
                row@.len(),
                rc,
            ) > usize::MAX {
                usize::MAX as nat
            } else {
                heap_size(row@.len(), rc)
            });
        assert(row_bytes as int == saturated(heap_size(row@.len(), rc) as int));
        assert(key_bytes as int == saturated(
            key_heap_size(key_fields(key_indices@.len()), caps@) as int,
        ));
    }
    row_bytes.saturating_add(key_bytes).saturating_add(HASH_BUILD_ROW_SAFETY_OVERHEAD_BYTES)
}

} // verus!

//! How a join is set up: its keys, and how its memory is divided.

use vstd::prelude::*;
use crate::query::{ComparisionOperator, ComparisionValue, Condition, Operand, Predicate, conditions};
use crate::row::{RowSchema, column_position, in_bounds};
use crate::value::{DataType, Value, has_type, values_equal};
use crate::views::positions;

verus! {

broadcast use crate::query::lemma_conditions_push;

/// The positions of the two columns that a condition equates, the left side's first; `None`
/// where the condition is no equality of a column of each side.
pub open spec fn equated(ls: Seq<Seq<char>>, rs: Seq<Seq<char>>, c: Condition) -> Option<
    (int, int),
> {
    match c.operand {
        Operand::Column(other) => if c.operator != ComparisionOperator::EQ {
            None
        } else if ls.contains(c.column) && rs.contains(other) {
            Some((column_position(ls, c.column), column_position(rs, other)))
        } else if rs.contains(c.column) && ls.contains(other) {
            Some((column_position(ls, other), column_position(rs, c.column)))
        } else {
            None
        },
        Operand::Literal(_) => None,
    }
}

/// The pairs of key columns, in the order of the conditions.
pub open spec fn key_pairs(ls: Seq<Seq<char>>, rs: Seq<Seq<char>>, cs: Seq<Condition>) -> Seq<
    (int, int),
>
    decreases cs.len(),
{
    if cs.len() == 0 {
        Seq::empty()
    } else {
        let before = key_pairs(ls, rs, cs.drop_last());
        match equated(ls, rs, cs.last()) {
            Some(p) => before.push(p),
            None => before,
        }
    }
}

/// The conditions that equate no key columns, in order.
pub open spec fn residual(ls: Seq<Seq<char>>, rs: Seq<Seq<char>>, cs: Seq<Condition>) -> Seq<
    Condition,
>
    decreases cs.len(),
{
    if cs.len() == 0 {
        Seq::empty()
    } else {
        let before = residual(ls, rs, cs.drop_last());
        match equated(ls, rs, cs.last()) {
            Some(_) => before,
            None => before.push(cs.last()),
        }
    }
}

/// Splits the predicates of a join into key columns and the rest.
pub fn split_join_predicates(
    left_schema: &RowSchema,
    right_schema: &RowSchema,
    predicates: &[Predicate],
) -> (r: (Vec<usize>, Vec<usize>, Vec<Predicate>))
    ensures
        ({
            let pairs = key_pairs(left_schema@, right_schema@, conditions(predicates@));
            &&& positions(r.0@) == pairs.map_values(|p: (int, int)| p.0)
            &&& positions(r.1@) == pairs.map_values(|p: (int, int)| p.1)
            &&& conditions(r.2@) == residual(
                left_schema@,
                right_schema@,
                conditions(predicates@),
            )
        }),
        r.0@.len() == r.1@.len(),
        in_bounds(positions(r.0@), left_schema@.len() as int),
        in_bounds(positions(r.1@), right_schema@.len() as int),
{
    let ghost ls = left_schema@;
    let ghost rs = right_schema@;
    let ghost cs = conditions(predicates@);
    let ghost first = |p: (int, int)| p.0;
    let ghost second = |p: (int, int)| p.1;
    let mut left_keys: Vec<usize> = Vec::new();
    let mut right_keys: Vec<usize> = Vec::new();
    let mut extra: Vec<Predicate> = Vec::new();
    let mut i: usize = 0;
    proof {
        assert(cs.take(0) =~= Seq::<Condition>::empty());
        assert(positions(left_keys@) =~= key_pairs(ls, rs, cs.take(0)).map_values(first));
        assert(positions(right_keys@) =~= key_pairs(ls, rs, cs.take(0)).map_values(second));
        assert(conditions(extra@) =~= residual(ls, rs, cs.take(0)));
    }
    while i < predicates.len()
        invariant
            i <= predicates@.len(),
            ls == left_schema@,
            rs == right_schema@,
            cs == conditions(predicates@),
            first == (|p: (int, int)| p.0),
            second == (|p: (int, int)| p.1),
            left_keys@.len() == right_keys@.len(),
            positions(left_keys@) == key_pairs(ls, rs, cs.take(i as int)).map_values(first),
            positions(right_keys@) == key_pairs(ls, rs, cs.take(i as int)).map_values(second),
            conditions(extra@) == residual(ls, rs, cs.take(i as int)),
            in_bounds(positions(left_keys@), ls.len() as int),
            in_bounds(positions(right_keys@), rs.len() as int),
        decreases predicates@.len() - i,
    {
        let pred = &predicates[i];
        let ghost c = cs[i as int];
        proof {
            assert(c == pred@);
            assert(cs.take(i + 1).drop_last() =~= cs.take(i as int));
            assert(cs.take(i + 1).last() == c);
        }
        let ghost before = key_pairs(ls, rs, cs.take(i as int));
        let ghost lk = positions(left_keys@);
        let ghost rk = positions(right_keys@);
        let found: Option<(usize, usize)> = match (pred.operator, &pred.value) {
            (ComparisionOperator::EQ, ComparisionValue::Column(other)) => {
                let l_in_left = left_schema.index_of(pred.column_name.as_str());
                let r_in_right = right_schema.index_of(other.as_str());
                let l_in_right = right_schema.index_of(pred.column_name.as_str());
                let r_in_left = left_schema.index_of(other.as_str());
                match (l_in_left, r_in_right) {
                    (Some(li), Some(ri)) => Some((li, ri)),
                    _ => match (l_in_right, r_in_left) {
                        (Some(ri), Some(li)) => Some((li, ri)),
                        _ => None,
                    },
                }
            },
            _ => None,
        };
        match found {
            Some((li, ri)) => {
                left_keys.push(li);
                right_keys.push(ri);
                proof {
                    let p = (li as int, ri as int);
                    assert(equated(ls, rs, c) == Some(p));
                    assert(positions(left_keys@) =~= lk.push(li as int));
                    assert(positions(right_keys@) =~= rk.push(ri as int));
                    assert(before.push(p).map_values(first) =~= before.map_values(first).push(
                        li as int,
                    ));
                    assert(before.push(p).map_values(second) =~= before.map_values(second).push(
                        ri as int,
                    ));
                }
            },
            None => {
                extra.push(pred.clone());
            },
        }
        i = i + 1;
    }
    assert(cs.take(i as int) =~= cs);
    (left_keys, right_keys, extra)
}

/// On columns of one type that holds no floating-point numbers, the same key is an equal value:
/// joining by key is what the equality predicate asks for.
pub proof fn same_key_is_equal_value(a: Value, b: Value, t: DataType)
    requires
        has_type(a, t),
        has_type(b, t),
        t != DataType::Float32,
        t != DataType::Float64,
    ensures
        a == b <==> values_equal(a, b),
{
    match (a, b) {
        (Value::Str(x), Value::Str(y)) => {
            crate::value::equal_strings_are_the_same(x, y);
        },
        _ => {},
    }
}

pub const MIN_HASH_JOIN_PARTITIONS: usize = 8;

pub const MAX_HASH_JOIN_PARTITIONS: usize = 32;

pub const TARGET_PARTITION_PAGES: usize = 256;

pub const HASH_JOIN_MAX_REPARTITION_DEPTH: usize = 3;

/// Room for what the end of a partitioning writes at most: a batch of each writer of both sides.
/// There is a batch to spare.
pub const SPLIT_PAGES: usize = 8704;

pub const HASH_JOIN_BUILD_READER_PAGES: usize = 128;

pub const HASH_JOIN_PROBE_READER_PAGES: usize = 128;

pub const HASH_JOIN_BUILD_MISC_RESERVE_BYTES: usize = 0x4_0000;

pub const HASH_JOIN_ENTRY_OVERHEAD_BYTES: usize = 64;

pub const MAX_BNLJ_OUTER_BATCH_PAGES: usize = 64;

/// A number brought into a range.
pub open spec fn clamped(n: int, low: int, high: int) -> int {
    if n < low {
        low
    } else if n > high {
        high
    } else {
        n
    }
}

/// A number that does not go beyond what a machine word holds.
pub open spec fn saturated(n: int) -> int {
    if n > usize::MAX {
        usize::MAX as int
    } else if n < 0 {
        0
    } else {
        n
    }
}

pub open spec fn at_least(n: int, low: int) -> int {
    if n < low {
        low
    } else {
        n
    }
}

pub(crate) fn clamp(n: usize, low: usize, high: usize) -> (r: usize)
    requires
        low <= high,
    ensures
        r as int == clamped(n as int, low as int, high as int),
{
    if n < low {
        low
    } else if n > high {
        high
    } else {
        n
    }
}

pub(crate) fn saturating_product(a: usize, b: usize) -> (r: usize)
    ensures
        r as int == saturated(a * b),
{
    match a.checked_mul(b) {
        Some(n) => n,
        None => usize::MAX,
    }
}

pub(crate) fn max_of(a: usize, b: usize) -> (r: usize)
    ensures
        r as int == at_least(a as int, b as int),
{
    if a < b {
        b
    } else {
        a
    }
}

/// How many partitions a hash join makes: enough that each has about the target number of pages.
pub fn choose_num_partitions(sort_run_bytes: usize, block_size: usize) -> (r: usize)
    ensures
        r as int == clamped(
            sort_run_bytes as int / at_least(saturated(TARGET_PARTITION_PAGES * block_size), 1),
            MIN_HASH_JOIN_PARTITIONS as int,
            MAX_HASH_JOIN_PARTITIONS as int,
        ),
        MIN_HASH_JOIN_PARTITIONS <= r <= MAX_HASH_JOIN_PARTITIONS,
{
    let target: usize = max_of(saturating_product(TARGET_PARTITION_PAGES, block_size), 1);
    clamp(sort_run_bytes / target, MIN_HASH_JOIN_PARTITIONS, MAX_HASH_JOIN_PARTITIONS)
}

/// How many pages each partition writer gathers: a quarter of the memory, shared out.
pub fn choose_writer_batch(sort_run_bytes: usize, block_size: usize, num_partitions: usize) -> (r:
    usize)
    ensures
        r as int == clamped(
            sort_run_bytes as int / 4 / at_least(num_partitions as int, 1) / at_least(
                block_size as int,
                1,
            ),
            4,
            128,
        ),
        4 <= r <= 128,
{
    let budget: usize = sort_run_bytes / 4;
    let per_writer: usize = budget / max_of(num_partitions, 1);
    clamp(per_writer / max_of(block_size, 1), 4, 128)
}

/// How many bytes the build side of a partition may take: what the readers' buffers and a
/// reserve leave, but at least a block.
pub fn choose_hash_build_budget_bytes(sort_run_bytes: usize, block_size: usize) -> (r: usize)
    ensures
        ({
            let block = at_least(block_size as int, 1);
            r as int == at_least(
                saturated(
                    saturated(sort_run_bytes - saturated(256 * block))
                        - HASH_JOIN_BUILD_MISC_RESERVE_BYTES,
                ),
                block,
            )
        }),
{
    let block: usize = max_of(block_size, 1);
    let readers: usize = HASH_JOIN_BUILD_READER_PAGES + HASH_JOIN_PROBE_READER_PAGES;
    let reader_reserve: usize = saturating_product(readers, block);
    max_of(
        sort_run_bytes.saturating_sub(reader_reserve).saturating_sub(
            HASH_JOIN_BUILD_MISC_RESERVE_BYTES,
        ),
        block,
    )
}

/// How many bytes of outer rows a nested loop takes at a time: an eighth of the memory in whole
/// pages, at least one and at most sixty-four.
pub fn choose_bnlj_outer_batch_bytes(sort_run_bytes: usize, block_size: usize) -> (r: usize)
    ensures
        ({
            let block = at_least(block_size as int, 1);
            let pages = at_least(sort_run_bytes as int / block, 1);
            r as int == saturated(clamped(pages / 8, 1, 64) * block)
        }),
{
    let block: usize = max_of(block_size, 1);
    let total_pages: usize = max_of(sort_run_bytes / block, 1);
    let batch_pages: usize = clamp(total_pages / 8, 1, MAX_BNLJ_OUTER_BATCH_PAGES);
    saturating_product(batch_pages, block)
}

/// How many pages the inner side of a nested loop is written in at a time.
pub fn choose_spill_batch(sort_run_bytes: usize, block_size: usize) -> (r: usize)
    ensures
        r as int == clamped(sort_run_bytes as int / at_least(block_size as int, 1), 1, 64),
        1 <= r <= 64,
{
    clamp(sort_run_bytes / max_of(block_size, 1), 1, 64)
}

} // verus!

//! Which join operator a list of predicates calls for.

use vstd::multiset::Multiset;
use vstd::prelude::*;
use crate::adaptive_join::{AdaptiveEquiJoinOperator, prefers_left};
use crate::adaptive_spec::{JoinOutputMode, SemijoinKeepSide};
use crate::error::DbError;
use crate::filter::{first_missing_column, resolved};
use crate::hash_join::HashJoinOperator;
use crate::join_plan::{equated, key_pairs, residual, split_join_predicates};
use crate::join_spec::JoinOn;
use crate::join_step::Side;
use crate::loop_join::{BlockNestedLoopJoinOperator, spills_left};
use crate::query::{Condition, Operand, Predicate, conditions};
use crate::row::{RowSchema, column_position, column_position_is_first};
use crate::sort_merge::named_first;
use crate::temp_storage::TempStorageManager;
use crate::value::Value;
use crate::views::positions;

verus! {

/// A join operator of some kind.
pub enum JoinOperator {
    Hash(HashJoinOperator),
    Loop(BlockNestedLoopJoinOperator),
    Adaptive(AdaptiveEquiJoinOperator),
}

/// What a list of conditions joins two relations on: the equalities between columns of both
/// sides are keys, the others are tested on the merged row.
pub open spec fn joined_on(ls: Seq<Seq<char>>, rs: Seq<Seq<char>>, cs: Seq<Condition>) -> JoinOn {
    let pairs = key_pairs(ls, rs, cs);
    JoinOn {
        left_keys: pairs.map_values(|p: (int, int)| p.0),
        right_keys: pairs.map_values(|p: (int, int)| p.1),
        extra: residual(ls, rs, cs).map_values(|c: Condition| resolved(ls + rs, c)),
        by_order: false,
    }
}

/// The column that the conditions which are no keys read in vain.
pub open spec fn missing_for_join(
    ls: Seq<Seq<char>>,
    rs: Seq<Seq<char>>,
    cs: Seq<Condition>,
) -> Option<Seq<char>> {
    first_missing_column(ls + rs, residual(ls, rs, cs))
}

/// The keys of a join are columns that are the first of their names.
proof fn lemma_keys_named_first(ls: Seq<Seq<char>>, rs: Seq<Seq<char>>, cs: Seq<Condition>)
    ensures
        named_first(ls, key_pairs(ls, rs, cs).map_values(|p: (int, int)| p.0)),
        named_first(rs, key_pairs(ls, rs, cs).map_values(|p: (int, int)| p.1)),
    decreases cs.len(),
{
    let pairs = key_pairs(ls, rs, cs);
    let first = pairs.map_values(|p: (int, int)| p.0);
    let second = pairs.map_values(|p: (int, int)| p.1);
    if cs.len() > 0 {
        let init = cs.drop_last();
        let before = key_pairs(ls, rs, init);
        let bf = before.map_values(|p: (int, int)| p.0);
        let bs = before.map_values(|p: (int, int)| p.1);
        lemma_keys_named_first(ls, rs, init);
        if let Some(p) = equated(ls, rs, cs.last()) {
            let c = cs.last();
            if let Operand::Column(other) = c.operand {
                if ls.contains(c.column) && rs.contains(other) {
                    column_position_is_first(ls, c.column);
                    column_position_is_first(rs, other);
                } else {
                    column_position_is_first(ls, other);
                    column_position_is_first(rs, c.column);
                }
            }
        }
        assert forall|i: int| 0 <= i < first.len() implies column_position(
            ls,
            ls[#[trigger] first[i]],
        ) == first[i] by {
            if i < bf.len() {
                assert(first[i] == bf[i]);
            }
        }
        assert forall|i: int| 0 <= i < second.len() implies column_position(
            rs,
            rs[#[trigger] second[i]],
        ) == second[i] by {
            if i < bs.len() {
                assert(second[i] == bs[i]);
            }
        }
    }
}

/// Whether an operator is a fresh join on what the conditions say.
pub open spec fn is_fresh_join(
    j: JoinOperator,
    ls: Seq<Seq<char>>,
    rs: Seq<Seq<char>>,
    cs: Seq<Condition>,
) -> bool {
    let on = joined_on(ls, rs, cs);
    match j {
        JoinOperator::Hash(h) => {
            &&& h.on() == on
            &&& h.schema_view() == ls + rs
            &&& h.left_len() == ls.len()
            &&& h.right_len() == rs.len()
            &&& h.left_rows().len() == 0
            &&& h.right_rows().len() == 0
            &&& h.emitted() == Multiset::<Seq<Value>>::empty()
            &&& h.faithful()
            &&& !h.failed()
            &&& !h.ended()
            &&& forall|s: Side| !(#[trigger] h.exhausted(s))
            &&& h.files() == Set::<u64>::empty()
            &&& forall|s: &TempStorageManager| s.inv() ==> #[trigger] h.inv(s)
        },
        JoinOperator::Loop(h) => {
            &&& h.on() == on
            &&& h.schema_view() == ls + rs
            &&& h.left_len() == ls.len()
            &&& h.right_len() == rs.len()
            &&& h.left_rows().len() == 0
            &&& h.right_rows().len() == 0
            &&& h.emitted() == Multiset::<Seq<Value>>::empty()
            &&& h.faithful()
            &&& !h.failed()
            &&& !h.ended()
            &&& forall|s: Side| !(#[trigger] h.exhausted(s))
            &&& h.files() == Set::<u64>::empty()
            &&& forall|s: &TempStorageManager| s.inv() ==> #[trigger] h.inv(s)
        },
        JoinOperator::Adaptive(h) => {
            &&& h.on() == on
            &&& h.left_len() == ls.len()
            &&& h.right_len() == rs.len()
            &&& h.left_rows().len() == 0
            &&& h.right_rows().len() == 0
            &&& h.emitted() == Multiset::<Seq<Value>>::empty()
            &&& h.faithful()
            &&& !h.failed()
            &&& !h.ended()
            &&& h.reserved() == 0
            &&& h.files() == Set::<u64>::empty()
            &&& forall|s: &TempStorageManager| s.inv() ==> #[trigger] h.inv(s)
        },
    }
}

/// Without keys, all conditions are left over.
proof fn lemma_no_keys(ls: Seq<Seq<char>>, rs: Seq<Seq<char>>, cs: Seq<Condition>)
    requires
        key_pairs(ls, rs, cs).len() == 0,
    ensures
        joined_on(ls, rs, cs).left_keys == Seq::<int>::empty(),
        joined_on(ls, rs, cs).right_keys == Seq::<int>::empty(),
{
    assert(joined_on(ls, rs, cs).left_keys =~= Seq::<int>::empty());
    assert(joined_on(ls, rs, cs).right_keys =~= Seq::<int>::empty());
}

/// Builds a join: a hash join where there are keys, a nested loop where there are none. The
/// hints are expected numbers of rows, as the bits of 64 bit floats; they tell which side a nested
/// loop writes to temporary storage.
pub fn build_join_impl(
    left_schema: &RowSchema,
    right_schema: &RowSchema,
    predicates: &[Predicate],
    left_rows_hint: Option<u64>,
    right_rows_hint: Option<u64>,
    sort_run_bytes: usize,
) -> (r: Result<JoinOperator, DbError>)
    ensures
        ({
            let cs = conditions(predicates@);
            let missing = missing_for_join(left_schema@, right_schema@, cs);
            match r {
                Ok(j) => {
                    &&& missing is None
                    &&& is_fresh_join(j, left_schema@, right_schema@, cs)
                    &&& if key_pairs(left_schema@, right_schema@, cs).len() > 0 {
                        j is Hash
                    } else {
                        j matches JoinOperator::Loop(h) && h.left_is_inner() == spills_left(
                            left_rows_hint,
                            right_rows_hint,
                        )
                    }
                },
                Err(e) => e matches DbError::ColumnNotFound(c) && Some(c@) == missing,
            }
        }),
{
    let ghost cs = conditions(predicates@);
    let (left_keys, right_keys, extra) = split_join_predicates(
        left_schema,
        right_schema,
        predicates,
    );
    let ghost on = joined_on(left_schema@, right_schema@, cs);
    proof {
        assert(positions(left_keys@).len() == left_keys@.len());
        assert(positions(left_keys@) == on.left_keys);
    }
    if left_keys.len() > 0 {
        match HashJoinOperator::new(
            left_schema,
            right_schema,
            left_keys,
            right_keys,
            extra.as_slice(),
            sort_run_bytes,
        ) {
            Ok(h) => Ok(JoinOperator::Hash(h)),
            Err(e) => Err(e),
        }
    } else {
        proof {
            lemma_no_keys(left_schema@, right_schema@, cs);
        }
        match BlockNestedLoopJoinOperator::new(
            left_schema,
            right_schema,
            extra.as_slice(),
            left_rows_hint,
            right_rows_hint,
            sort_run_bytes,
        ) {
            Ok(h) => Ok(JoinOperator::Loop(h)),
            Err(e) => Err(e),
        }
    }
}

/// Builds a join without hints.
pub fn build_join(
    left_schema: &RowSchema,
    right_schema: &RowSchema,
    predicates: &[Predicate],
    sort_run_bytes: usize,
) -> (r: Result<JoinOperator, DbError>)
    ensures
        ({
            let cs = conditions(predicates@);
            let missing = missing_for_join(left_schema@, right_schema@, cs);
            match r {
                Ok(j) => {
                    &&& missing is None
                    &&& is_fresh_join(j, left_schema@, right_schema@, cs)
                    &&& if key_pairs(left_schema@, right_schema@, cs).len() > 0 {
                        j is Hash
                    } else {
                        j matches JoinOperator::Loop(h) && h.left_is_inner() == spills_left(
                            None,
                            None,
                        )
                    }
                },
                Err(e) => e matches DbError::ColumnNotFound(c) && Some(c@) == missing,
            }
        }),
{
    build_join_impl(left_schema, right_schema, predicates, None, None, sort_run_bytes)
}

/// Builds a join with the expected numbers of rows.
pub fn build_join_hinted(
    left_schema: &RowSchema,
    right_schema: &RowSchema,
    predicates: &[Predicate],
    left_rows_hint: u64,
    right_rows_hint: u64,
    sort_run_bytes: usize,
) -> (r: Result<JoinOperator, DbError>)
    ensures
        ({
            let cs = conditions(predicates@);
            let missing = missing_for_join(left_schema@, right_schema@, cs);
            match r {
                Ok(j) => {
                    &&& missing is None
                    &&& is_fresh_join(j, left_schema@, right_schema@, cs)
                    &&& if key_pairs(left_schema@, right_schema@, cs).len() > 0 {
                        j is Hash
                    } else {
                        j matches JoinOperator::Loop(h) && h.left_is_inner() == spills_left(
                            Some(left_rows_hint),
                            Some(right_rows_hint),
                        )
                    }
                },
                Err(e) => e matches DbError::ColumnNotFound(c) && Some(c@) == missing,
            }
        }),
{
    build_join_impl(
        left_schema,
        right_schema,
        predicates,
        Some(left_rows_hint),
        Some(right_rows_hint),
        sort_run_bytes,
    )
}

/// The output of a semijoin that keeps a side.
pub open spec fn keep_mode(side: SemijoinKeepSide) -> JoinOutputMode {
    match side {
        SemijoinKeepSide::Left => JoinOutputMode::KeepLeft,
        SemijoinKeepSide::Right => JoinOutputMode::KeepRight,
    }
}

/// Builds an adaptive join where there are keys, a nested loop where there are none. A nested
/// loop gives out merged rows whatever the output mode is.
pub fn build_adaptive_join(
    left_schema: &RowSchema,
    right_schema: &RowSchema,
    predicates: &[Predicate],
    left_rows_hint: Option<u64>,
    right_rows_hint: Option<u64>,
    both_large: bool,
    output_mode: JoinOutputMode,
    sort_run_bytes: usize,
) -> (r: Result<JoinOperator, DbError>)
    ensures
        ({
            let cs = conditions(predicates@);
            let missing = missing_for_join(left_schema@, right_schema@, cs);
            match r {
                Ok(j) => {
                    &&& missing is None
                    &&& is_fresh_join(j, left_schema@, right_schema@, cs)
                    &&& if key_pairs(left_schema@, right_schema@, cs).len() > 0 {
                        j matches JoinOperator::Adaptive(h) && {
                            &&& h.mode() == output_mode
                            &&& h.builds_left() == prefers_left(
                                output_mode,
                                left_rows_hint,
                                right_rows_hint,
                            )
                            &&& h.merges() == (output_mode is Full && left_rows_hint is Some
                                && right_rows_hint is Some && both_large)
                            &&& h.schema_view() == match output_mode {
                                JoinOutputMode::Full => left_schema@ + right_schema@,
                                JoinOutputMode::KeepLeft => left_schema@,
                                JoinOutputMode::KeepRight => right_schema@,
                            }
                        }
                    } else {
                        j matches JoinOperator::Loop(h) && h.left_is_inner() == spills_left(
                            left_rows_hint,
                            right_rows_hint,
                        )
                    }
                },
                Err(e) => e matches DbError::ColumnNotFound(c) && Some(c@) == missing,
            }
        }),
{
    let ghost cs = conditions(predicates@);
    let (left_keys, right_keys, extra) = split_join_predicates(
        left_schema,
        right_schema,
        predicates,
    );
    let ghost on = joined_on(left_schema@, right_schema@, cs);
    proof {
        assert(positions(left_keys@).len() == left_keys@.len());
        assert(positions(left_keys@) == on.left_keys);
        assert(positions(right_keys@) == on.right_keys);
        lemma_keys_named_first(left_schema@, right_schema@, cs);
    }
    if left_keys.len() > 0 {
        match AdaptiveEquiJoinOperator::new(
            left_schema,
            right_schema,
            left_keys,
            right_keys,
            extra.as_slice(),
            left_rows_hint,
            right_rows_hint,
            both_large,
            output_mode,
            sort_run_bytes,
        ) {
            Ok(h) => Ok(JoinOperator::Adaptive(h)),
            Err(e) => Err(e),
        }
    } else {
        proof {
            lemma_no_keys(left_schema@, right_schema@, cs);
        }
        match BlockNestedLoopJoinOperator::new(
            left_schema,
            right_schema,
            extra.as_slice(),
            left_rows_hint,
            right_rows_hint,
            sort_run_bytes,
        ) {
            Ok(h) => Ok(JoinOperator::Loop(h)),
            Err(e) => Err(e),
        }
    }
}

/// Builds a semijoin: the rows of one side that have a match on the other one.
pub fn build_semijoin_hinted(
    left_schema: &RowSchema,
    right_schema: &RowSchema,
    predicates: &[Predicate],
    keep_side: SemijoinKeepSide,
    left_rows_hint: u64,
    right_rows_hint: u64,
    sort_run_bytes: usize,
) -> (r: Result<JoinOperator, DbError>)
    ensures
        ({
            let cs = conditions(predicates@);
            let missing = missing_for_join(left_schema@, right_schema@, cs);
            match r {
                Ok(j) => {
                    &&& missing is None
                    &&& is_fresh_join(j, left_schema@, right_schema@, cs)
                    &&& if key_pairs(left_schema@, right_schema@, cs).len() > 0 {
                        j matches JoinOperator::Adaptive(h) && {
                            &&& h.mode() == keep_mode(keep_side)
                            &&& h.builds_left() == (keep_side is Right)
                            &&& !h.merges()
                            &&& h.schema_view() == match keep_side {
                                SemijoinKeepSide::Left => left_schema@,
                                SemijoinKeepSide::Right => right_schema@,
                            }
                        }
                    } else {
                        j matches JoinOperator::Loop(h) && h.left_is_inner() == spills_left(
                            Some(left_rows_hint),
                            Some(right_rows_hint),
                        )
                    }
                },
                Err(e) => e matches DbError::ColumnNotFound(c) && Some(c@) == missing,
            }
        }),
{
    let output_mode = match keep_side {
        SemijoinKeepSide::Left => JoinOutputMode::KeepLeft,
        SemijoinKeepSide::Right => JoinOutputMode::KeepRight,
    };
    build_adaptive_join(
        left_schema,
        right_schema,
        predicates,
        Some(left_rows_hint),
        Some(right_rows_hint),
        false,
        output_mode,
        sort_run_bytes,
    )
}

} // verus!

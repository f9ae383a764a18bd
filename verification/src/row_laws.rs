//! Which column an error names, and how the size of a row grows.

use vstd::prelude::*;
use vstd::utf8::encode_utf8;
use crate::filter::first_missing_column;
use crate::join_table::key_heap_size;
use crate::query::{Condition, Operand};
use crate::row::{all_present, first_missing, first_out_of_bounds, heap_size, pick, string_lengths};
use crate::value::Value;

verus! {

/// The column that is missing is one of those asked for, and all before it are there.
pub proof fn the_first_missing_column_is_named(schema: Seq<Seq<char>>, names: Seq<Seq<char>>, k: int)
    requires
        0 <= k < names.len(),
        !schema.contains(names[k]),
        forall|i: int| 0 <= i < k ==> schema.contains(#[trigger] names[i]),
    ensures
        first_missing(schema, names) == names[k],
    decreases k,
{
    if k > 0 {
        let rest = names.drop_first();
        assert(schema.contains(names[0]));
        assert forall|i: int| 0 <= i < k - 1 implies schema.contains(#[trigger] rest[i]) by {
            assert(rest[i] == names[i + 1]);
        }
        the_first_missing_column_is_named(schema, rest, k - 1);
    }
}

/// The position that is out of bounds is the first one that is.
pub proof fn the_first_position_out_of_bounds_is_named(at: Seq<int>, len: int, k: int)
    requires
        0 <= k < at.len(),
        !(0 <= at[k] < len),
        forall|i: int| 0 <= i < k ==> 0 <= #[trigger] at[i] < len,
    ensures
        first_out_of_bounds(at, len) == at[k],
    decreases k,
{
    if k > 0 {
        let rest = at.drop_first();
        assert(0 <= at[0] < len);
        assert forall|i: int| 0 <= i < k - 1 implies 0 <= #[trigger] rest[i] < len by {
            assert(rest[i] == at[i + 1]);
        }
        the_first_position_out_of_bounds_is_named(rest, len, k - 1);
    }
}

/// Whether a schema has all columns that a condition reads.
pub open spec fn has_all(schema: Seq<Seq<char>>, c: Condition) -> bool {
    schema.contains(c.column) && (c.operand matches Operand::Column(other) ==> schema.contains(
        other,
    ))
}

/// The column that is missing for conditions is one that the first condition reads for which one is
/// missing, its left side before its right side.
pub proof fn the_first_condition_in_vain_is_named(
    schema: Seq<Seq<char>>,
    cs: Seq<Condition>,
    k: int,
)
    requires
        0 <= k < cs.len(),
        !has_all(schema, cs[k]),
        forall|i: int| 0 <= i < k ==> has_all(schema, #[trigger] cs[i]),
    ensures
        first_missing_column(schema, cs) is Some,
        !schema.contains(cs[k].column) ==> first_missing_column(schema, cs) == Some(cs[k].column),
        schema.contains(cs[k].column) ==> (cs[k].operand matches Operand::Column(other)
            && first_missing_column(schema, cs) == Some(other)),
    decreases k,
{
    if k > 0 {
        let rest = cs.drop_first();
        assert(has_all(schema, cs[0]));
        assert forall|i: int| 0 <= i < k - 1 implies has_all(schema, #[trigger] rest[i]) by {
            assert(rest[i] == cs[i + 1]);
        }
        the_first_condition_in_vain_is_named(schema, rest, k - 1);
    }
}

/// No column is missing where the schema has all that the conditions read.
pub proof fn no_condition_is_in_vain(schema: Seq<Seq<char>>, cs: Seq<Condition>)
    requires
        forall|i: int| 0 <= i < cs.len() ==> has_all(schema, #[trigger] cs[i]),
    ensures
        first_missing_column(schema, cs) is None,
    decreases cs.len(),
{
    if cs.len() > 0 {
        let rest = cs.drop_first();
        assert(has_all(schema, cs[0]));
        assert forall|i: int| 0 <= i < rest.len() implies has_all(schema, #[trigger] rest[i]) by {
            assert(rest[i] == cs[i + 1]);
        }
        no_condition_is_in_vain(schema, rest);
    }
}

/// A value more adds its own size to that of a row; a string more adds its capacity and sixteen
/// bytes besides.
pub proof fn sizes_grow_by_their_values(columns: nat, capacities: Seq<usize>, capacity: usize)
    ensures
        heap_size(0, Seq::empty()) == vstd::layout::size_of::<crate::row::Row>() + 16,
        heap_size(columns + 1, capacities) == heap_size(columns, capacities)
            + vstd::layout::size_of::<crate::value::Data>(),
        heap_size(columns, capacities.push(capacity)) == heap_size(columns, capacities) + capacity
            + 16,
{
    let d = vstd::layout::size_of::<crate::value::Data>();
    assert((columns + 1) * d == columns * d + d) by (nonlinear_arith);
    assert(0 * d == 0) by (nonlinear_arith);
    assert(capacities.push(capacity).drop_last() =~= capacities);
}

/// The strings of a row count in their order, by their length in bytes.
pub proof fn strings_count_by_their_bytes(row: Seq<Value>)
    ensures
        string_lengths(row) == row.filter(|v: Value| v is Str).map_values(
            |v: Value| encode_utf8(v->Str_0).len(),
        ),
    decreases row.len(),
{
    reveal(Seq::filter);
    let f = |v: Value| v is Str;
    let g = |v: Value| encode_utf8(v->Str_0).len();
    if row.len() > 0 {
        let init = row.drop_last();
        strings_count_by_their_bytes(init);
        if row.last() is Str {
            assert(init.filter(f).push(row.last()).map_values(g) =~= init.filter(f).map_values(
                g,
            ).push(g(row.last())));
        }
    } else {
        assert(row.filter(f).map_values(g) =~= Seq::<nat>::empty());
    }
}

/// Each value of a projected row is the one at the position that was asked for.
pub proof fn picked_values_come_from_their_positions(row: Seq<Value>, at: Seq<int>, k: int)
    requires
        0 <= k < at.len(),
    ensures
        pick(row, at).len() == at.len(),
        pick(row, at)[k] == row[at[k]],
{
}

/// Whether a column has a name.
pub open spec fn has_name(schema: Seq<Seq<char>>, name: Seq<char>) -> bool {
    exists|j: int| 0 <= j < schema.len() && #[trigger] schema[j] == name
}

/// All columns are there where each name is that of a column.
pub proof fn names_are_there_where_columns_have_them(schema: Seq<Seq<char>>, names: Seq<Seq<char>>)
    ensures
        all_present(schema, names) <==> forall|i: int|
            0 <= i < names.len() ==> has_name(schema, #[trigger] names[i]),
{
    if all_present(schema, names) {
        assert forall|i: int| 0 <= i < names.len() implies has_name(schema, #[trigger] names[i]) by {
            assert(schema.contains(names[i]));
            let j = choose|j: int| 0 <= j < schema.len() && schema[j] == names[i];
            assert(schema[j] == names[i]);
        }
    }
    if forall|i: int| 0 <= i < names.len() ==> has_name(schema, #[trigger] names[i]) {
        assert forall|i: int| 0 <= i < names.len() implies schema.contains(#[trigger] names[i]) by {
            assert(has_name(schema, names[i]));
            let j = choose|j: int| 0 <= j < schema.len() && #[trigger] schema[j] == names[i];
            assert(schema.contains(schema[j]));
        }
    }
}

/// A key takes its own size, that of each of several fields and of their list, and that of its
/// strings.
pub proof fn key_sizes_grow_by_their_fields(n: nat, capacities: Seq<usize>, capacity: usize)
    ensures
        key_heap_size(None, Seq::empty()) == vstd::layout::size_of::<crate::join_table::JoinKey>(),
        key_heap_size(Some(0), capacities) == key_heap_size(None, capacities) + 16,
        key_heap_size(Some(n + 1), capacities) == key_heap_size(Some(n), capacities)
            + vstd::layout::size_of::<crate::join_table::KeyField>(),
        key_heap_size(None, capacities.push(capacity)) == key_heap_size(None, capacities) + capacity
            + 16,
        key_heap_size(Some(n), capacities.push(capacity)) == key_heap_size(Some(n), capacities)
            + capacity + 16,
{
    let d = vstd::layout::size_of::<crate::join_table::KeyField>();
    assert((n + 1) * d == n * d + d) by (nonlinear_arith);
    assert(0 * d == 0) by (nonlinear_arith);
    assert(capacities.push(capacity).drop_last() =~= capacities);
}

} // verus!

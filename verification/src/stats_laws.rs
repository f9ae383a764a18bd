//! What statistics tell of the values that were seen.

use vstd::prelude::*;
use crate::floats::Comparison;
use crate::streaming::{SeenColumn, SeenTable, column_named, greatest, least, never_falls, unseen, with_value};
use crate::value::{DataType, Value, order_is_antisymmetric, order_of};
use crate::value_laws::is_of;

verus! {

/// Values in order count as ordered, and only those.
pub proof fn ordered_values_never_fall(values: Seq<Value>, t: DataType)
    requires
        forall|i: int|
            0 <= i < values.len() ==> is_of(#[trigger] values[i], t) && order_of(
                values[i],
                values[i],
            ) is Some,
    ensures
        never_falls(values) <==> forall|i: int, j: int|
            0 <= i < j < values.len() ==> order_of(#[trigger] values[i], #[trigger] values[j])
                != Some(Comparison::Greater),
{
    if never_falls(values) {
        assert forall|i: int, j: int| 0 <= i < j < values.len() implies order_of(
            #[trigger] values[i],
            #[trigger] values[j],
        ) != Some(Comparison::Greater) by {
            crate::streaming::never_falling_is_ordered(values, t, i, j);
        }
    } else {
        let k = choose|k: int|
            #![trigger values[k]]
            0 < k < values.len() && order_of(values[k], values[k - 1]) == Some(Comparison::Less);
        order_is_antisymmetric(values[k], values[k - 1]);
        assert(order_of(values[k - 1], values[k]) == Some(Comparison::Greater));
    }
}

/// The least and the greatest of some values are among them, and none is less or greater.
pub proof fn ends_are_among_the_values(values: Seq<Value>, t: DataType, i: int)
    requires
        0 <= i < values.len(),
        forall|i: int|
            0 <= i < values.len() ==> is_of(#[trigger] values[i], t) && order_of(
                values[i],
                values[i],
            ) is Some,
    ensures
        least(values) is Some,
        values.contains(least(values)->0),
        order_of(values[i], least(values)->0) != Some(Comparison::Less),
        greatest(values) is Some,
        values.contains(greatest(values)->0),
        order_of(values[i], greatest(values)->0) != Some(Comparison::Greater),
{
    crate::streaming::least_is_a_lower_bound(values, t);
    crate::streaming::greatest_is_an_upper_bound(values, t);
}

/// Nothing is the least or the greatest of no values.
pub proof fn no_values_have_no_ends()
    ensures
        least(Seq::empty()) is None,
        greatest(Seq::empty()) is None,
{
}

/// A column is found by its name, the first one of that name.
pub proof fn columns_are_found_by_name(columns: Seq<SeenColumn>, name: Seq<char>)
    ensures
        match column_named(columns, name) {
            Some(i) => 0 <= i < columns.len() && columns[i].name == name && forall|j: int|
                0 <= j < i ==> (#[trigger] columns[j]).name != name,
            None => forall|j: int| 0 <= j < columns.len() ==> (#[trigger] columns[j]).name != name,
        },
    decreases columns.len(),
{
    if columns.len() > 0 {
        let init = columns.drop_last();
        columns_are_found_by_name(init, name);
        match column_named(init, name) {
            Some(i) => {
                assert forall|j: int| 0 <= j < i implies (#[trigger] columns[j]).name != name by {
                    assert(columns[j] == init[j]);
                }
            },
            None => {
                assert forall|j: int| 0 <= j < init.len() implies (#[trigger] columns[j]).name
                    != name by {
                    assert(columns[j] == init[j]);
                }
            },
        }
    }
}

/// A value that is seen comes behind those of its column, and changes nothing else; one of a column
/// that there is not changes nothing.
pub proof fn values_are_seen_in_their_column(t: SeenTable, column: int, v: Value, other: int)
    requires
        0 <= other < t.columns.len(),
    ensures
        ({
            let after = with_value(t, column, v);
            &&& after.rows == t.rows
            &&& after.columns.len() == t.columns.len()
            &&& after.columns[other].name == t.columns[other].name
            &&& after.columns[other].values == (if other == column {
                t.columns[other].values.push(v)
            } else {
                t.columns[other].values
            })
        }),
{
}

/// A new table has its columns in their order, and nothing was seen of them.
pub proof fn nothing_was_seen_of_a_new_table(names: Seq<Seq<char>>, i: int)
    requires
        0 <= i < names.len(),
    ensures
        unseen(names).rows == 0,
        unseen(names).columns.len() == names.len(),
        unseen(names).columns[i].name == names[i],
        unseen(names).columns[i].values.len() == 0,
{
}

} // verus!

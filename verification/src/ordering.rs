//! The order of rows by sort keys.

use vstd::prelude::*;
use crate::floats::Comparison;
use crate::row::Row;
use crate::value::{Data, DataType, Value, has_type, order_is_antisymmetric, order_is_transitive_within_a_type, order_of};
use crate::views::values_of;

verus! {

broadcast use crate::views::lemma_rows_of_push;

/// A column to sort by, and in which direction.
#[derive(Clone, Copy, Debug, PartialEq, Eq, Structural)]
pub struct SortKey {
    pub idx: usize,
    pub ascending: bool,
}

/// Whether two values are of one type.
pub open spec fn same_type(a: Value, b: Value) -> bool {
    match (a, b) {
        (Value::Int32(_), Value::Int32(_)) => true,
        (Value::Int64(_), Value::Int64(_)) => true,
        (Value::Float32(_), Value::Float32(_)) => true,
        (Value::Float64(_), Value::Float64(_)) => true,
        (Value::Str(_), Value::Str(_)) => true,
        _ => false,
    }
}

/// How a sort orders two values of a column. Values that do not compare, and values of different
/// types, count as equal.
pub open spec fn sort_order(a: Value, b: Value) -> Comparison {
    if same_type(a, b) {
        match order_of(a, b) {
            Some(c) => c,
            None => Comparison::Equal,
        }
    } else {
        Comparison::Equal
    }
}

/// A comparison in the direction of a sort key.
pub open spec fn directed(c: Comparison, ascending: bool) -> Comparison {
    if ascending {
        c
    } else {
        c.flipped()
    }
}

/// How two rows compare by sort keys: by the first key on which they differ.
pub open spec fn row_order(keys: Seq<SortKey>, a: Seq<Value>, b: Seq<Value>) -> Comparison
    decreases keys.len(),
{
    if keys.len() == 0 {
        Comparison::Equal
    } else {
        let k = keys[0];
        let c = directed(sort_order(a[k.idx as int], b[k.idx as int]), k.ascending);
        if c == Comparison::Equal {
            row_order(keys.drop_first(), a, b)
        } else {
            c
        }
    }
}

/// How two keys compare: by the first value in which they differ.
pub open spec fn key_order(a: Seq<Value>, b: Seq<Value>) -> Comparison
    decreases a.len(),
{
    if a.len() == 0 || b.len() == 0 {
        Comparison::Equal
    } else {
        let c = sort_order(a[0], b[0]);
        if c == Comparison::Equal {
            key_order(a.drop_first(), b.drop_first())
        } else {
            c
        }
    }
}

/// Whether a row may come before another one.
pub open spec fn not_after(keys: Seq<SortKey>, a: Seq<Value>, b: Seq<Value>) -> bool {
    row_order(keys, a, b) != Comparison::Greater
}

/// Whether rows are in order.
pub open spec fn sorted(keys: Seq<SortKey>, rows: Seq<Seq<Value>>) -> bool {
    forall|i: int, j: int|
        0 <= i < j < rows.len() ==> not_after(keys, #[trigger] rows[i], #[trigger] rows[j])
}

/// Whether all sort keys are columns of rows of that length.
pub open spec fn keys_within(keys: Seq<SortKey>, len: nat) -> bool {
    forall|k: int| 0 <= k < keys.len() ==> (#[trigger] keys[k]).idx < len
}

/// Whether a row's sort columns have the given types, and none holds a NaN.
pub open spec fn row_typed(keys: Seq<SortKey>, types: Seq<DataType>, row: Seq<Value>) -> bool {
    &&& keys.len() == types.len()
    &&& forall|k: int|
        0 <= k < keys.len() ==> has_type(row[#[trigger] keys[k].idx as int], types[k]) && order_of(
            row[keys[k].idx as int],
            row[keys[k].idx as int],
        ) is Some
}

pub open spec fn all_typed(
    keys: Seq<SortKey>,
    types: Seq<DataType>,
    rows: Seq<Seq<Value>>,
) -> bool {
    forall|i: int| 0 <= i < rows.len() ==> row_typed(keys, types, #[trigger] rows[i])
}

/// Whether rows can be put in order: every sort column holds values of one type, and no NaN.
pub open spec fn sortable(keys: Seq<SortKey>, rows: Seq<Seq<Value>>) -> bool {
    exists|types: Seq<DataType>| #[trigger] all_typed(keys, types, rows)
}

/// Exchanging two rows flips how they compare.
pub proof fn row_order_flips(keys: Seq<SortKey>, a: Seq<Value>, b: Seq<Value>)
    ensures
        row_order(keys, b, a) == row_order(keys, a, b).flipped(),
    decreases keys.len(),
{
    if keys.len() > 0 {
        let i = keys[0].idx as int;
        order_is_antisymmetric(a[i], b[i]);
        row_order_flips(keys.drop_first(), a, b);
    }
}

proof fn lemma_row_typed_rest(keys: Seq<SortKey>, types: Seq<DataType>, row: Seq<Value>)
    requires
        row_typed(keys, types, row),
        keys.len() > 0,
    ensures
        row_typed(keys.drop_first(), types.drop_first(), row),
{
    assert forall|k: int| 0 <= k < keys.drop_first().len() implies has_type(
        row[#[trigger] keys.drop_first()[k].idx as int],
        types.drop_first()[k],
    ) && order_of(
        row[keys.drop_first()[k].idx as int],
        row[keys.drop_first()[k].idx as int],
    ) is Some by {
        assert(keys.drop_first()[k] == keys[k + 1]);
    }
}

/// Among rows whose sort columns have one type each and no NaN, "may come before" is
/// transitive, so such rows are totally preordered.
pub proof fn row_order_is_transitive(
    keys: Seq<SortKey>,
    types: Seq<DataType>,
    a: Seq<Value>,
    b: Seq<Value>,
    c: Seq<Value>,
)
    requires
        row_typed(keys, types, a),
        row_typed(keys, types, b),
        row_typed(keys, types, c),
        not_after(keys, a, b),
        not_after(keys, b, c),
    ensures
        not_after(keys, a, c),
    decreases keys.len(),
{
    if keys.len() > 0 {
        let k = keys[0];
        let i = k.idx as int;
        let t = types[0];
        assert(keys[0].idx as int == i);
        order_is_transitive_within_a_type(a[i], b[i], c[i], t);
        order_is_transitive_within_a_type(b[i], c[i], a[i], t);
        order_is_transitive_within_a_type(c[i], a[i], b[i], t);
        order_is_transitive_within_a_type(c[i], b[i], a[i], t);
        order_is_transitive_within_a_type(b[i], a[i], c[i], t);
        order_is_transitive_within_a_type(a[i], c[i], b[i], t);
        order_is_antisymmetric(a[i], b[i]);
        order_is_antisymmetric(b[i], c[i]);
        order_is_antisymmetric(a[i], c[i]);
        let ab = directed(sort_order(a[i], b[i]), k.ascending);
        let bc = directed(sort_order(b[i], c[i]), k.ascending);
        let ac = directed(sort_order(a[i], c[i]), k.ascending);
        assert(same_type(a[i], b[i]) && same_type(b[i], c[i]) && same_type(a[i], c[i]));
        assert(ac != Comparison::Greater);
        if ac == Comparison::Equal {
            assert(ab == Comparison::Equal && bc == Comparison::Equal);
            lemma_row_typed_rest(keys, types, a);
            lemma_row_typed_rest(keys, types, b);
            lemma_row_typed_rest(keys, types, c);
            row_order_is_transitive(keys.drop_first(), types.drop_first(), a, b, c);
        }
    }
}

/// Compares two values of a sort column; see `sort_order`.
pub fn compare_data_ord(left: &Data, right: &Data) -> (r: Comparison)
    ensures
        r == sort_order(left@, right@),
{
    let same = match (left, right) {
        (Data::Int32(_), Data::Int32(_)) => true,
        (Data::Int64(_), Data::Int64(_)) => true,
        (Data::Float32(_), Data::Float32(_)) => true,
        (Data::Float64(_), Data::Float64(_)) => true,
        (Data::String(_), Data::String(_)) => true,
        _ => false,
    };
    if !same {
        return Comparison::Equal;
    }
    match left.compare(right) {
        Some(c) => c,
        None => Comparison::Equal,
    }
}

/// Compares two rows by sort keys.
pub fn compare_rows(sort_keys: &[SortKey], a: &Row, b: &Row) -> (r: Comparison)
    requires
        keys_within(sort_keys@, a@.len()),
        keys_within(sort_keys@, b@.len()),
    ensures
        r == row_order(sort_keys@, a@, b@),
{
    let a_vals = a.values();
    let b_vals = b.values();
    let mut i: usize = 0;
    proof {
        assert(sort_keys@.skip(0) =~= sort_keys@);
        assert(values_of(a_vals@).len() == a_vals@.len());
        assert(values_of(b_vals@).len() == b_vals@.len());
    }
    while i < sort_keys.len()
        invariant
            i <= sort_keys@.len(),
            values_of(a_vals@) == a@,
            values_of(b_vals@) == b@,
            values_of(a_vals@).len() == a_vals@.len(),
            values_of(b_vals@).len() == b_vals@.len(),
            keys_within(sort_keys@, a@.len()),
            keys_within(sort_keys@, b@.len()),
            row_order(sort_keys@, a@, b@) == row_order(sort_keys@.skip(i as int), a@, b@),
        decreases sort_keys@.len() - i,
    {
        let key = sort_keys[i];
        assert(sort_keys@[i as int].idx < a@.len());
        proof {
            assert(sort_keys@.skip(i as int)[0] == key);
            assert(sort_keys@.skip(i as int).drop_first() =~= sort_keys@.skip(i + 1));
        }
        let c = compare_data_ord(&a_vals[key.idx], &b_vals[key.idx]);
        let c = if key.ascending {
            c
        } else {
            c.reverse()
        };
        match c {
            Comparison::Equal => {},
            _ => {
                return c;
            },
        }
        i += 1;
    }
    Comparison::Equal
}

/// Whether every row of one list may come before every row of another.
pub open spec fn all_not_after(
    keys: Seq<SortKey>,
    a: Seq<Seq<Value>>,
    b: Seq<Seq<Value>>,
) -> bool {
    forall|i: int, j: int|
        0 <= i < a.len() && 0 <= j < b.len() ==> not_after(keys, #[trigger] a[i], #[trigger] b[j])
}

/// Whether a row may come before every row of a list.
pub open spec fn bounds(keys: Seq<SortKey>, x: Seq<Value>, rows: Seq<Seq<Value>>) -> bool {
    forall|i: int| 0 <= i < rows.len() ==> not_after(keys, x, #[trigger] rows[i])
}

/// The smaller of two heads bounds both lists.
pub proof fn lemma_head_bounds(
    keys: Seq<SortKey>,
    types: Seq<DataType>,
    x: Seq<Value>,
    rows: Seq<Seq<Value>>,
)
    requires
        rows.len() > 0,
        row_typed(keys, types, x),
        all_typed(keys, types, rows),
        sorted(keys, rows),
        not_after(keys, x, rows[0]),
    ensures
        bounds(keys, x, rows),
{
    assert forall|i: int| 0 <= i < rows.len() implies not_after(keys, x, #[trigger] rows[i]) by {
        if i > 0 {
            assert(not_after(keys, rows[0], rows[i]));
            assert(row_typed(keys, types, rows[0]));
            assert(row_typed(keys, types, rows[i]));
            row_order_is_transitive(keys, types, x, rows[0], rows[i]);
        }
    }
}

/// A sorted list stays sorted when a row is appended that none of its rows comes after.
pub proof fn lemma_sorted_push(keys: Seq<SortKey>, rows: Seq<Seq<Value>>, x: Seq<Value>)
    requires
        sorted(keys, rows),
        forall|i: int| 0 <= i < rows.len() ==> not_after(keys, #[trigger] rows[i], x),
    ensures
        sorted(keys, rows.push(x)),
{
}

pub proof fn lemma_sorted_drop(keys: Seq<SortKey>, rows: Seq<Seq<Value>>)
    requires
        sorted(keys, rows),
        rows.len() > 0,
    ensures
        sorted(keys, rows.drop_first()),
        bounds(keys, rows[0], rows.drop_first()),
{
    let rest = rows.drop_first();
    assert forall|i: int, j: int| 0 <= i < j < rest.len() implies not_after(
        keys,
        #[trigger] rest[i],
        #[trigger] rest[j],
    ) by {
        assert(rest[i] == rows[i + 1] && rest[j] == rows[j + 1]);
    }
    assert forall|i: int| 0 <= i < rest.len() implies not_after(
        keys,
        rows[0],
        #[trigger] rest[i],
    ) by {
        assert(rest[i] == rows[i + 1]);
    }
}

} // verus!

//! What a filter does, said of the values that its predicates name.

use vstd::prelude::*;
use vstd::utf8::encode_utf8;
use crate::filter::{FilterOperator, holds, passes, passes_all, reading, resolved, row_passes};
use crate::floats::Comparison;
use crate::pipeline::{passing, tests_of};
use crate::query::{ComparisionOperator, ComparisionValue, Condition, Predicate, conditions};
use crate::row::column_position;
use crate::value::{Value, order_of};
use crate::value_laws::{comes_before, float_of, floats_compare_as_numbers, integer_of, integers_compare_as_integers, texts_and_numbers_do_not_compare, texts_compare_by_their_bytes};

verus! {

/// Whether two values have an order: both are texts, or both are numbers.
pub open spec fn comparable(a: Value, b: Value) -> bool {
    match (a, b) {
        (Value::Str(_), Value::Str(_)) => true,
        (Value::Str(_), _) => false,
        (_, Value::Str(_)) => false,
        _ => float_of(a) is Some && float_of(b) is Some,
    }
}

/// Whether a value is less than another one: as integers, as texts, or as numbers.
pub open spec fn less(a: Value, b: Value) -> bool {
    match (a, b) {
        (Value::Str(s), Value::Str(t)) => comes_before(encode_utf8(s), encode_utf8(t)),
        _ => comparable(a, b) && if integer_of(a) is Some && integer_of(b) is Some {
            integer_of(a)->0 < integer_of(b)->0
        } else {
            float_of(a)->0 < float_of(b)->0
        },
    }
}

/// Whether two values are the same integer, text or number.
pub open spec fn same(a: Value, b: Value) -> bool {
    match (a, b) {
        (Value::Str(s), Value::Str(t)) => s == t,
        _ => comparable(a, b) && if integer_of(a) is Some && integer_of(b) is Some {
            integer_of(a)->0 == integer_of(b)->0
        } else {
            float_of(a)->0 == float_of(b)->0
        },
    }
}

/// Values compare as less, equal or greater where they are, and not at all where they have no
/// order.
pub proof fn order_tells_less_and_same(a: Value, b: Value)
    ensures
        order_of(a, b) is Some <==> comparable(a, b),
        order_of(a, b) == Some(Comparison::Less) <==> less(a, b),
        order_of(a, b) == Some(Comparison::Equal) <==> same(a, b),
        order_of(a, b) == Some(Comparison::Greater) <==> less(b, a),
{
    if a is Str && b is Str {
        texts_compare_by_their_bytes(a->Str_0, b->Str_0);
    } else if a is Str || b is Str {
        texts_and_numbers_do_not_compare(a, b);
    } else if integer_of(a) is Some && integer_of(b) is Some {
        integers_compare_as_integers(a, b);
    } else {
        floats_compare_as_numbers(a, b);
    }
}

/// Whether a comparison of two values is true.
pub open spec fn is_true(operator: ComparisionOperator, a: Value, b: Value) -> bool {
    match operator {
        ComparisionOperator::EQ => same(a, b),
        ComparisionOperator::NE => !same(a, b),
        ComparisionOperator::LT => less(a, b),
        ComparisionOperator::LTE => less(a, b) || same(a, b),
        ComparisionOperator::GT => less(b, a),
        ComparisionOperator::GTE => less(b, a) || same(a, b),
    }
}

/// Whether a comparison of two values has an answer: only equality can be asked of any two.
pub open spec fn has_answer(operator: ComparisionOperator, a: Value, b: Value) -> bool {
    operator == ComparisionOperator::EQ || operator == ComparisionOperator::NE || comparable(a, b)
}

/// A comparison comes out as it is true of the values, where it has an answer.
pub proof fn comparisons_tell_the_truth(operator: ComparisionOperator, a: Value, b: Value)
    ensures
        holds(operator, a, b) is Some <==> has_answer(operator, a, b),
        has_answer(operator, a, b) ==> holds(operator, a, b) == Some(is_true(operator, a, b)),
{
    order_tells_less_and_same(a, b);
}

/// The value that the right side of a predicate names.
pub open spec fn right_side(columns: Seq<Seq<char>>, row: Seq<Value>, v: ComparisionValue) -> Value {
    match v {
        ComparisionValue::Column(c) => row[column_position(columns, c@)],
        ComparisionValue::I32(n) => Value::Int32(n),
        ComparisionValue::I64(n) => Value::Int64(n),
        ComparisionValue::F32(b) => Value::Float32(b),
        ComparisionValue::F64(b) => Value::Float64(b),
        ComparisionValue::String(s) => Value::Str(s@),
    }
}

/// Whether a predicate has an answer for a row.
pub open spec fn is_decided(columns: Seq<Seq<char>>, row: Seq<Value>, p: Predicate) -> bool {
    has_answer(
        p.operator,
        row[column_position(columns, p.column_name@)],
        right_side(columns, row, p.value),
    )
}

/// Whether a predicate is true of a row: its column compares so with its right side.
pub open spec fn is_true_of(columns: Seq<Seq<char>>, row: Seq<Value>, p: Predicate) -> bool {
    is_decided(columns, row, p) && is_true(
        p.operator,
        row[column_position(columns, p.column_name@)],
        right_side(columns, row, p.value),
    )
}

/// Whether all predicates are true of a row.
pub open spec fn all_true_of(columns: Seq<Seq<char>>, row: Seq<Value>, ps: Seq<Predicate>) -> bool {
    forall|i: int| 0 <= i < ps.len() ==> is_true_of(columns, row, #[trigger] ps[i])
}

proof fn lemma_one(columns: Seq<Seq<char>>, row: Seq<Value>, p: Predicate)
    ensures
        passes(resolved(columns, p@), reading(row)) == (if is_decided(columns, row, p) {
            Some(is_true_of(columns, row, p))
        } else {
            None
        }),
{
    comparisons_tell_the_truth(
        p.operator,
        row[column_position(columns, p.column_name@)],
        right_side(columns, row, p.value),
    );
}

/// A row passes where all predicates are true of it. It fails where one is false, and has no answer
/// where one has none, if all before that one are true.
pub proof fn rows_pass_where_all_is_true(
    columns: Seq<Seq<char>>,
    row: Seq<Value>,
    ps: Seq<Predicate>,
)
    ensures
        ({
            let r = row_passes(tests_of(columns, conditions(ps)), row);
            &&& r == Some(true) <==> all_true_of(columns, row, ps)
            &&& r == Some(false) <==> exists|k: int|
                0 <= k < ps.len() && all_true_of(columns, row, ps.take(k)) && is_decided(
                    columns,
                    row,
                    #[trigger] ps[k],
                ) && !is_true_of(columns, row, ps[k])
            &&& r is None <==> exists|k: int|
                0 <= k < ps.len() && all_true_of(columns, row, ps.take(k)) && !is_decided(
                    columns,
                    row,
                    #[trigger] ps[k],
                )
        }),
{
    let ts = tests_of(columns, conditions(ps));
    assert(ts.skip(0) =~= ts);
    let k = lemma_first_not_true(columns, row, ps, 0);
    if k < ps.len() {
        lemma_one(columns, row, ps[k]);
        assert(ps[k] == ps[k]);
        assert forall|j: int| 0 <= j < ps.len() && all_true_of(columns, row, ps.take(j))
            && !is_true_of(columns, row, #[trigger] ps[j]) implies j == k by {
            if j < k {
                assert(ps.take(k)[j] == ps[j]);
            } else if k < j {
                assert(ps.take(j)[k] == ps[k]);
            }
        }
    } else {
        assert(ps.take(k) =~= ps);
        assert forall|j: int| 0 <= j < ps.len() implies is_true_of(
            columns,
            row,
            #[trigger] ps[j],
        ) by {}
    }
}

proof fn lemma_first_not_true(
    columns: Seq<Seq<char>>,
    row: Seq<Value>,
    ps: Seq<Predicate>,
    from: int,
) -> (k: int)
    requires
        0 <= from <= ps.len(),
        all_true_of(columns, row, ps.take(from)),
    ensures
        from <= k <= ps.len(),
        all_true_of(columns, row, ps.take(k)),
        k < ps.len() ==> !is_true_of(columns, row, ps[k]),
        passes_all(tests_of(columns, conditions(ps)).skip(from), reading(row)) == (if k
            == ps.len() {
            Some(true)
        } else {
            passes(resolved(columns, ps[k]@), reading(row))
        }),
    decreases ps.len() - from,
{
    let ts = tests_of(columns, conditions(ps));
    let rest = ts.skip(from);
    if from == ps.len() {
        from
    } else {
        lemma_one(columns, row, ps[from]);
        assert(rest[0] == resolved(columns, ps[from]@));
        if is_true_of(columns, row, ps[from]) {
            assert(rest.drop_first() =~= ts.skip(from + 1));
            assert forall|i: int| 0 <= i < from + 1 implies is_true_of(
                columns,
                row,
                #[trigger] ps.take(from + 1)[i],
            ) by {
                if i < from {
                    assert(ps.take(from)[i] == ps[i]);
                }
            }
            lemma_first_not_true(columns, row, ps, from + 1)
        } else {
            from
        }
    }
}

/// The rows that are left are those of which all predicates are true, in their order.
pub proof fn filter_keeps_the_rows_that_pass(
    columns: Seq<Seq<char>>,
    ps: Seq<Predicate>,
    rows: Seq<Seq<Value>>,
)
    ensures
        passing(tests_of(columns, conditions(ps)), rows) == rows.filter(
            |row: Seq<Value>| all_true_of(columns, row, ps),
        ),
    decreases rows.len(),
{
    reveal(Seq::filter);
    if rows.len() > 0 {
        filter_keeps_the_rows_that_pass(columns, ps, rows.drop_last());
        rows_pass_where_all_is_true(columns, rows.last(), ps);
    }
}

/// What a filter operator made of predicates decides on is whether they are all true of the row.
pub proof fn filter_tests_its_predicates(op: &FilterOperator, ps: Seq<Predicate>, row: Seq<Value>)
    requires
        op.tests_view() == conditions(ps).map_values(
            |c: Condition| resolved(op.schema_view(), c),
        ),
    ensures
        row_passes(op.tests_view(), row) == Some(true) <==> all_true_of(op.schema_view(), row, ps),
{
    assert(op.tests_view() =~= tests_of(op.schema_view(), conditions(ps)));
    rows_pass_where_all_is_true(op.schema_view(), row, ps);
}

} // verus!

//! What a sort does to the columns that it sorts by.

use vstd::prelude::*;
use crate::answer::answer;
use crate::context::QueryRun;
use crate::floats::Comparison;
use crate::ordering::{SortKey, all_typed, key_order, row_order, row_typed, sortable, sorted};
use crate::pipeline::{is_result, keys_of, sorts};
use crate::plan::{PlanIssue, PlanTree, plan_columns, sort_pairs};
use crate::plan_answer::{keys_agree, projection_gives_the_answer, projects_last, readable};
use crate::planner::{logical_columns, plan_of};
use crate::query::{QueryOp, SortSpec};
use crate::row::{column_position, column_position_is_first};
use crate::scan::TableFiles;
use crate::sort::{SortOperator, sort_keys_of};
use crate::temp_storage::TempStorageManager;
use crate::value::{DataType, Value, order_of};
use crate::value_laws::{is_of, sorting_follows_the_order};

verus! {

/// Whether a column holds values of one type that compare with themselves.
pub open spec fn holds_type(rows: Seq<Seq<Value>>, at: int, t: DataType) -> bool {
    forall|i: int|
        0 <= i < rows.len() ==> is_of(#[trigger] rows[i][at], t) && order_of(
            rows[i][at],
            rows[i][at],
        ) is Some
}

/// Where the column that is sorted by stands.
pub open spec fn sort_column(schema: Seq<Seq<char>>, specs: Seq<SortSpec>, k: int) -> int {
    column_position(schema, specs[k].column_name@)
}

/// How two rows compare in the column that is sorted by.
pub open spec fn in_column(
    schema: Seq<Seq<char>>,
    specs: Seq<SortSpec>,
    k: int,
    a: Seq<Value>,
    b: Seq<Value>,
) -> Option<Comparison> {
    order_of(a[sort_column(schema, specs, k)], b[sort_column(schema, specs, k)])
}

/// Whether all columns that are sorted by are there and hold values of one type each.
pub open spec fn can_be_sorted(
    schema: Seq<Seq<char>>,
    specs: Seq<SortSpec>,
    types: Seq<DataType>,
    rows: Seq<Seq<Value>>,
) -> bool {
    &&& schema.len() <= usize::MAX
    &&& types.len() == specs.len()
    &&& forall|k: int|
        0 <= k < specs.len() ==> schema.contains((#[trigger] specs[k]).column_name@) && holds_type(
            rows,
            sort_column(schema, specs, k),
            types[k],
        )
}

proof fn lemma_keys(schema: Seq<Seq<char>>, specs: Seq<SortSpec>, types: Seq<DataType>, rows: Seq<
    Seq<Value>,
>)
    requires
        can_be_sorted(schema, specs, types, rows),
    ensures
        sortable(sort_keys_of(schema, specs), rows),
        forall|k: int|
            0 <= k < specs.len() ==> (#[trigger] sort_keys_of(schema, specs)[k]).idx == sort_column(
                schema,
                specs,
                k,
            ),
{
    let keys = sort_keys_of(schema, specs);
    assert forall|k: int| 0 <= k < specs.len() implies (#[trigger] keys[k]).idx == sort_column(
        schema,
        specs,
        k,
    ) by {
        assert(schema.contains(specs[k].column_name@));
        column_position_is_first(schema, specs[k].column_name@);
    }
    assert forall|i: int| 0 <= i < rows.len() implies row_typed(keys, types, #[trigger] rows[i]) by {
        assert forall|k: int| 0 <= k < keys.len() implies is_of(
            rows[i][#[trigger] keys[k].idx as int],
            types[k],
        ) && order_of(rows[i][keys[k].idx as int], rows[i][keys[k].idx as int]) is Some by {
            assert(schema.contains(specs[k].column_name@));
            assert(keys[k].idx == sort_column(schema, specs, k));
            assert(is_of(rows[i][sort_column(schema, specs, k)], types[k]));
        }
    }
    assert(all_typed(keys, types, rows));
}

/// Two rows that compare by sort keys: the first key in which they differ decides.
proof fn lemma_first_difference(
    keys: Seq<SortKey>,
    types: Seq<DataType>,
    a: Seq<Value>,
    b: Seq<Value>,
    k: int,
)
    requires
        keys.len() == types.len(),
        0 <= k < keys.len(),
        forall|c: int|
            0 <= c < keys.len() ==> is_of(a[(#[trigger] keys[c]).idx as int], types[c])
                && is_of(b[keys[c].idx as int], types[c]),
        forall|c: int|
            0 <= c < k ==> order_of(a[(#[trigger] keys[c]).idx as int], b[keys[c].idx as int])
                == Some(Comparison::Equal),
        order_of(a[keys[k].idx as int], b[keys[k].idx as int]) is Some,
        row_order(keys, a, b) != Comparison::Greater,
    ensures
        keys[k].ascending ==> order_of(a[keys[k].idx as int], b[keys[k].idx as int]) != Some(
            Comparison::Greater,
        ),
        !keys[k].ascending ==> order_of(a[keys[k].idx as int], b[keys[k].idx as int]) != Some(
            Comparison::Less,
        ),
    decreases k,
{
    assert(is_of(a[keys[0].idx as int], types[0]));
    sorting_follows_the_order(a[keys[0].idx as int], b[keys[0].idx as int], types[0]);
    if k > 0 {
        let rest = keys.drop_first();
        assert(order_of(a[keys[0].idx as int], b[keys[0].idx as int]) == Some(Comparison::Equal));
        assert forall|c: int| 0 <= c < rest.len() implies is_of(
            a[(#[trigger] rest[c]).idx as int],
            types.drop_first()[c],
        ) && is_of(b[rest[c].idx as int], types.drop_first()[c]) by {
            assert(rest[c] == keys[c + 1]);
        }
        assert forall|c: int| 0 <= c < k - 1 implies order_of(
            a[(#[trigger] rest[c]).idx as int],
            b[rest[c].idx as int],
        ) == Some(Comparison::Equal) by {
            assert(rest[c] == keys[c + 1]);
        }
        assert(rest[k - 1] == keys[k]);
        lemma_first_difference(rest, types.drop_first(), a, b, k - 1);
    }
}

proof fn lemma_in_order(
    schema: Seq<Seq<char>>,
    specs: Seq<SortSpec>,
    types: Seq<DataType>,
    rows: Seq<Seq<Value>>,
    i: int,
    j: int,
    k: int,
)
    requires
        can_be_sorted(schema, specs, types, rows),
        sorted(sort_keys_of(schema, specs), rows),
        0 <= i < j < rows.len(),
        0 <= k < specs.len(),
        forall|c: int|
            0 <= c < k ==> #[trigger] in_column(schema, specs, c, rows[i], rows[j]) == Some(
                Comparison::Equal,
            ),
    ensures
        specs[k].ascending ==> in_column(schema, specs, k, rows[i], rows[j]) == Some(
            Comparison::Less,
        ) || in_column(schema, specs, k, rows[i], rows[j]) == Some(Comparison::Equal),
        !specs[k].ascending ==> in_column(schema, specs, k, rows[i], rows[j]) == Some(
            Comparison::Greater,
        ) || in_column(schema, specs, k, rows[i], rows[j]) == Some(Comparison::Equal),
{
    let keys = sort_keys_of(schema, specs);
    lemma_keys(schema, specs, types, rows);
    let a = rows[i];
    let b = rows[j];
    assert(crate::ordering::not_after(keys, a, b));
    assert forall|c: int| 0 <= c < keys.len() implies is_of(
        a[(#[trigger] keys[c]).idx as int],
        types[c],
    ) && is_of(b[keys[c].idx as int], types[c]) by {
        assert(schema.contains(specs[c].column_name@));
        let at = sort_column(schema, specs, c);
        assert(holds_type(rows, at, types[c]));
        assert(is_of(rows[i][at], types[c]) && is_of(rows[j][at], types[c]));
    }
    assert forall|c: int| 0 <= c < k implies order_of(
        a[(#[trigger] keys[c]).idx as int],
        b[keys[c].idx as int],
    ) == Some(Comparison::Equal) by {
        assert(in_column(schema, specs, c, a, b) == Some(Comparison::Equal));
    }
    assert(keys[k].idx == sort_column(schema, specs, k));
    let x = a[keys[k].idx as int];
    let y = b[keys[k].idx as int];
    assert(schema.contains(specs[k].column_name@));
    let at = sort_column(schema, specs, k);
    assert(holds_type(rows, at, types[k]));
    assert(is_of(rows[i][at], types[k]) && is_of(rows[j][at], types[k]));
    crate::value::order_is_transitive_within_a_type(x, y, y, types[k]);
    lemma_first_difference(keys, types, a, b, k);
}

proof fn lemma_can_be_sorted_too(
    schema: Seq<Seq<char>>,
    specs: Seq<SortSpec>,
    types: Seq<DataType>,
    a: Seq<Seq<Value>>,
    b: Seq<Seq<Value>>,
)
    requires
        can_be_sorted(schema, specs, types, a),
        a.to_multiset() == b.to_multiset(),
    ensures
        can_be_sorted(schema, specs, types, b),
{
    broadcast use vstd::seq_lib::group_to_multiset_ensures;

    assert forall|k: int| 0 <= k < specs.len() implies schema.contains(
        (#[trigger] specs[k]).column_name@,
    ) && holds_type(b, sort_column(schema, specs, k), types[k]) by {
        let at = sort_column(schema, specs, k);
        assert(holds_type(a, at, types[k]));
        assert forall|i: int| 0 <= i < b.len() implies is_of(#[trigger] b[i][at], types[k])
            && order_of(b[i][at], b[i][at]) is Some by {
            assert(b.contains(b[i]));
            assert(b.to_multiset().count(b[i]) > 0);
            assert(a.contains(b[i]));
            let n = choose|n: int| 0 <= n < a.len() && a[n] == b[i];
            assert(is_of(a[n][at], types[k]));
        }
    }
}

/// Two rows compare by the first column in which they differ: as the values of that column compare
/// where it is ascending, and the other way round where it is descending. Rows that differ in none
/// compare as equal.
pub proof fn rows_compare_by_their_first_difference(
    keys: Seq<SortKey>,
    types: Seq<DataType>,
    a: Seq<Value>,
    b: Seq<Value>,
    k: int,
)
    requires
        keys.len() == types.len(),
        0 <= k <= keys.len(),
        forall|c: int|
            0 <= c < keys.len() ==> is_of(a[(#[trigger] keys[c]).idx as int], types[c]) && is_of(
                b[keys[c].idx as int],
                types[c],
            ),
        forall|c: int|
            0 <= c < k ==> order_of(a[(#[trigger] keys[c]).idx as int], b[keys[c].idx as int])
                == Some(Comparison::Equal),
        k < keys.len() ==> order_of(a[keys[k].idx as int], b[keys[k].idx as int]) == Some(
            Comparison::Less,
        ) || order_of(a[keys[k].idx as int], b[keys[k].idx as int]) == Some(Comparison::Greater),
    ensures
        k == keys.len() ==> row_order(keys, a, b) == Comparison::Equal,
        k < keys.len() ==> {
            let less = order_of(a[keys[k].idx as int], b[keys[k].idx as int]) == Some(
                Comparison::Less,
            );
            row_order(keys, a, b) == (if less == keys[k].ascending {
                Comparison::Less
            } else {
                Comparison::Greater
            })
        },
    decreases keys.len(),
{
    if keys.len() > 0 {
        assert(is_of(a[keys[0].idx as int], types[0]));
        sorting_follows_the_order(a[keys[0].idx as int], b[keys[0].idx as int], types[0]);
        if k > 0 {
            let rest = keys.drop_first();
            assert(order_of(a[keys[0].idx as int], b[keys[0].idx as int]) == Some(
                Comparison::Equal,
            ));
            assert forall|c: int| 0 <= c < rest.len() implies is_of(
                a[(#[trigger] rest[c]).idx as int],
                types.drop_first()[c],
            ) && is_of(b[rest[c].idx as int], types.drop_first()[c]) by {
                assert(rest[c] == keys[c + 1]);
            }
            assert forall|c: int| 0 <= c < k - 1 implies order_of(
                a[(#[trigger] rest[c]).idx as int],
                b[rest[c].idx as int],
            ) == Some(Comparison::Equal) by {
                assert(rest[c] == keys[c + 1]);
            }
            if k < keys.len() {
                assert(rest[k - 1] == keys[k]);
            }
            rows_compare_by_their_first_difference(rest, types.drop_first(), a, b, k - 1);
        }
    }
}

/// Two keys compare as the first values compare in which they differ; keys that differ in none
/// compare as equal.
pub proof fn keys_compare_by_their_first_difference(
    types: Seq<DataType>,
    a: Seq<Value>,
    b: Seq<Value>,
    k: int,
)
    requires
        a.len() == types.len(),
        b.len() == types.len(),
        0 <= k <= types.len(),
        forall|c: int|
            0 <= c < types.len() ==> is_of(#[trigger] a[c], types[c]) && is_of(b[c], types[c]),
        forall|c: int|
            0 <= c < k ==> order_of(#[trigger] a[c], b[c]) == Some(Comparison::Equal),
        k < types.len() ==> order_of(a[k], b[k]) == Some(Comparison::Less) || order_of(a[k], b[k])
            == Some(Comparison::Greater),
    ensures
        k == types.len() ==> key_order(a, b) == Comparison::Equal,
        k < types.len() ==> Some(key_order(a, b)) == order_of(a[k], b[k]),
    decreases types.len(),
{
    if types.len() > 0 {
        assert(is_of(a[0], types[0]));
        sorting_follows_the_order(a[0], b[0], types[0]);
        if k > 0 {
            let x = a.drop_first();
            let y = b.drop_first();
            let rest = types.drop_first();
            assert(order_of(a[0], b[0]) == Some(Comparison::Equal));
            assert forall|c: int| 0 <= c < rest.len() implies is_of(#[trigger] x[c], rest[c])
                && is_of(y[c], rest[c]) by {
                assert(x[c] == a[c + 1]);
            }
            assert forall|c: int| 0 <= c < k - 1 implies order_of(#[trigger] x[c], y[c]) == Some(
                Comparison::Equal,
            ) by {
                assert(x[c] == a[c + 1]);
            }
            keys_compare_by_their_first_difference(rest, x, y, k - 1);
        }
    }
}

/// A sort that came to its end has given out its input so that, of two rows that agree in the
/// first columns that it sorts by, the earlier one has the value in the next column that comes
/// first in the column's direction: it does not compare as greater where that is ascending, and
/// not as less where it is descending. Nothing is lost, and nothing is added.
pub proof fn sort_puts_rows_in_order(
    op: &SortOperator,
    storage: &TempStorageManager,
    specs: Seq<SortSpec>,
    types: Seq<DataType>,
    i: int,
    j: int,
    k: int,
)
    requires
        op.inv(storage),
        op.ended(),
        !op.failed(),
        op.faithful(),
        op.keys() == sort_keys_of(op.schema_view(), specs),
        can_be_sorted(op.schema_view(), specs, types, op.input()),
        0 <= i < j < op.emitted().len(),
        0 <= k < specs.len(),
        forall|c: int|
            0 <= c < k ==> #[trigger] in_column(
                op.schema_view(),
                specs,
                c,
                op.emitted()[i],
                op.emitted()[j],
            ) == Some(Comparison::Equal),
    ensures
        ({
            let c = in_column(op.schema_view(), specs, k, op.emitted()[i], op.emitted()[j]);
            &&& specs[k].ascending ==> c == Some(Comparison::Less) || c == Some(Comparison::Equal)
            &&& !specs[k].ascending ==> c == Some(Comparison::Greater) || c == Some(
                Comparison::Equal,
            )
        }),
        op.emitted().to_multiset() == op.input().to_multiset(),
{
    op.sort_is_complete(storage);
    lemma_keys(op.schema_view(), specs, types, op.input());
    lemma_can_be_sorted_too(op.schema_view(), specs, types, op.input(), op.emitted());
    lemma_in_order(op.schema_view(), specs, types, op.emitted(), i, j, k);
}

/// A query that sorts last has given its rows out in the order of the columns that it names, in
/// the direction of each, by the columns that its plan gives out.
pub proof fn sorted_plan_is_in_order(
    run: &QueryRun,
    op: QueryOp,
    files: TableFiles,
    specs: Seq<SortSpec>,
    types: Seq<DataType>,
    i: int,
    j: int,
    k: int,
)
    requires
        run.inv(),
        run.done(),
        run.faithful(),
        run.reads_from(files),
        plan_of(run.tables(), op, None) == Ok::<PlanTree, PlanIssue>(run.plan()),
        op is Sort,
        specs == op->Sort_0.sort_specs@,
        can_be_sorted(plan_columns(run.plan()), specs, types, run.emitted()),
        0 <= i < j < run.emitted().len(),
        0 <= k < specs.len(),
        forall|c: int|
            0 <= c < k ==> #[trigger] in_column(
                plan_columns(run.plan()),
                specs,
                c,
                run.emitted()[i],
                run.emitted()[j],
            ) == Some(Comparison::Equal),
    ensures
        ({
            let c = in_column(
                plan_columns(run.plan()),
                specs,
                k,
                run.emitted()[i],
                run.emitted()[j],
            );
            &&& specs[k].ascending ==> c == Some(Comparison::Less) || c == Some(Comparison::Equal)
            &&& !specs[k].ascending ==> c == Some(Comparison::Greater) || c == Some(
                Comparison::Equal,
            )
        }),
{
    let columns = plan_columns(run.plan());
    let rows = run.emitted();
    run.run_gives_the_result(files);
    match run.plan() {
        PlanTree::Sort(input, pairs) => {
            assert(pairs == sort_pairs(specs));
            let below = choose|below: Seq<Seq<Value>>| #[trigger]
                sorts(plan_columns(*input), pairs, below, rows) && is_result(
                    *input,
                    run.tables(),
                    files,
                    below,
                );
            lemma_can_be_sorted_too(columns, specs, types, rows, below);
            lemma_keys(columns, specs, types, below);
            assert(keys_of(columns, pairs) =~= sort_keys_of(columns, specs));
            lemma_in_order(columns, specs, types, rows, i, j, k);
        },
        _ => {},
    }
}

/// A query that sorts last has given its rows out in the order of the columns that it names, in
/// the direction of each.
pub proof fn sorted_query_is_in_order(
    run: &QueryRun,
    op: QueryOp,
    files: TableFiles,
    specs: Seq<SortSpec>,
    types: Seq<DataType>,
    i: int,
    j: int,
    k: int,
)
    requires
        run.inv(),
        run.done(),
        run.faithful(),
        run.reads_from(files),
        plan_of(run.tables(), op, None) == Ok::<PlanTree, PlanIssue>(run.plan()),
        readable(run.tables(), op, files),
        keys_agree(run.tables(), op, files),
        projects_last(op),
        op is Sort,
        specs == op->Sort_0.sort_specs@,
        can_be_sorted(
            logical_columns(run.tables(), op)->Ok_0,
            specs,
            types,
            answer(run.tables(), op, files),
        ),
        0 <= i < j < run.emitted().len(),
        0 <= k < specs.len(),
        forall|c: int|
            0 <= c < k ==> #[trigger] in_column(
                logical_columns(run.tables(), op)->Ok_0,
                specs,
                c,
                run.emitted()[i],
                run.emitted()[j],
            ) == Some(Comparison::Equal),
    ensures
        ({
            let c = in_column(
                logical_columns(run.tables(), op)->Ok_0,
                specs,
                k,
                run.emitted()[i],
                run.emitted()[j],
            );
            &&& specs[k].ascending ==> c == Some(Comparison::Less) || c == Some(Comparison::Equal)
            &&& !specs[k].ascending ==> c == Some(Comparison::Greater) || c == Some(
                Comparison::Equal,
            )
        }),
{
    let columns = logical_columns(run.tables(), op)->Ok_0;
    run.run_gives_the_result(files);
    projection_gives_the_answer(run.tables(), op, files, run.emitted());
    lemma_can_be_sorted_too(
        columns,
        specs,
        types,
        answer(run.tables(), op, files),
        run.emitted(),
    );
    lemma_keys(columns, specs, types, run.emitted());
    assert(keys_of(columns, sort_pairs(specs)) =~= sort_keys_of(columns, specs));
    lemma_in_order(columns, specs, types, run.emitted(), i, j, k);
}

} // verus!

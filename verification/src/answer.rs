//! What a query means: its rows by the book, without a plan.

use vstd::multiset::Multiset;
use vstd::prelude::*;
use crate::catalog::{TableSpec, table_at, types_of};
use crate::filter::{holds, passes, reading, row_passes};
use crate::join_spec::{JoinOn, join_of, joins, left_with};
use crate::pipeline::{passing, picked, tests_of};
use crate::planner::logical_columns;
use crate::project::sources;
use crate::query::{Condition, Operand, QueryOp, conditions};
use crate::row::{column_position, column_positions};
use crate::scan::{TableFiles, rows_of_blocks};
use crate::sums::{total, total_append, total_map, total_of_multiset, total_same};
use crate::value::Value;

verus! {

/// A left row put before each of the right rows.
pub open spec fn before_each(l: Seq<Value>, rs: Seq<Seq<Value>>) -> Seq<Seq<Value>> {
    rs.map_values(|r: Seq<Value>| l + r)
}

/// Every left row put before every right row.
pub open spec fn all_pairs(ls: Seq<Seq<Value>>, rs: Seq<Seq<Value>>) -> Seq<Seq<Value>>
    decreases ls.len(),
{
    if ls.len() == 0 {
        Seq::empty()
    } else {
        all_pairs(ls.drop_last(), rs) + before_each(ls.last(), rs)
    }
}

/// The rows of a query, for the contents of the tables' files. A sort leaves them as they are.
pub open spec fn answer(tables: Seq<TableSpec>, op: QueryOp, files: TableFiles) -> Seq<Seq<Value>>
    decreases op,
{
    match op {
        QueryOp::Scan(d) => {
            let i = table_at(tables, d.table_id@)->0;
            rows_of_blocks(files.content(i), types_of(tables[i].column_specs@), None, None, None)
        },
        QueryOp::Filter(d) => passing(
            tests_of(logical_columns(tables, *d.underlying)->Ok_0, conditions(d.predicates@)),
            answer(tables, *d.underlying, files),
        ),
        QueryOp::Project(d) => picked(
            column_positions(
                logical_columns(tables, *d.underlying)->Ok_0,
                sources(d.column_name_map@),
            ),
            answer(tables, *d.underlying, files),
        ),
        QueryOp::Cross(d) => all_pairs(
            answer(tables, *d.left, files),
            answer(tables, *d.right, files),
        ),
        QueryOp::Sort(d) => answer(tables, *d.underlying, files),
    }
}

/// What the columns of a row hold, by their names.
pub open spec fn named(columns: Seq<Seq<char>>, row: Seq<Value>) -> spec_fn(Seq<char>) -> Value {
    |c: Seq<char>| row[column_position(columns, c)]
}

/// Whether a condition holds of named values.
pub open spec fn is_met(c: Condition, at: spec_fn(Seq<char>) -> Value) -> bool {
    holds(
        c.operator,
        at(c.column),
        match c.operand {
            Operand::Column(other) => at(other),
            Operand::Literal(v) => v,
        },
    ) == Some(true)
}

/// Whether all conditions hold of named values.
pub open spec fn all_met(cs: Seq<Condition>, at: spec_fn(Seq<char>) -> Value) -> bool {
    forall|i: int| 0 <= i < cs.len() ==> is_met(#[trigger] cs[i], at)
}

/// A weight that counts only where conditions hold.
pub open spec fn where_met(cs: Seq<Condition>, w: spec_fn(spec_fn(Seq<char>) -> Value) -> nat) -> spec_fn(
    spec_fn(Seq<char>) -> Value,
) -> nat {
    |at: spec_fn(Seq<char>) -> Value|
        if all_met(cs, at) {
            w(at)
        } else {
            0
        }
}

/// The sum over named rows.
pub open spec fn total_named(
    columns: Seq<Seq<char>>,
    rows: Seq<Seq<Value>>,
    w: spec_fn(spec_fn(Seq<char>) -> Value) -> nat,
) -> nat {
    total(rows, |row: Seq<Value>| w(named(columns, row)))
}

/// A row passes tests where the conditions that they stand for hold.
pub proof fn lemma_passes_named(columns: Seq<Seq<char>>, cs: Seq<Condition>, row: Seq<Value>)
    ensures
        row_passes(tests_of(columns, cs), row) == Some(true) <==> all_met(cs, named(columns, row)),
    decreases cs.len(),
{
    let ts = tests_of(columns, cs);
    let at = reading(row);
    if cs.len() > 0 {
        let rest = cs.drop_first();
        lemma_passes_named(columns, rest, row);
        assert(ts.drop_first() =~= tests_of(columns, rest));
        assert(passes(ts[0], at) == Some(true) <==> is_met(cs[0], named(columns, row)));
        assert(all_met(cs, named(columns, row)) <==> is_met(cs[0], named(columns, row)) && all_met(
            rest,
            named(columns, row),
        )) by {
            if is_met(cs[0], named(columns, row)) && all_met(rest, named(columns, row)) {
                assert forall|i: int| 0 <= i < cs.len() implies is_met(
                    #[trigger] cs[i],
                    named(columns, row),
                ) by {
                    if i > 0 {
                        assert(rest[i - 1] == cs[i]);
                    }
                }
            }
            if all_met(cs, named(columns, row)) {
                assert forall|i: int| 0 <= i < rest.len() implies is_met(
                    #[trigger] rest[i],
                    named(columns, row),
                ) by {
                    assert(rest[i] == cs[i + 1]);
                }
            }
        }
    }
}

/// The sum over the rows that pass is the sum where the conditions hold.
pub proof fn lemma_total_passing(
    columns: Seq<Seq<char>>,
    cs: Seq<Condition>,
    rows: Seq<Seq<Value>>,
    w: spec_fn(spec_fn(Seq<char>) -> Value) -> nat,
)
    ensures
        total_named(columns, passing(tests_of(columns, cs), rows), w) == total_named(
            columns,
            rows,
            where_met(cs, w),
        ),
    decreases rows.len(),
{
    if rows.len() > 0 {
        let ts = tests_of(columns, cs);
        let init = rows.drop_last();
        lemma_total_passing(columns, cs, init, w);
        lemma_passes_named(columns, cs, rows.last());
        if row_passes(ts, rows.last()) == Some(true) {
            assert(passing(ts, rows).drop_last() =~= passing(ts, init));
        }
    }
}

/// The sum over all pairs is a sum of sums.
pub proof fn lemma_total_pairs(
    ls: Seq<Seq<Value>>,
    rs: Seq<Seq<Value>>,
    w: spec_fn(Seq<Value>) -> nat,
)
    ensures
        total(all_pairs(ls, rs), w) == total(
            ls,
            |l: Seq<Value>| total(rs, |r: Seq<Value>| w(l + r)),
        ),
    decreases ls.len(),
{
    if ls.len() > 0 {
        let last = ls.last();
        lemma_total_pairs(ls.drop_last(), rs, w);
        total_append(all_pairs(ls.drop_last(), rs), before_each(last, rs), w);
        total_map(rs, |r: Seq<Value>| last + r, w);
        total_same(
            rs,
            |r: Seq<Value>| w((|r: Seq<Value>| last + r)(r)),
            |r: Seq<Value>| w(last + r),
        );
    }
}

/// One left row with the right rows that it joins, in their order.
spec fn joined_rights(on: JoinOn, l: Seq<Value>, rs: Seq<Seq<Value>>) -> Seq<Seq<Value>>
    decreases rs.len(),
{
    if rs.len() == 0 {
        Seq::empty()
    } else if joins(on, l, rs.last()) {
        joined_rights(on, l, rs.drop_last()).push(l + rs.last())
    } else {
        joined_rights(on, l, rs.drop_last())
    }
}

/// The pairs of rows that join, in their order.
spec fn joined_rows(on: JoinOn, ls: Seq<Seq<Value>>, rs: Seq<Seq<Value>>) -> Seq<Seq<Value>>
    decreases ls.len(),
{
    if ls.len() == 0 {
        Seq::empty()
    } else {
        joined_rows(on, ls.drop_last(), rs) + joined_rights(on, ls.last(), rs)
    }
}

proof fn lemma_joined_rights(
    on: JoinOn,
    l: Seq<Value>,
    rs: Seq<Seq<Value>>,
    w: spec_fn(Seq<Value>) -> nat,
)
    ensures
        joined_rights(on, l, rs).to_multiset() == left_with(on, l, rs),
        total(joined_rights(on, l, rs), w) == total(
            rs,
            |r: Seq<Value>|
                if joins(on, l, r) {
                    w(l + r)
                } else {
                    0
                },
        ),
    decreases rs.len(),
{
    broadcast use vstd::seq_lib::group_to_multiset_ensures;

    if rs.len() == 0 {
        assert(joined_rights(on, l, rs).to_multiset() =~= Multiset::empty());
    } else {
        let init = rs.drop_last();
        lemma_joined_rights(on, l, init, w);
        if joins(on, l, rs.last()) {
            let before = joined_rights(on, l, init);
            assert(before.push(l + rs.last()).drop_last() =~= before);
            assert(before.push(l + rs.last()).to_multiset() =~= before.to_multiset().insert(
                l + rs.last(),
            ));
        }
        assert(joined_rights(on, l, rs).to_multiset() =~= left_with(on, l, rs));
    }
}

/// The sum over a join is a sum of sums over the pairs that join.
pub proof fn lemma_total_join(
    on: JoinOn,
    ls: Seq<Seq<Value>>,
    rs: Seq<Seq<Value>>,
    rows: Seq<Seq<Value>>,
    w: spec_fn(Seq<Value>) -> nat,
)
    requires
        rows.to_multiset() == join_of(on, ls, rs),
    ensures
        total(rows, w) == total(
            ls,
            |l: Seq<Value>|
                total(
                    rs,
                    |r: Seq<Value>|
                        if joins(on, l, r) {
                            w(l + r)
                        } else {
                            0
                        },
                ),
        ),
{
    lemma_joined_rows(on, ls, rs, w);
    total_of_multiset(rows, joined_rows(on, ls, rs), w);
}

proof fn lemma_joined_rows(
    on: JoinOn,
    ls: Seq<Seq<Value>>,
    rs: Seq<Seq<Value>>,
    w: spec_fn(Seq<Value>) -> nat,
)
    ensures
        joined_rows(on, ls, rs).to_multiset() == join_of(on, ls, rs),
        total(joined_rows(on, ls, rs), w) == total(
            ls,
            |l: Seq<Value>|
                total(
                    rs,
                    |r: Seq<Value>|
                        if joins(on, l, r) {
                            w(l + r)
                        } else {
                            0
                        },
                ),
        ),
    decreases ls.len(),
{
    broadcast use vstd::seq_lib::group_to_multiset_ensures;

    if ls.len() == 0 {
        assert(joined_rows(on, ls, rs).to_multiset() =~= Multiset::empty());
    } else {
        let init = ls.drop_last();
        lemma_joined_rows(on, init, rs, w);
        lemma_joined_rights(on, ls.last(), rs, w);
        let a = joined_rows(on, init, rs);
        let b = joined_rights(on, ls.last(), rs);
        total_append(a, b, w);
        vstd::seq_lib::lemma_multiset_commutative(a, b);
        assert((a + b).to_multiset() =~= join_of(on, ls, rs));
    }
}

} // verus!

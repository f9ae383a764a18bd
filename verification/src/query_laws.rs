//! What the rows of a query are, for each kind of query.

use vstd::prelude::*;
use crate::answer::{all_pairs, answer, before_each};
use crate::block_decode::block_rows;
use crate::byte_laws::{block_bytes, is_row, stored_rows_are_read_back};
use crate::catalog::{TableSpec, names_of, table_at, types_of};
use crate::error::DbError;
use crate::filter_laws::{all_true_of, filter_keeps_the_rows_that_pass};
use crate::pipeline::picked;
use crate::plan::{pair_names, plan_columns, sort_pairs};
use crate::plan_answer::readable;
use crate::planner::{height, is_issue, logical_columns, plan_of, plan_within};
use crate::project::sources;
use crate::query::QueryOp;
use crate::row::{column_position, column_positions, pick};
use crate::row_laws::the_first_missing_column_is_named;
use crate::scan::{TableFiles, all_decode, rows_of_blocks};
use crate::value::{DataType, Value};

verus! {

proof fn lemma_rows_of_blocks(
    blocks: Seq<Seq<u8>>,
    types: Seq<DataType>,
    held: Seq<Seq<Seq<Value>>>,
)
    requires
        blocks.len() == held.len(),
        forall|b: int|
            0 <= b < blocks.len() ==> (#[trigger] block_rows(blocks[b], types, None, None, None))
                is Ok && block_rows(blocks[b], types, None, None, None)->Ok_0 == held[b],
    ensures
        rows_of_blocks(blocks, types, None, None, None) == held.flatten(),
    decreases blocks.len(),
{
    if blocks.len() > 0 {
        let init = blocks.drop_last();
        let front = held.drop_last();
        assert forall|b: int| 0 <= b < init.len() implies (#[trigger] block_rows(
            init[b],
            types,
            None,
            None,
            None,
        )) is Ok && block_rows(init[b], types, None, None, None)->Ok_0 == front[b] by {
            assert(init[b] == blocks[b]);
        }
        lemma_rows_of_blocks(init, types, front);
        let b = blocks.len() - 1;
        assert(block_rows(blocks[b], types, None, None, None)->Ok_0 == held[b]);
        held.lemma_flatten_and_flatten_alt_are_equivalent();
        front.lemma_flatten_and_flatten_alt_are_equivalent();
    } else {
        assert(held =~= Seq::<Seq<Seq<Value>>>::empty());
    }
}

/// A scan of a table gives the rows that were written to the blocks of its file, in their order.
pub proof fn scan_gives_the_stored_rows(
    tables: Seq<TableSpec>,
    op: QueryOp,
    files: TableFiles,
    table: int,
    held: Seq<Seq<Seq<Value>>>,
    unused: Seq<Seq<u8>>,
)
    requires
        op is Scan,
        0 <= table < tables.len(),
        tables[table].name@ == op->Scan_0.table_id@ || tables[table].file_id@
            == op->Scan_0.table_id@,
        forall|i: int|
            0 <= i < table ==> (#[trigger] tables[i]).name@ != op->Scan_0.table_id@
                && tables[i].file_id@ != op->Scan_0.table_id@,
        held.len() == (files.count)(table),
        unused.len() == held.len(),
        forall|b: int|
            0 <= b < held.len() ==> (files.disk)((files.start)(table) + b) == #[trigger] block_bytes(
                held[b],
                unused[b],
            ),
        forall|b: int| 0 <= b < held.len() ==> (#[trigger] held[b]).len() <= 0xffff,
        forall|b: int, i: int|
            0 <= b < held.len() && 0 <= i < held[b].len() ==> is_row(
                #[trigger] held[b][i],
                Seq::new(
                    tables[table].column_specs@.len(),
                    |c: int| tables[table].column_specs@[c].data_type,
                ),
            ),
    ensures
        answer(tables, op, files) == held.flatten(),
        logical_columns(tables, op) is Ok,
        logical_columns(tables, op)->Ok_0 == Seq::new(
            tables[table].column_specs@.len(),
            |c: int| tables[table].column_specs@[c].column_name@,
        ),
{
    let id = op->Scan_0.table_id@;
    let specs = tables[table].column_specs@;
    let types = types_of(specs);
    crate::catalog::table_at_is_first(tables, id);
    assert(crate::catalog::goes_by(tables[table], id));
    let found = table_at(tables, id);
    assert(found == Some(table)) by {
        let k = found->0;
        if k < table {
            assert(tables[k].name@ != id);
        }
    }
    assert(types =~= Seq::new(specs.len(), |c: int| specs[c].data_type));
    assert(names_of(specs) =~= Seq::new(specs.len(), |c: int| specs[c].column_name@));
    let blocks = files.content(table);
    assert forall|b: int| 0 <= b < blocks.len() implies (#[trigger] block_rows(
        blocks[b],
        types,
        None,
        None,
        None,
    )) is Ok && block_rows(blocks[b], types, None, None, None)->Ok_0 == held[b] by {
        assert(blocks[b] == block_bytes(held[b], unused[b]));
        assert(held[b].len() <= 0xffff);
        assert forall|i: int| 0 <= i < held[b].len() implies is_row(
            #[trigger] held[b][i],
            types,
        ) by {}
        stored_rows_are_read_back(held[b], types, unused[b]);
    }
    lemma_rows_of_blocks(blocks, types, held);
}

/// A filter gives those rows of its input of which all its predicates are true, in their order.
pub proof fn filter_gives_the_rows_that_pass(
    tables: Seq<TableSpec>,
    op: QueryOp,
    files: TableFiles,
    below: QueryOp,
)
    requires
        op is Filter,
        below == *op->Filter_0.underlying,
    ensures
        answer(tables, op, files) == answer(tables, below, files).filter(
            |row: Seq<Value>|
                all_true_of(
                    logical_columns(tables, below)->Ok_0,
                    row,
                    op->Filter_0.predicates@,
                ),
        ),
        logical_columns(tables, op) == logical_columns(tables, below),
{
    filter_keeps_the_rows_that_pass(
        logical_columns(tables, below)->Ok_0,
        op->Filter_0.predicates@,
        answer(tables, below, files),
    );
}

/// A projection gives a row for each row of its input, in their order; each of its columns holds
/// the value of the column that it is made of, under the name that it was given.
pub proof fn projection_gives_the_named_columns(
    tables: Seq<TableSpec>,
    op: QueryOp,
    files: TableFiles,
    below: QueryOp,
    i: int,
    k: int,
)
    requires
        op is Project,
        below == *op->Project_0.underlying,
        0 <= i < answer(tables, below, files).len(),
        0 <= k < op->Project_0.column_name_map@.len(),
    ensures
        answer(tables, op, files).len() == answer(tables, below, files).len(),
        answer(tables, op, files)[i].len() == op->Project_0.column_name_map@.len(),
        answer(tables, op, files)[i][k] == answer(tables, below, files)[i][column_position(
            logical_columns(tables, below)->Ok_0,
            op->Project_0.column_name_map@[k].0@,
        )],
        logical_columns(tables, op) is Ok,
        (logical_columns(tables, op)->Ok_0).len() == op->Project_0.column_name_map@.len(),
        (logical_columns(tables, op)->Ok_0)[k] == op->Project_0.column_name_map@[k].1@,
{
    let rows = answer(tables, below, files);
    let columns = logical_columns(tables, below)->Ok_0;
    let map = op->Project_0.column_name_map@;
    let at = column_positions(columns, sources(map));
    assert(picked(at, rows)[i] == pick(rows[i], at));
    assert(at[k] == column_position(columns, map[k].0@));
}

proof fn lemma_all_pairs(ls: Seq<Seq<Value>>, rs: Seq<Seq<Value>>, i: int, j: int)
    requires
        0 <= i < ls.len(),
        0 <= j < rs.len(),
    ensures
        all_pairs(ls, rs).len() == ls.len() * rs.len(),
        0 <= i * rs.len() + j < ls.len() * rs.len(),
        all_pairs(ls, rs)[i * rs.len() + j] == ls[i] + rs[j],
    decreases ls.len(),
{
    let init = ls.drop_last();
    let front = all_pairs(init, rs);
    let n = rs.len() as int;
    let m = init.len() as int;
    assert((m + 1) * n == m * n + n) by (nonlinear_arith);
    lemma_all_pairs_len(init, rs);
    assert(0 <= i * n) by (nonlinear_arith)
        requires
            0 <= i,
            0 <= n,
    ;
    if i < m {
        lemma_all_pairs(init, rs, i, j);
        assert(init[i] == ls[i]);
    } else {
        assert(before_each(ls.last(), rs)[j] == ls.last() + rs[j]);
    }
}

proof fn lemma_all_pairs_len(ls: Seq<Seq<Value>>, rs: Seq<Seq<Value>>)
    ensures
        all_pairs(ls, rs).len() == ls.len() * rs.len(),
    decreases ls.len(),
{
    if ls.len() > 0 {
        lemma_all_pairs_len(ls.drop_last(), rs);
        let m = ls.len() - 1;
        let n = rs.len() as int;
        assert((m + 1) * n == m * n + n) by (nonlinear_arith);
    } else {
        assert(0 * rs.len() == 0) by (nonlinear_arith);
    }
}

/// A cross product gives every left row with every right row once, the columns of the left one
/// first: left row by left row, and for each of them right row by right row.
pub proof fn cross_product_gives_every_pair(
    tables: Seq<TableSpec>,
    op: QueryOp,
    files: TableFiles,
    left: QueryOp,
    right: QueryOp,
    i: int,
    j: int,
)
    requires
        op is Cross,
        left == *op->Cross_0.left,
        right == *op->Cross_0.right,
        0 <= i < answer(tables, left, files).len(),
        0 <= j < answer(tables, right, files).len(),
    ensures
        ({
            let ls = answer(tables, left, files);
            let rs = answer(tables, right, files);
            let rows = answer(tables, op, files);
            &&& rows.len() == ls.len() * rs.len()
            &&& 0 <= i * rs.len() + j < rows.len()
            &&& rows[i * rs.len() + j] == ls[i] + rs[j]
        }),
        logical_columns(tables, left) is Ok && logical_columns(tables, right) is Ok
            ==> logical_columns(tables, op) is Ok && logical_columns(tables, op)->Ok_0
            == logical_columns(tables, left)->Ok_0 + logical_columns(tables, right)->Ok_0,
{
    lemma_all_pairs(answer(tables, left, files), answer(tables, right, files), i, j);
}

/// A cross product with an input that has no rows has none.
pub proof fn cross_product_with_nothing_is_empty(
    tables: Seq<TableSpec>,
    op: QueryOp,
    files: TableFiles,
)
    requires
        op is Cross,
        answer(tables, *op->Cross_0.left, files).len() == 0 || answer(
            tables,
            *op->Cross_0.right,
            files,
        ).len() == 0,
    ensures
        answer(tables, op, files).len() == 0,
{
    let ls = answer(tables, *op->Cross_0.left, files);
    let rs = answer(tables, *op->Cross_0.right, files);
    lemma_all_pairs_len(ls, rs);
    assert(ls.len() * rs.len() == 0) by (nonlinear_arith)
        requires
            ls.len() == 0 || rs.len() == 0,
    ;
}

/// A sort has the rows and the columns of its input.
pub proof fn sort_keeps_rows_and_columns(tables: Seq<TableSpec>, op: QueryOp, files: TableFiles)
    requires
        op is Sort,
    ensures
        answer(tables, op, files).to_multiset() == answer(
            tables,
            *op->Sort_0.underlying,
            files,
        ).to_multiset(),
        logical_columns(tables, op) == logical_columns(tables, *op->Sort_0.underlying),
{
}

/// Whether a block holds rows of columns of these types.
pub open spec fn is_block(block: Seq<u8>, types: Seq<DataType>) -> bool {
    exists|rows: Seq<Seq<Value>>, unused: Seq<u8>|
        block == #[trigger] block_bytes(rows, unused) && rows.len() <= 0xffff && forall|i: int|
            0 <= i < rows.len() ==> is_row(#[trigger] rows[i], types)
}

/// Whether the file of a table holds nothing but blocks of rows of the table.
pub open spec fn holds_rows(files: TableFiles, table: int, types: Seq<DataType>) -> bool {
    forall|b: int|
        0 <= b < (files.count)(table) ==> #[trigger] is_block(
            (files.disk)((files.start)(table) + b),
            types,
        )
}

/// A query can read tables whose files hold blocks of their rows.
pub proof fn stored_tables_can_be_read(tables: Seq<TableSpec>, op: QueryOp, files: TableFiles)
    requires
        forall|t: int|
            0 <= t < tables.len() ==> holds_rows(
                files,
                t,
                types_of((#[trigger] tables[t]).column_specs@),
            ),
    ensures
        readable(tables, op, files),
    decreases op,
{
    match op {
        QueryOp::Scan(d) => {
            crate::catalog::table_at_is_first(tables, d.table_id@);
            if let Some(t) = table_at(tables, d.table_id@) {
                let types = types_of(tables[t].column_specs@);
                let blocks = files.content(t);
                assert(holds_rows(files, t, types));
                reveal(all_decode);
                assert forall|b: int| 0 <= b < blocks.len() implies block_rows(
                    #[trigger] blocks[b],
                    types,
                    None,
                    None,
                    None,
                ) is Ok by {
                    assert(is_block((files.disk)((files.start)(t) + b), types));
                    let (rows, unused) = choose|rows: Seq<Seq<Value>>, unused: Seq<u8>|
                        (files.disk)((files.start)(t) + b) == #[trigger] block_bytes(rows, unused)
                            && rows.len() <= 0xffff && forall|i: int|
                            0 <= i < rows.len() ==> is_row(#[trigger] rows[i], types);
                    stored_rows_are_read_back(rows, types, unused);
                }
            }
        },
        QueryOp::Filter(d) => stored_tables_can_be_read(tables, *d.underlying, files),
        QueryOp::Project(d) => stored_tables_can_be_read(tables, *d.underlying, files),
        QueryOp::Sort(d) => stored_tables_can_be_read(tables, *d.underlying, files),
        QueryOp::Cross(d) => {
            stored_tables_can_be_read(tables, *d.left, files);
            stored_tables_can_be_read(tables, *d.right, files);
        },
    }
}

/// A query of a table that there is not is turned down, and the table is named.
pub proof fn unknown_tables_are_named(tables: Seq<TableSpec>, op: QueryOp, e: DbError)
    requires
        op is Scan,
        forall|i: int|
            0 <= i < tables.len() ==> (#[trigger] tables[i]).name@ != op->Scan_0.table_id@
                && tables[i].file_id@ != op->Scan_0.table_id@,
        plan_of(tables, op, None) is Err,
        is_issue(e, plan_of(tables, op, None)->Err_0),
    ensures
        e is TableNotFound,
        e->TableNotFound_0@ == op->Scan_0.table_id@,
{
    let id = op->Scan_0.table_id@;
    crate::catalog::table_at_is_first(tables, id);
    if let Some(i) = table_at(tables, id) {
        assert(crate::catalog::goes_by(tables[i], id));
    }
}

/// A query of a table that there is has a plan.
pub proof fn known_tables_are_found(tables: Seq<TableSpec>, op: QueryOp, table: int)
    requires
        op is Scan,
        0 <= table < tables.len(),
        tables[table].name@ == op->Scan_0.table_id@ || tables[table].file_id@
            == op->Scan_0.table_id@,
    ensures
        plan_of(tables, op, None) is Ok,
{
    let id = op->Scan_0.table_id@;
    crate::catalog::table_at_is_first(tables, id);
    assert(crate::catalog::goes_by(tables[table], id));
}

/// A sort by a column that there is not is turned down, and the first such column is named.
pub proof fn unknown_sort_columns_are_named(
    tables: Seq<TableSpec>,
    op: QueryOp,
    e: DbError,
    k: int,
)
    requires
        op is Sort,
        plan_of(tables, op, None) is Err,
        is_issue(e, plan_of(tables, op, None)->Err_0),
        plan_within(
            tables,
            *op->Sort_0.underlying,
            None,
            (height(op) - 1) as nat,
        ) is Ok,
        0 <= k < op->Sort_0.sort_specs@.len(),
        ({
            let columns = plan_columns(
                plan_within(
                    tables,
                    *op->Sort_0.underlying,
                    None,
                    (height(op) - 1) as nat,
                )->Ok_0,
            );
            &&& !columns.contains(op->Sort_0.sort_specs@[k].column_name@)
            &&& forall|i: int|
                0 <= i < k ==> columns.contains(
                    (#[trigger] op->Sort_0.sort_specs@[i]).column_name@,
                )
        }),
    ensures
        e is ColumnNotFound,
        e->ColumnNotFound_0@ == op->Sort_0.sort_specs@[k].column_name@,
{
    let specs = op->Sort_0.sort_specs@;
    let p = plan_within(tables, *op->Sort_0.underlying, None, (height(op) - 1) as nat)->Ok_0;
    let columns = plan_columns(p);
    let pairs = sort_pairs(specs);
    let names = pair_names(pairs);
    assert(names[k] == specs[k].column_name@);
    assert forall|i: int| 0 <= i < k implies columns.contains(#[trigger] names[i]) by {
        assert(names[i] == specs[i].column_name@);
    }
    the_first_missing_column_is_named(columns, names, k);
}

} // verus!

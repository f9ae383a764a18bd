//! A plan gives the rows that its query asks for.

use vstd::multiset::Multiset;
use vstd::prelude::*;
use crate::answer::{all_met, answer, is_met, lemma_total_join, lemma_total_pairs, lemma_total_passing, named, total_named, where_met};
use crate::block_answer::{block_ok, keys_tell, leaf_alike, leaves_alike, lemma_block_sums, lemma_filter_from, lemma_link_needed, lemma_link_owners, lemma_pairs_len, relations};
use crate::block_decode::{block_rows, kept_count, kept_values, lemma_row_lengths, pruned_scan_projects};
use crate::catalog::{TableSpec, names_of, table_at, types_of};
use crate::execution::lemma_kept_counted;
use crate::filter::{Test, first_missing_column, row_passes};
use crate::join_builder::joined_on;
use crate::join_order::{conditions_of, greedy_order_exists, greedy_order_is_a_permutation, is_known, link_of, local_to, owner_is_first};
use crate::join_spec::{JoinOn, join_of, joins, left_with, pair};
use crate::names::{all_columns_are_read, all_columns_of, columns_of, sort_columns_of};
use crate::pipeline::{filters, is_result, keys_of, lemma_all_kept, mask, passing, picked, projects, sorts, tests_of};
use crate::ordering::{SortKey, all_typed, row_typed, sortable, sorted};
use crate::plan::{PlanIssue, PlanTree, plan_columns, sort_pairs};
use crate::plan_laws::{is_needed, keeps_columns, lemma_built_leaves, lemma_concat_contains, lemma_gathered_columns, lemma_leaf_heights, lemma_plan_keeps};
use crate::planner::{Flattened, JoinBlock, block_order, built_leaves, flattened, height, kept_positions, leaf_needs, leaves_of, left_deep, logical_columns, plan_of, plan_within, scan_tree};
use crate::project::{aliases, sources};
use crate::query::{Condition, Operand, QueryOp, conditions};
use crate::row::{column_position, column_position_is_first, column_position_unique, column_positions, pick};
use crate::scan::{TableFiles, all_decode, rows_of_blocks};
use crate::sums::{total, total_map, total_of_multiset, total_same, totals_tell_items};
use crate::value::{DataType, Value};

verus! {

/// Whether the files of the tables that a query reads hold rows of their tables.
pub open spec fn readable(tables: Seq<TableSpec>, op: QueryOp, files: TableFiles) -> bool
    decreases op,
{
    match op {
        QueryOp::Scan(d) => table_at(tables, d.table_id@) matches Some(i) ==> all_decode(
            files.content(i),
            types_of(tables[i].column_specs@),
            None,
            None,
            None,
        ),
        QueryOp::Filter(d) => readable(tables, *d.underlying, files),
        QueryOp::Project(d) => readable(tables, *d.underlying, files),
        QueryOp::Sort(d) => readable(tables, *d.underlying, files),
        QueryOp::Cross(d) => readable(tables, *d.left, files) && readable(
            tables,
            *d.right,
            files,
        ),
    }
}

/// Whether named values agree on the columns that are needed.
pub open spec fn agree(
    a: spec_fn(Seq<char>) -> Value,
    b: spec_fn(Seq<char>) -> Value,
    columns: Seq<Seq<char>>,
    needed: Option<Set<Seq<char>>>,
) -> bool {
    forall|c: Seq<char>| #[trigger] columns.contains(c) && is_needed(needed, c) ==> a(c) == b(c)
}

/// Whether a weight reads only the columns that are needed.
pub open spec fn depends(
    w: spec_fn(spec_fn(Seq<char>) -> Value) -> nat,
    columns: Seq<Seq<char>>,
    needed: Option<Set<Seq<char>>>,
) -> bool {
    forall|a: spec_fn(Seq<char>) -> Value, b: spec_fn(Seq<char>) -> Value| #[trigger]
        agree(a, b, columns, needed) ==> w(a) == w(b)
}

/// What a scan keeps of a row are the values of the kept columns.
proof fn lemma_kept_values(
    columns: Seq<Seq<char>>,
    needed: Set<Seq<char>>,
    row: Seq<Value>,
    n: nat,
)
    requires
        n <= columns.len(),
    ensures
        kept_values(
            row,
            mask(Some(kept_positions(columns, needed)), columns.len() as int)->0,
            n,
        ) == pick(row, kept_positions(columns.take(n as int), needed)),
    decreases n,
{
    let all = kept_positions(columns, needed);
    let m = mask(Some(all), columns.len() as int)->0;
    let now = columns.take(n as int);
    if n > 0 {
        lemma_kept_values(columns, needed, row, (n - 1) as nat);
        lemma_kept_counted(columns, needed);
        assert(now.drop_last() =~= columns.take(n - 1));
        assert(now.last() == columns[n - 1]);
        assert(m[n - 1] == all.contains(n - 1));
        assert(all.contains(n - 1) <==> needed.contains(columns[n - 1]));
        let before = kept_positions(columns.take(n - 1), needed);
        if needed.contains(columns[n - 1]) {
            assert(pick(row, before.push(n - 1)) =~= pick(row, before).push(row[n - 1]));
        }
    } else {
        assert(pick(row, kept_positions(now, needed)) =~= Seq::<Value>::empty());
    }
}

/// A scan that leaves columns out gives the rows of the whole table with the kept columns.
proof fn lemma_pruned_rows(
    blocks: Seq<Seq<u8>>,
    types: Seq<DataType>,
    columns: Seq<Seq<char>>,
    needed: Set<Seq<char>>,
)
    requires
        types.len() == columns.len(),
        forall|i: int|
            0 <= i < blocks.len() ==> block_rows(#[trigger] blocks[i], types, None, None, None)
                is Ok,
    ensures
        rows_of_blocks(
            blocks,
            types,
            mask(Some(kept_positions(columns, needed)), columns.len() as int),
            None,
            None,
        ) == picked(
            kept_positions(columns, needed),
            rows_of_blocks(blocks, types, None, None, None),
        ),
    decreases blocks.len(),
{
    let kept = kept_positions(columns, needed);
    let m = mask(Some(kept), columns.len() as int);
    if blocks.len() > 0 {
        let init = blocks.drop_last();
        assert forall|i: int| 0 <= i < init.len() implies block_rows(
            #[trigger] init[i],
            types,
            None,
            None,
            None,
        ) is Ok by {
            assert(init[i] == blocks[i]);
        }
        lemma_pruned_rows(init, types, columns, needed);
        let last = blocks.last();
        assert(last == blocks[blocks.len() - 1]);
        assert(block_rows(blocks[blocks.len() - 1], types, None, None, None) is Ok);
        pruned_scan_projects(last, types, m->0);
        let whole = block_rows(last, types, None, None, None)->Ok_0;
        let part = block_rows(last, types, m, None, None)->Ok_0;
        assert(part =~= picked(kept, whole)) by {
            assert forall|i: int| 0 <= i < whole.len() implies #[trigger] part[i] == picked(
                kept,
                whole,
            )[i] by {
                lemma_kept_values(columns, needed, whole[i], columns.len());
                assert(columns.take(columns.len() as int) =~= columns);
            }
        }
        let before = rows_of_blocks(init, types, None, None, None);
        assert(picked(kept, before + whole) =~= picked(kept, before) + picked(kept, whole));
    } else {
        assert(picked(kept, Seq::<Seq<Value>>::empty()) =~= Seq::<Seq<Value>>::empty());
    }
}

/// The kept columns are in their order.
proof fn lemma_kept_rise(columns: Seq<Seq<char>>, needed: Set<Seq<char>>)
    ensures
        forall|i: int, j: int|
            0 <= i < j < kept_positions(columns, needed).len() ==> #[trigger] kept_positions(
                columns,
                needed,
            )[i] < #[trigger] kept_positions(columns, needed)[j],
    decreases columns.len(),
{
    if columns.len() > 0 {
        let init = columns.drop_last();
        lemma_kept_rise(init, needed);
        lemma_kept_counted(init, needed);
        let kept = kept_positions(columns, needed);
        let before = kept_positions(init, needed);
        assert forall|i: int, j: int| 0 <= i < j < kept.len() implies #[trigger] kept[i]
            < #[trigger] kept[j] by {
            assert(kept[i] == before[i]);
            if j < before.len() {
                assert(kept[j] == before[j]);
            }
        }
    }
}

/// A kept column has the same values in what is kept.
proof fn lemma_kept_named(
    columns: Seq<Seq<char>>,
    needed: Set<Seq<char>>,
    row: Seq<Value>,
    c: Seq<char>,
)
    requires
        columns.contains(c),
        needed.contains(c),
    ensures
        ({
            let kept = kept_positions(columns, needed);
            named(kept.map_values(|i: int| columns[i]), pick(row, kept))(c) == named(columns, row)(
                c,
            )
        }),
{
    let kept = kept_positions(columns, needed);
    let names = kept.map_values(|i: int| columns[i]);
    let j = column_position(columns, c);
    column_position_is_first(columns, c);
    lemma_kept_counted(columns, needed);
    lemma_kept_rise(columns, needed);
    assert(needed.contains(columns[j]));
    assert(kept.contains(j));
    let m = choose|m: int| 0 <= m < kept.len() && kept[m] == j;
    assert(names[m] == c);
    assert forall|k: int| 0 <= k < m implies names[k] != c by {
        assert(kept[k] < kept[m]);
        assert(columns[kept[k]] != c);
    }
    column_position_unique(names, c, m);
}

/// The lengths of the rows of some blocks.
proof fn lemma_block_lengths(blocks: Seq<Seq<u8>>, types: Seq<DataType>, keep: Option<Seq<bool>>)
    requires
        forall|i: int|
            0 <= i < blocks.len() ==> block_rows(#[trigger] blocks[i], types, keep, None, None)
                is Ok,
    ensures
        forall|i: int|
            0 <= i < rows_of_blocks(blocks, types, keep, None, None).len()
                ==> (#[trigger] rows_of_blocks(blocks, types, keep, None, None)[i]).len()
                == kept_count(keep, types.len()),
    decreases blocks.len(),
{
    if blocks.len() > 0 {
        let init = blocks.drop_last();
        assert forall|i: int| 0 <= i < init.len() implies block_rows(
            #[trigger] init[i],
            types,
            keep,
            None,
            None,
        ) is Ok by {
            assert(init[i] == blocks[i]);
        }
        lemma_block_lengths(init, types, keep);
        assert(block_rows(blocks[blocks.len() - 1], types, keep, None, None) is Ok);
        lemma_row_lengths(blocks.last(), types, keep, None, None);
        let before = rows_of_blocks(init, types, keep, None, None);
        let last = block_rows(blocks.last(), types, keep, None, None)->Ok_0;
        let all = before + last;
        assert forall|i: int| 0 <= i < all.len() implies (#[trigger] all[i]).len() == kept_count(
            keep,
            types.len(),
        ) by {
            if i < before.len() {
                assert(all[i] == before[i]);
            } else {
                assert(all[i] == last[i - before.len()]);
            }
        }
    }
}

/// Whether all rows have a length.
pub open spec fn have_len(rows: Seq<Seq<Value>>, n: nat) -> bool {
    forall|i: int| 0 <= i < rows.len() ==> (#[trigger] rows[i]).len() == n
}

proof fn lemma_passing_len(ts: Seq<Test>, rows: Seq<Seq<Value>>, n: nat)
    requires
        have_len(rows, n),
    ensures
        have_len(passing(ts, rows), n),
    decreases rows.len(),
{
    if rows.len() > 0 {
        let init = rows.drop_last();
        assert forall|i: int| 0 <= i < init.len() implies (#[trigger] init[i]).len() == n by {
            assert(init[i] == rows[i]);
        }
        lemma_passing_len(ts, init, n);
        assert(rows[rows.len() - 1].len() == n);
    }
}

proof fn lemma_left_with_len(
    on: JoinOn,
    l: Seq<Value>,
    rs: Seq<Seq<Value>>,
    m: nat,
    x: Seq<Value>,
)
    requires
        have_len(rs, m),
        left_with(on, l, rs).count(x) > 0,
    ensures
        x.len() == l.len() + m,
    decreases rs.len(),
{
    if rs.len() > 0 {
        let init = rs.drop_last();
        assert forall|i: int| 0 <= i < init.len() implies (#[trigger] init[i]).len() == m by {
            assert(init[i] == rs[i]);
        }
        assert(rs[rs.len() - 1].len() == m);
        if left_with(on, l, init).count(x) > 0 {
            lemma_left_with_len(on, l, init, m, x);
        } else {
            assert(pair(on, l, rs.last()).count(x) > 0);
        }
    }
}

pub proof fn lemma_join_len(
    on: JoinOn,
    ls: Seq<Seq<Value>>,
    rs: Seq<Seq<Value>>,
    n: nat,
    m: nat,
    x: Seq<Value>,
)
    requires
        have_len(ls, n),
        have_len(rs, m),
        join_of(on, ls, rs).count(x) > 0,
    ensures
        x.len() == n + m,
    decreases ls.len(),
{
    if ls.len() > 0 {
        let init = ls.drop_last();
        assert forall|i: int| 0 <= i < init.len() implies (#[trigger] init[i]).len() == n by {
            assert(init[i] == ls[i]);
        }
        assert(ls[ls.len() - 1].len() == n);
        if join_of(on, init, rs).count(x) > 0 {
            lemma_join_len(on, init, rs, n, m, x);
        } else {
            assert(left_with(on, ls.last(), rs).count(x) > 0);
            lemma_left_with_len(on, ls.last(), rs, m, x);
        }
    }
}

/// The values of two rows laid end to end: those of the columns that the left side has, and
/// else those of the right side.
pub open spec fn both(
    columns: Seq<Seq<char>>,
    a: spec_fn(Seq<char>) -> Value,
    b: spec_fn(Seq<char>) -> Value,
) -> spec_fn(Seq<char>) -> Value {
    |c: Seq<char>|
        if columns.contains(c) {
            a(c)
        } else {
            b(c)
        }
}

pub proof fn lemma_named_both(
    ls: Seq<Seq<char>>,
    rs: Seq<Seq<char>>,
    l: Seq<Value>,
    r: Seq<Value>,
    c: Seq<char>,
)
    requires
        l.len() == ls.len(),
        r.len() == rs.len(),
    ensures
        ls.contains(c) ==> named(ls + rs, l + r)(c) == named(ls, l)(c),
        !ls.contains(c) && rs.contains(c) ==> named(ls + rs, l + r)(c) == named(rs, r)(c),
{
    if ls.contains(c) {
        let i = column_position(ls, c);
        column_position_is_first(ls, c);
        assert((ls + rs)[i] == c);
        assert forall|k: int| 0 <= k < i implies (ls + rs)[k] != c by {
            assert((ls + rs)[k] == ls[k]);
        }
        column_position_unique(ls + rs, c, i);
        assert((l + r)[i] == l[i]);
    } else if rs.contains(c) {
        let i = column_position(rs, c);
        column_position_is_first(rs, c);
        let at = ls.len() + i;
        assert((ls + rs)[at] == c);
        assert forall|k: int| 0 <= k < at implies (ls + rs)[k] != c by {
            if k < ls.len() {
                assert((ls + rs)[k] == ls[k]);
                assert(ls.contains(ls[k]));
            } else {
                assert((ls + rs)[k] == rs[k - ls.len()]);
            }
        }
        column_position_unique(ls + rs, c, at);
        assert((l + r)[at] == r[i]);
    }
}

/// Conditions hold alike of named values that agree on the columns that they read.
pub proof fn lemma_met_alike(
    cs: Seq<Condition>,
    a: spec_fn(Seq<char>) -> Value,
    b: spec_fn(Seq<char>) -> Value,
)
    requires
        forall|i: int, c: Seq<char>|
            0 <= i < cs.len() && #[trigger] columns_of(cs[i]).contains(c) ==> a(c) == b(c),
    ensures
        all_met(cs, a) <==> all_met(cs, b),
{
    assert forall|i: int| 0 <= i < cs.len() implies is_met(#[trigger] cs[i], a) == is_met(
        cs[i],
        b,
    ) by {
        let c = cs[i];
        assert(columns_of(c).contains(c.column));
        if let Operand::Column(other) = c.operand {
            assert(columns_of(c).contains(other));
        }
    }
}

/// Where no column is missing, all columns that the conditions read are there.
proof fn lemma_none_missing(columns: Seq<Seq<char>>, cs: Seq<Condition>)
    requires
        first_missing_column(columns, cs) is None,
    ensures
        forall|i: int, c: Seq<char>|
            0 <= i < cs.len() && #[trigger] columns_of(cs[i]).contains(c) ==> columns.contains(c),
    decreases cs.len(),
{
    if cs.len() > 0 {
        let rest = cs.drop_first();
        lemma_none_missing(columns, rest);
        assert forall|i: int, c: Seq<char>|
            0 <= i < cs.len() && #[trigger] columns_of(cs[i]).contains(c) implies columns.contains(
            c,
        ) by {
            if i > 0 {
                assert(rest[i - 1] == cs[i]);
                assert(columns_of(rest[i - 1]).contains(c));
            }
        }
    }
}

/// Whether rows of a plan and rows of a query have the same sums, for all weights that read only
/// what is needed.
pub open spec fn sums_alike(
    columns: Seq<Seq<char>>,
    rows: Seq<Seq<Value>>,
    all_columns: Seq<Seq<char>>,
    all: Seq<Seq<Value>>,
    needed: Option<Set<Seq<char>>>,
) -> bool {
    forall|w: spec_fn(spec_fn(Seq<char>) -> Value) -> nat| #[trigger]
        depends(w, all_columns, needed) ==> total_named(columns, rows, w) == total_named(
            all_columns,
            all,
            w,
        )
}

proof fn lemma_scan_sum(
    tables: Seq<TableSpec>,
    op: QueryOp,
    needed: Option<Set<Seq<char>>>,
    files: TableFiles,
    tree: PlanTree,
    rows: Seq<Seq<Value>>,
)
    requires
        op is Scan,
        readable(tables, op, files),
        logical_columns(tables, op) is Ok,
        ({
            let id = (op->Scan_0).table_id@;
            tree == scan_tree(
                id,
                names_of(tables[table_at(tables, id)->0].column_specs@),
                needed,
            )
        }),
        is_result(tree, tables, files, rows),
    ensures
        sums_alike(
            plan_columns(tree),
            rows,
            logical_columns(tables, op)->Ok_0,
            answer(tables, op, files),
            needed,
        ),
        have_len(rows, plan_columns(tree).len()),
        have_len(answer(tables, op, files), (logical_columns(tables, op)->Ok_0).len()),
{
    reveal(all_decode);
    let id = (op->Scan_0).table_id@;
    let i = table_at(tables, id)->0;
    let columns = names_of(tables[i].column_specs@);
    let types = types_of(tables[i].column_specs@);
    let blocks = files.content(i);
    let all = answer(tables, op, files);
    lemma_block_lengths(blocks, types, None);
    lemma_all_kept(types.len());
    assert(have_len(all, columns.len()));
    if tree is Scan && tree->kept is Some {
        let set = needed->0;
        let kept = kept_positions(columns, set);
        let names = kept.map_values(|k: int| columns[k]);
        lemma_pruned_rows(blocks, types, columns, set);
        assert(rows == picked(kept, all));
        let f = |r: Seq<Value>| pick(r, kept);
        assert forall|w: spec_fn(spec_fn(Seq<char>) -> Value) -> nat| #[trigger]
            depends(w, columns, needed) implies total_named(names, rows, w) == total_named(
            columns,
            all,
            w,
        ) by {
            let g = |row: Seq<Value>| w(named(names, row));
            total_map(all, f, g);
            let v = |row: Seq<Value>| w(named(columns, row));
            let u = |row: Seq<Value>| g(f(row));
            assert forall|k: int| 0 <= k < all.len() implies u(#[trigger] all[k]) == v(all[k]) by {
                let a = named(names, pick(all[k], kept));
                let b = named(columns, all[k]);
                assert(agree(a, b, columns, needed)) by {
                    assert forall|c: Seq<char>| #[trigger] columns.contains(c) && is_needed(
                        needed,
                        c,
                    ) implies a(c) == b(c) by {
                        lemma_kept_named(columns, set, all[k], c);
                    }
                }
            }
            total_same(all, u, v);
        }
    }
}

/// The named values of a projection.
pub open spec fn renamed(
    from: Seq<Seq<char>>,
    to: Seq<Seq<char>>,
    a: spec_fn(Seq<char>) -> Value,
) -> spec_fn(Seq<char>) -> Value {
    |c: Seq<char>| a(from[column_position(to, c)])
}

/// The sum over a projection is a sum over what it reads.
proof fn lemma_project_sum(
    columns: Seq<Seq<char>>,
    from: Seq<Seq<char>>,
    to: Seq<Seq<char>>,
    needed: Option<Set<Seq<char>>>,
    rows: Seq<Seq<Value>>,
    w: spec_fn(spec_fn(Seq<char>) -> Value) -> nat,
)
    requires
        from.len() == to.len(),
        depends(w, to, needed),
    ensures
        total_named(to, picked(column_positions(columns, from), rows), w) == total_named(
            columns,
            rows,
            |a: spec_fn(Seq<char>) -> Value| w(renamed(from, to, a)),
        ),
{
    let at = column_positions(columns, from);
    let f = |r: Seq<Value>| pick(r, at);
    let g = |row: Seq<Value>| w(named(to, row));
    total_map(rows, f, g);
    let v = |row: Seq<Value>| w(renamed(from, to, named(columns, row)));
    let u = |row: Seq<Value>| g(f(row));
    assert forall|k: int| 0 <= k < rows.len() implies u(#[trigger] rows[k]) == v(rows[k]) by {
        let a = named(to, pick(rows[k], at));
        let b = renamed(from, to, named(columns, rows[k]));
        assert(agree(a, b, to, needed)) by {
            assert forall|c: Seq<char>| #[trigger] to.contains(c) && is_needed(
                needed,
                c,
            ) implies a(c) == b(c) by {
                column_position_is_first(to, c);
            }
        }
    }
    total_same(rows, u, v);
    let x = |a: spec_fn(Seq<char>) -> Value| w(renamed(from, to, a));
    total_same(rows, v, |row: Seq<Value>| x(named(columns, row)));
}

/// Whether some columns are among others, and hold all of them that are needed.
pub open spec fn holds_needed(
    columns: Seq<Seq<char>>,
    all: Seq<Seq<char>>,
    needed: Option<Set<Seq<char>>>,
) -> bool {
    &&& forall|c: Seq<char>| #[trigger] columns.contains(c) ==> all.contains(c)
    &&& forall|c: Seq<char>| #[trigger]
        all.contains(c) && is_needed(needed, c) ==> columns.contains(c)
}

/// Two rows laid end to end have the values of both, where they are needed.
pub proof fn lemma_both_agree(
    ls: Seq<Seq<char>>,
    rs: Seq<Seq<char>>,
    all_left: Seq<Seq<char>>,
    all_right: Seq<Seq<char>>,
    needed: Option<Set<Seq<char>>>,
    l: Seq<Value>,
    r: Seq<Value>,
)
    requires
        holds_needed(ls, all_left, needed),
        holds_needed(rs, all_right, needed),
        l.len() == ls.len(),
        r.len() == rs.len(),
    ensures
        agree(
            named(ls + rs, l + r),
            both(all_left, named(ls, l), named(rs, r)),
            all_left + all_right,
            needed,
        ),
{
    let a = named(ls + rs, l + r);
    let b = both(all_left, named(ls, l), named(rs, r));
    let all = all_left + all_right;
    assert forall|c: Seq<char>| #[trigger] all.contains(c) && is_needed(needed, c) implies a(c)
        == b(c) by {
        lemma_concat_contains(all_left, all_right, c);
        lemma_named_both(ls, rs, l, r, c);
        if all_left.contains(c) {
            assert(ls.contains(c));
        } else {
            assert(all_right.contains(c));
            assert(rs.contains(c));
        }
    }
}

/// Sums over pairs are alike where the sums over both sides are.
proof fn lemma_cross_sum(
    ls: Seq<Seq<char>>,
    rs: Seq<Seq<char>>,
    a: Seq<Seq<Value>>,
    b: Seq<Seq<Value>>,
    all_left: Seq<Seq<char>>,
    all_right: Seq<Seq<char>>,
    all_a: Seq<Seq<Value>>,
    all_b: Seq<Seq<Value>>,
    needed: Option<Set<Seq<char>>>,
    w: spec_fn(spec_fn(Seq<char>) -> Value) -> nat,
)
    requires
        holds_needed(ls, all_left, needed),
        holds_needed(rs, all_right, needed),
        have_len(a, ls.len()),
        have_len(b, rs.len()),
        have_len(all_a, all_left.len()),
        have_len(all_b, all_right.len()),
        sums_alike(ls, a, all_left, all_a, needed),
        sums_alike(rs, b, all_right, all_b, needed),
        depends(w, all_left + all_right, needed),
    ensures
        total(a, |x: Seq<Value>| total(b, |y: Seq<Value>| w(named(ls + rs, x + y)))) == total(
            all_a,
            |x: Seq<Value>|
                total(all_b, |y: Seq<Value>| w(named(all_left + all_right, x + y))),
        ),
{
    let all = all_left + all_right;
    let lhs = |x: Seq<Value>| total(b, |y: Seq<Value>| w(named(ls + rs, x + y)));
    let rhs = |x: Seq<Value>| total(all_b, |y: Seq<Value>| w(named(all, x + y)));
    // What a left row counts for, by its named values.
    let mid = |e: spec_fn(Seq<char>) -> Value|
        total(all_b, |y: Seq<Value>| w(both(all_left, e, named(all_right, y))));
    assert forall|i: int| 0 <= i < a.len() implies lhs(#[trigger] a[i]) == mid(named(ls, a[i])) by {
        let x = a[i];
        let e = named(ls, x);
        let v = |f: spec_fn(Seq<char>) -> Value| w(both(all_left, e, f));
        assert(depends(v, all_right, needed)) by {
            assert forall|f: spec_fn(Seq<char>) -> Value, g: spec_fn(Seq<char>) -> Value| #[trigger]
                agree(f, g, all_right, needed) implies v(f) == v(g) by {
                assert(agree(both(all_left, e, f), both(all_left, e, g), all, needed)) by {
                    assert forall|c: Seq<char>| #[trigger] all.contains(c) && is_needed(
                        needed,
                        c,
                    ) implies both(all_left, e, f)(c) == both(all_left, e, g)(c) by {
                        lemma_concat_contains(all_left, all_right, c);
                        assert(all_right.contains(c) || all_left.contains(c));
                    }
                }
            }
        }
        assert(total_named(rs, b, v) == total_named(all_right, all_b, v));
        let p = |y: Seq<Value>| w(named(ls + rs, x + y));
        let q = |y: Seq<Value>| v(named(rs, y));
        assert forall|k: int| 0 <= k < b.len() implies p(#[trigger] b[k]) == q(b[k]) by {
            lemma_both_agree(ls, rs, all_left, all_right, needed, x, b[k]);
        }
        total_same(b, p, q);
        total_same(
            all_b,
            |y: Seq<Value>| v(named(all_right, y)),
            |y: Seq<Value>| w(both(all_left, e, named(all_right, y))),
        );
    }
    total_same(a, lhs, |x: Seq<Value>| mid(named(ls, x)));
    assert(depends(mid, all_left, needed)) by {
        assert forall|f: spec_fn(Seq<char>) -> Value, g: spec_fn(Seq<char>) -> Value| #[trigger]
            agree(f, g, all_left, needed) implies mid(f) == mid(g) by {
            let p = |y: Seq<Value>| w(both(all_left, f, named(all_right, y)));
            let q = |y: Seq<Value>| w(both(all_left, g, named(all_right, y)));
            assert forall|k: int| 0 <= k < all_b.len() implies p(#[trigger] all_b[k]) == q(
                all_b[k],
            ) by {
                let h = named(all_right, all_b[k]);
                assert(agree(both(all_left, f, h), both(all_left, g, h), all, needed)) by {
                    assert forall|c: Seq<char>| #[trigger] all.contains(c) && is_needed(
                        needed,
                        c,
                    ) implies both(all_left, f, h)(c) == both(all_left, g, h)(c) by {
                        if all_left.contains(c) {
                            assert(f(c) == g(c));
                        }
                    }
                }
            }
            total_same(all_b, p, q);
        }
    }
    assert(total_named(ls, a, mid) == total_named(all_left, all_a, mid));
    assert forall|i: int| 0 <= i < all_a.len() implies rhs(#[trigger] all_a[i]) == mid(
        named(all_left, all_a[i]),
    ) by {
        let x = all_a[i];
        let e = named(all_left, x);
        let p = |y: Seq<Value>| w(named(all, x + y));
        let q = |y: Seq<Value>| w(both(all_left, e, named(all_right, y)));
        assert forall|k: int| 0 <= k < all_b.len() implies p(#[trigger] all_b[k]) == q(all_b[k]) by {
            lemma_both_agree(all_left, all_right, all_left, all_right, needed, x, all_b[k]);
        }
        total_same(all_b, p, q);
    }
    total_same(all_a, rhs, |x: Seq<Value>| mid(named(all_left, x)));
}

/// Whether joins find what the equalities of a query ask for: where relations are joined by an
/// equality of columns, the values of these columns are the same exactly where they are equal.
pub open spec fn keys_agree(tables: Seq<TableSpec>, op: QueryOp, files: TableFiles) -> bool
    decreases op,
{
    match op {
        QueryOp::Scan(_) => true,
        QueryOp::Filter(d) => {
            &&& keys_agree(tables, *d.underlying, files)
            &&& flattened(tables, *d.underlying, conditions(d.predicates@), None) matches
                Flattened::Flat(block) ==> forall|k: int|
                0 <= k < block.links.len() ==> keys_tell(
                    tables,
                    block,
                    files,
                    #[trigger] block.links[k],
                )
        },
        QueryOp::Project(d) => keys_agree(tables, *d.underlying, files),
        QueryOp::Sort(d) => keys_agree(tables, *d.underlying, files),
        QueryOp::Cross(d) => keys_agree(tables, *d.left, files) && keys_agree(
            tables,
            *d.right,
            files,
        ),
    }
}

/// What is asked of a query is asked of its relations.
proof fn lemma_leaves_fit(tables: Seq<TableSpec>, op: QueryOp, files: TableFiles)
    requires
        readable(tables, op, files),
        keys_agree(tables, op, files),
    ensures
        forall|i: int|
            0 <= i < leaves_of(op).len() ==> readable(tables, #[trigger] leaves_of(op)[i], files)
                && keys_agree(tables, leaves_of(op)[i], files),
    decreases op,
{
    let all = leaves_of(op);
    match op {
        QueryOp::Cross(d) => {
            let l = leaves_of(*d.left);
            let r = leaves_of(*d.right);
            lemma_leaves_fit(tables, *d.left, files);
            lemma_leaves_fit(tables, *d.right, files);
            assert forall|i: int| 0 <= i < all.len() implies readable(
                tables,
                #[trigger] all[i],
                files,
            ) && keys_agree(tables, all[i], files) by {
                if i < l.len() {
                    assert(all[i] == l[i]);
                } else {
                    assert(all[i] == r[i - l.len()]);
                }
            }
        },
        _ => {
            assert(all[0] == op);
        },
    }
}

/// A join without conditions pairs all rows.
proof fn lemma_free_join(ls: Seq<Seq<char>>, rs: Seq<Seq<char>>, x: Seq<Value>, y: Seq<Value>)
    ensures
        joins(joined_on(ls, rs, Seq::empty()), x, y),
{
    let on = joined_on(ls, rs, Seq::empty());
    assert(pick(x, on.left_keys) =~= Seq::<Value>::empty());
    assert(pick(y, on.right_keys) =~= Seq::<Value>::empty());
    assert(on.extra =~= Seq::empty());
}

/// The rows of a plan have the sums of the rows of its query.
proof fn lemma_plan_sums(
    tables: Seq<TableSpec>,
    op: QueryOp,
    needed: Option<Set<Seq<char>>>,
    depth: nat,
    files: TableFiles,
    rows: Seq<Seq<Value>>,
)
    requires
        height(op) <= depth,
        plan_within(tables, op, needed, depth) is Ok,
        readable(tables, op, files),
        keys_agree(tables, op, files),
        is_result(plan_within(tables, op, needed, depth)->Ok_0, tables, files, rows),
    ensures
        logical_columns(tables, op) is Ok,
        have_len(rows, plan_columns(plan_within(tables, op, needed, depth)->Ok_0).len()),
        have_len(answer(tables, op, files), (logical_columns(tables, op)->Ok_0).len()),
        sums_alike(
            plan_columns(plan_within(tables, op, needed, depth)->Ok_0),
            rows,
            logical_columns(tables, op)->Ok_0,
            answer(tables, op, files),
            needed,
        ),
    decreases depth, 1nat,
{
    let tree = plan_within(tables, op, needed, depth)->Ok_0;
    let below = (depth - 1) as nat;
    lemma_plan_keeps(tables, op, needed, depth);
    let columns = logical_columns(tables, op)->Ok_0;
    match op {
        QueryOp::Scan(d) => {
            lemma_scan_sum(tables, op, needed, files, tree, rows);
        },
        QueryOp::Filter(d) => {
            let cs = conditions(d.predicates@);
            let child = match needed {
                Some(n) => Some(n.union(all_columns_of(cs))),
                None => None,
            };
            match flattened(tables, *d.underlying, cs, child) {
                Flattened::Failed(_) => {},
                Flattened::Flat(_) => {
                    lemma_flat_sums(tables, op, needed, depth, files, rows);
                },
                Flattened::NotFlat => {
                    let p = plan_within(tables, *d.underlying, child, below)->Ok_0;
                    let pc = plan_columns(p);
                    let under = choose|under: Seq<Seq<Value>>| #[trigger]
                        filters(pc, cs, under, rows) && is_result(p, tables, files, under);
                    lemma_plan_sums(tables, *d.underlying, child, below, files, under);
                    lemma_plan_keeps(tables, *d.underlying, child, below);
                    let all = answer(tables, *d.underlying, files);
                    lemma_passing_len(tests_of(pc, cs), under, pc.len());
                    lemma_passing_len(tests_of(columns, cs), all, columns.len());
                    lemma_none_missing(pc, cs);
                    assert forall|w: spec_fn(spec_fn(Seq<char>) -> Value) -> nat| #[trigger]
                        depends(w, columns, needed) implies total_named(pc, rows, w)
                        == total_named(columns, answer(tables, op, files), w) by {
                        let v = where_met(cs, w);
                        assert(depends(v, columns, child)) by {
                            assert forall|
                                a: spec_fn(Seq<char>) -> Value,
                                b: spec_fn(Seq<char>) -> Value,
                            | #[trigger] agree(a, b, columns, child) implies v(a) == v(b) by {
                                assert(agree(a, b, columns, needed));
                                assert forall|i: int, c: Seq<char>|
                                    0 <= i < cs.len() && #[trigger] columns_of(cs[i]).contains(
                                        c,
                                    ) implies a(c) == b(c) by {
                                    all_columns_are_read(cs, c);
                                    assert(pc.contains(c));
                                    assert(columns.contains(c));
                                }
                                lemma_met_alike(cs, a, b);
                            }
                        }
                        lemma_total_passing(pc, cs, under, w);
                        lemma_total_passing(columns, cs, all, w);
                    }
                },
            }
        },
        QueryOp::Cross(d) => {
            let l = plan_within(tables, *d.left, needed, below)->Ok_0;
            let r = plan_within(tables, *d.right, needed, below)->Ok_0;
            let ls = plan_columns(l);
            let rs = plan_columns(r);
            let (a, b) = choose|a: Seq<Seq<Value>>, b: Seq<Seq<Value>>| #[trigger]
                crate::pipeline::joins(ls, rs, Seq::empty(), a, b, rows) && is_result(
                    l,
                    tables,
                    files,
                    a,
                ) && is_result(r, tables, files, b);
            lemma_plan_sums(tables, *d.left, needed, below, files, a);
            lemma_plan_sums(tables, *d.right, needed, below, files, b);
            lemma_plan_keeps(tables, *d.left, needed, below);
            lemma_plan_keeps(tables, *d.right, needed, below);
            let lc = logical_columns(tables, *d.left)->Ok_0;
            let rc = logical_columns(tables, *d.right)->Ok_0;
            let all_a = answer(tables, *d.left, files);
            let all_b = answer(tables, *d.right, files);
            lemma_pairs_len(all_a, all_b, lc.len(), rc.len());
            let on = joined_on(ls, rs, Seq::empty());
            assert(have_len(rows, ls.len() + rs.len())) by {
                broadcast use vstd::seq_lib::group_to_multiset_ensures;

                assert forall|i: int| 0 <= i < rows.len() implies (#[trigger] rows[i]).len()
                    == ls.len() + rs.len() by {
                    assert(rows.contains(rows[i]));
                    assert(rows.to_multiset().count(rows[i]) > 0);
                    lemma_join_len(on, a, b, ls.len(), rs.len(), rows[i]);
                }
            }
            assert forall|w: spec_fn(spec_fn(Seq<char>) -> Value) -> nat| #[trigger]
                depends(w, columns, needed) implies total_named(plan_columns(tree), rows, w)
                == total_named(columns, answer(tables, op, files), w) by {
                let g = |row: Seq<Value>| w(named(ls + rs, row));
                let h = |row: Seq<Value>| w(named(lc + rc, row));
                lemma_total_join(on, a, b, rows, g);
                lemma_total_pairs(all_a, all_b, h);
                let p = |x: Seq<Value>|
                    total(
                        b,
                        |y: Seq<Value>|
                            if joins(on, x, y) {
                                g(x + y)
                            } else {
                                0
                            },
                    );
                let q = |x: Seq<Value>| total(b, |y: Seq<Value>| w(named(ls + rs, x + y)));
                assert forall|i: int| 0 <= i < a.len() implies p(#[trigger] a[i]) == q(a[i]) by {
                    let x = a[i];
                    let s = |y: Seq<Value>|
                        if joins(on, x, y) {
                            g(x + y)
                        } else {
                            0
                        };
                    let t = |y: Seq<Value>| w(named(ls + rs, x + y));
                    assert forall|j: int| 0 <= j < b.len() implies s(#[trigger] b[j]) == t(b[j]) by {
                        lemma_free_join(ls, rs, x, b[j]);
                    }
                    total_same(b, s, t);
                }
                total_same(a, p, q);
                lemma_cross_sum(ls, rs, a, b, lc, rc, all_a, all_b, needed, w);
                let u = |x: Seq<Value>| total(all_b, |y: Seq<Value>| h(x + y));
                let v = |x: Seq<Value>| total(all_b, |y: Seq<Value>| w(named(lc + rc, x + y)));
                assert forall|i: int| 0 <= i < all_a.len() implies u(#[trigger] all_a[i]) == v(
                    all_a[i],
                ) by {
                    let x = all_a[i];
                    total_same(
                        all_b,
                        |y: Seq<Value>| h(x + y),
                        |y: Seq<Value>| w(named(lc + rc, x + y)),
                    );
                }
                total_same(all_a, u, v);
            }
        },
        QueryOp::Project(d) => {
            let from = sources(d.column_name_map@);
            let to = aliases(d.column_name_map@);
            let child = Some(from.to_set());
            let p = plan_within(tables, *d.underlying, child, below)->Ok_0;
            let pc = plan_columns(p);
            let under = choose|under: Seq<Seq<Value>>| #[trigger]
                projects(pc, from, under, rows) && is_result(p, tables, files, under);
            lemma_plan_sums(tables, *d.underlying, child, below, files, under);
            lemma_plan_keeps(tables, *d.underlying, child, below);
            let all = answer(tables, *d.underlying, files);
            let uc = logical_columns(tables, *d.underlying)->Ok_0;
            assert forall|w: spec_fn(spec_fn(Seq<char>) -> Value) -> nat| #[trigger]
                depends(w, to, needed) implies total_named(to, rows, w) == total_named(
                to,
                answer(tables, op, files),
                w,
            ) by {
                let v = |a: spec_fn(Seq<char>) -> Value| w(renamed(from, to, a));
                assert(depends(v, uc, child)) by {
                    assert forall|
                        a: spec_fn(Seq<char>) -> Value,
                        b: spec_fn(Seq<char>) -> Value,
                    | #[trigger] agree(a, b, uc, child) implies v(a) == v(b) by {
                        let x = renamed(from, to, a);
                        let y = renamed(from, to, b);
                        assert(agree(x, y, to, needed)) by {
                            assert forall|c: Seq<char>| #[trigger] to.contains(c) && is_needed(
                                needed,
                                c,
                            ) implies x(c) == y(c) by {
                                column_position_is_first(to, c);
                                let k = column_position(to, c);
                                assert(pc.contains(from[k]));
                                assert(uc.contains(from[k]));
                                assert(from.contains(from[k]));
                                assert(from.to_set().contains(from[k]));
                            }
                        }
                    }
                }
                lemma_project_sum(pc, from, to, needed, under, w);
                lemma_project_sum(uc, from, to, needed, all, w);
            }
        },
        QueryOp::Sort(d) => {
            let child = match needed {
                Some(n) => Some(n.union(sort_columns_of(d.sort_specs@))),
                None => None,
            };
            let p = plan_within(tables, *d.underlying, child, below)->Ok_0;
            let pc = plan_columns(p);
            let keys = sort_pairs(d.sort_specs@);
            let under = choose|under: Seq<Seq<Value>>| #[trigger]
                sorts(pc, keys, under, rows) && is_result(p, tables, files, under);
            lemma_plan_sums(tables, *d.underlying, child, below, files, under);
            assert(have_len(rows, pc.len())) by {
                broadcast use vstd::seq_lib::group_to_multiset_ensures;

                assert forall|i: int| 0 <= i < rows.len() implies (#[trigger] rows[i]).len()
                    == pc.len() by {
                    assert(rows.contains(rows[i]));
                    assert(rows.to_multiset().count(rows[i]) > 0);
                    assert(under.contains(rows[i]));
                    let k = choose|k: int| 0 <= k < under.len() && under[k] == rows[i];
                    assert(under[k].len() == pc.len());
                }
            }
            assert forall|w: spec_fn(spec_fn(Seq<char>) -> Value) -> nat| #[trigger]
                depends(w, columns, needed) implies total_named(pc, rows, w) == total_named(
                columns,
                answer(tables, op, files),
                w,
            ) by {
                assert(depends(w, columns, child)) by {
                    assert forall|
                        a: spec_fn(Seq<char>) -> Value,
                        b: spec_fn(Seq<char>) -> Value,
                    | #[trigger] agree(a, b, columns, child) implies w(a) == w(b) by {
                        assert(agree(a, b, columns, needed));
                    }
                }
                total_of_multiset(rows, under, |row: Seq<Value>| w(named(pc, row)));
            }
        },
    }
}

/// The rows of a query have a value for each of its columns.
proof fn lemma_answer_len(tables: Seq<TableSpec>, op: QueryOp, files: TableFiles)
    requires
        readable(tables, op, files),
        logical_columns(tables, op) is Ok,
    ensures
        have_len(answer(tables, op, files), (logical_columns(tables, op)->Ok_0).len()),
    decreases op,
{
    match op {
        QueryOp::Scan(d) => {
            reveal(all_decode);
            let i = table_at(tables, d.table_id@)->0;
            let types = types_of(tables[i].column_specs@);
            lemma_block_lengths(files.content(i), types, None);
            lemma_all_kept(types.len());
        },
        QueryOp::Filter(d) => {
            lemma_answer_len(tables, *d.underlying, files);
            let columns = logical_columns(tables, *d.underlying)->Ok_0;
            lemma_passing_len(
                tests_of(columns, conditions(d.predicates@)),
                answer(tables, *d.underlying, files),
                columns.len(),
            );
        },
        QueryOp::Project(d) => {},
        QueryOp::Sort(d) => lemma_answer_len(tables, *d.underlying, files),
        QueryOp::Cross(d) => {
            lemma_answer_len(tables, *d.left, files);
            lemma_answer_len(tables, *d.right, files);
            lemma_pairs_len(
                answer(tables, *d.left, files),
                answer(tables, *d.right, files),
                (logical_columns(tables, *d.left)->Ok_0).len(),
                (logical_columns(tables, *d.right)->Ok_0).len(),
            );
        },
    }
}

/// The plan of a relation of a block, with the conditions on it alone.
proof fn lemma_built_at(tables: Seq<TableSpec>, block: JoinBlock, n: nat, depth: nat, i: int)
    requires
        built_leaves(tables, block, n, depth) is Ok,
        0 <= i < n,
    ensures
        ({
            let built = built_leaves(tables, block, n, depth)->Ok_0;
            let plan = plan_within(tables, block.leaves[i], leaf_needs(block, i), depth);
            let own = conditions_of(block.links.filter(local_to(i)));
            &&& built.len() == n
            &&& plan is Ok
            &&& if own.len() == 0 {
                built[i] == plan->Ok_0
            } else {
                built[i] == PlanTree::Filter(Box::new(plan->Ok_0), own) && first_missing_column(
                    plan_columns(plan->Ok_0),
                    own,
                ) is None
            }
        }),
    decreases n,
{
    let m = (n - 1) as nat;
    let before = built_leaves(tables, block, m, depth)->Ok_0;
    if m > 0 {
        lemma_built_at(tables, block, m, depth, if i < m { i } else { 0 });
    }
    if i < m {
        assert((built_leaves(tables, block, n, depth)->Ok_0)[i] == before[i]);
    }
}

/// What flattening finds is a join block.
proof fn lemma_flat_block(
    tables: Seq<TableSpec>,
    underlying: QueryOp,
    cs: Seq<Condition>,
    needed: Option<Set<Seq<char>>>,
)
    requires
        flattened(tables, underlying, cs, needed) is Flat,
    ensures
        ({
            let block = flattened(tables, underlying, cs, needed)->Flat_0;
            &&& block_ok(tables, block)
            &&& block.leaves == leaves_of(underlying)
            &&& block.needed == needed
            &&& block.leaves.len() > 1
            &&& conditions_of(block.links) == cs
            &&& flattened(tables, underlying, cs, None) matches Flattened::Flat(other)
                && other.leaves == block.leaves && other.schemas == block.schemas && other.links
                == block.links
        }),
{
    let block = flattened(tables, underlying, cs, needed)->Flat_0;
    lemma_gathered_columns(tables, leaves_of(underlying));
    assert forall|k: int| 0 <= k < block.links.len() implies is_known(
        block.schemas,
        (#[trigger] block.links[k]).condition,
    ) && block.links[k] == link_of(block.schemas, block.links[k].condition) by {
        assert(block.links[k] == link_of(block.schemas, cs[k]));
        assert(is_known(block.schemas, cs[k]));
    }
    assert(conditions_of(block.links) =~= cs);
}

/// The rows of a join block have the sums of the rows of its query.
proof fn lemma_flat_sums(
    tables: Seq<TableSpec>,
    op: QueryOp,
    needed: Option<Set<Seq<char>>>,
    depth: nat,
    files: TableFiles,
    rows: Seq<Seq<Value>>,
)
    requires
        op is Filter,
        height(op) <= depth,
        plan_within(tables, op, needed, depth) is Ok,
        readable(tables, op, files),
        keys_agree(tables, op, files),
        is_result(plan_within(tables, op, needed, depth)->Ok_0, tables, files, rows),
        ({
            let d = op->Filter_0;
            let cs = conditions(d.predicates@);
            flattened(
                tables,
                *d.underlying,
                cs,
                match needed {
                    Some(n) => Some(n.union(all_columns_of(cs))),
                    None => None,
                },
            ) is Flat
        }),
    ensures
        logical_columns(tables, op) is Ok,
        have_len(rows, plan_columns(plan_within(tables, op, needed, depth)->Ok_0).len()),
        have_len(answer(tables, op, files), (logical_columns(tables, op)->Ok_0).len()),
        sums_alike(
            plan_columns(plan_within(tables, op, needed, depth)->Ok_0),
            rows,
            logical_columns(tables, op)->Ok_0,
            answer(tables, op, files),
            needed,
        ),
    decreases depth, 0nat,
{
    let d = op->Filter_0;
    let cs = conditions(d.predicates@);
    let under = *d.underlying;
    let child = match needed {
        Some(n) => Some(n.union(all_columns_of(cs))),
        None => None,
    };
    let below = (depth - 1) as nat;
    let block = flattened(tables, under, cs, child)->Flat_0;
    let n = block.leaves.len();
    let built = built_leaves(tables, block, n, below)->Ok_0;
    let order = block_order(block);
    let columns = logical_columns(tables, op)->Ok_0;
    let tree = plan_within(tables, op, needed, depth)->Ok_0;
    lemma_flat_block(tables, under, cs, child);
    lemma_plan_keeps(tables, op, needed, depth);
    greedy_order_exists(n as int, block.links);
    greedy_order_is_a_permutation(n as int, block.links, order);
    lemma_leaf_heights(under);
    lemma_leaves_fit(tables, under, files);
    lemma_built_at(tables, block, n, below, 0);
    lemma_built_leaves(tables, block, n, below);
    assert forall|i: int| 0 <= i < n implies have_len(
        #[trigger] relations(tables, block, files)(i),
        block.schemas[i].len(),
    ) by {
        assert(leaves_of(under)[i] == block.leaves[i]);
        lemma_answer_len(tables, block.leaves[i], files);
    }
    assert(leaves_alike(tables, block, files, built)) by {
        assert forall|i: int| 0 <= i < built.len() implies holds_needed(
            plan_columns(#[trigger] built[i]),
            block.schemas[i],
            leaf_needs(block, i),
        ) by {
            assert(logical_columns(tables, block.leaves[i]) is Ok);
            assert(keeps_columns(block.schemas[i], leaf_needs(block, i), built[i]));
        }
        assert forall|i: int, own: Seq<Seq<Value>>|
            #![trigger leaf_alike(tables, block, files, i, plan_columns(built[i]), own)]
            0 <= i < built.len() && is_result(built[i], tables, files, own) implies leaf_alike(
            tables,
            block,
            files,
            i,
            plan_columns(built[i]),
            own,
        ) by {
            assert(leaves_of(under)[i] == block.leaves[i]);
            lemma_leaf_sums(tables, block, below, files, i, own);
        }
    }
    assert forall|k: int| 0 <= k < block.links.len() implies keys_tell(
        tables,
        block,
        files,
        #[trigger] block.links[k],
    ) by {
        let other = flattened(tables, under, cs, None)->Flat_0;
        assert(keys_tell(tables, other, files, other.links[k]));
    }
    assert(tree == left_deep(block, built, order, n)->Ok_0);
    lemma_block_sums(tables, block, files, under, built, order, rows);
    lemma_answer_len(tables, op, files);
    assert forall|w: spec_fn(spec_fn(Seq<char>) -> Value) -> nat| #[trigger]
        depends(w, columns, needed) implies total_named(plan_columns(tree), rows, w)
        == total_named(columns, answer(tables, op, files), w) by {
        assert(depends(w, columns, child)) by {
            assert forall|a: spec_fn(Seq<char>) -> Value, b: spec_fn(Seq<char>) -> Value| #[trigger]
                agree(a, b, columns, child) implies w(a) == w(b) by {
                assert(agree(a, b, columns, needed));
            }
        }
        lemma_total_passing(columns, cs, answer(tables, under, files), w);
    }
}

/// The rows of the plan of a relation have the sums of the rows of the relation that meet the
/// conditions on it alone.
proof fn lemma_leaf_sums(
    tables: Seq<TableSpec>,
    block: JoinBlock,
    depth: nat,
    files: TableFiles,
    i: int,
    rows: Seq<Seq<Value>>,
)
    requires
        block_ok(tables, block),
        0 <= i < block.leaves.len(),
        built_leaves(tables, block, block.leaves.len(), depth) is Ok,
        height(block.leaves[i]) <= depth,
        readable(tables, block.leaves[i], files),
        keys_agree(tables, block.leaves[i], files),
        is_result(
            (built_leaves(tables, block, block.leaves.len(), depth)->Ok_0)[i],
            tables,
            files,
            rows,
        ),
    ensures
        leaf_alike(
            tables,
            block,
            files,
            i,
            plan_columns((built_leaves(tables, block, block.leaves.len(), depth)->Ok_0)[i]),
            rows,
        ),
    decreases depth, 2nat,
{
    let n = block.leaves.len();
    let tree = (built_leaves(tables, block, n, depth)->Ok_0)[i];
    let leaf = block.leaves[i];
    let needs = leaf_needs(block, i);
    let p = plan_within(tables, leaf, needs, depth)->Ok_0;
    let own = conditions_of(block.links.filter(local_to(i)));
    let columns = block.schemas[i];
    let all = answer(tables, leaf, files);
    let pc = plan_columns(p);
    lemma_built_at(tables, block, n, depth, i);
    lemma_plan_keeps(tables, leaf, needs, depth);
    if own.len() == 0 {
        assert(is_result(p, tables, files, rows));
        lemma_plan_sums(tables, leaf, needs, depth, files, rows);
        assert forall|w: spec_fn(spec_fn(Seq<char>) -> Value) -> nat| #[trigger]
            depends(w, columns, needs) implies total_named(pc, rows, w) == total_named(
            columns,
            all,
            where_met(own, w),
        ) by {
            let v = where_met(own, w);
            total_same(
                all,
                |row: Seq<Value>| w(named(columns, row)),
                |row: Seq<Value>| v(named(columns, row)),
            );
        }
    } else {
        let under = choose|under: Seq<Seq<Value>>| #[trigger]
            filters(pc, own, under, rows) && is_result(p, tables, files, under);
        lemma_plan_sums(tables, leaf, needs, depth, files, under);
        lemma_passing_len(tests_of(pc, own), under, pc.len());
        assert forall|w: spec_fn(spec_fn(Seq<char>) -> Value) -> nat| #[trigger]
            depends(w, columns, needs) implies total_named(pc, rows, w) == total_named(
            columns,
            all,
            where_met(own, w),
        ) by {
            let v = where_met(own, w);
            assert(depends(v, columns, needs)) by {
                assert forall|a: spec_fn(Seq<char>) -> Value, b: spec_fn(Seq<char>) -> Value|
                    #[trigger] agree(a, b, columns, needs) implies v(a) == v(b) by {
                    assert forall|j: int, c: Seq<char>|
                        0 <= j < own.len() && #[trigger] columns_of(own[j]).contains(c) implies a(
                        c,
                    ) == b(c) by {
                        lemma_local_column(tables, block, i, j, c);
                        assert(columns.contains(c));
                    }
                    lemma_met_alike(own, a, b);
                }
            }
            lemma_total_passing(pc, own, under, w);
        }
    }
}

/// A condition on one relation alone reads columns that the relation has to give.
proof fn lemma_local_column(
    tables: Seq<TableSpec>,
    block: JoinBlock,
    i: int,
    j: int,
    c: Seq<char>,
)
    requires
        block_ok(tables, block),
        0 <= i < block.leaves.len(),
        0 <= j < block.links.filter(local_to(i)).len(),
        columns_of(block.links.filter(local_to(i))[j].condition).contains(c),
    ensures
        block.schemas[i].contains(c),
        is_needed(leaf_needs(block, i), c),
{
    lemma_filter_from(block.links, local_to(i), j);
    let found = block.links.filter(local_to(i));
    let k = choose|k: int|
        0 <= k < block.links.len() && #[trigger] block.links[k] == found[j] && local_to(i)(
            block.links[k],
        );
    lemma_link_owners(tables, block, k);
    owner_is_first(block.schemas, c);
    lemma_link_needed(tables, block, k, c, i);
}

/// The values of a row, by the names of its columns.
pub open spec fn fields(columns: Seq<Seq<char>>, row: Seq<Value>) -> Map<Seq<char>, Value> {
    Map::new(|c: Seq<char>| columns.contains(c), named(columns, row))
}

/// Rows by the names of their columns, as often as they occur.
pub open spec fn named_rows(columns: Seq<Seq<char>>, rows: Seq<Seq<Value>>) -> Multiset<
    Map<Seq<char>, Value>,
> {
    rows.map_values(|row: Seq<Value>| fields(columns, row)).to_multiset()
}

/// A plan gives the rows that its query asks for, with the same values under the same names and
/// as often, in some order: leaving columns out, testing conditions early and joining in another
/// order change nothing.
pub proof fn plan_gives_the_answer(
    tables: Seq<TableSpec>,
    op: QueryOp,
    files: TableFiles,
    rows: Seq<Seq<Value>>,
)
    requires
        plan_of(tables, op, None) is Ok,
        readable(tables, op, files),
        keys_agree(tables, op, files),
        is_result(plan_of(tables, op, None)->Ok_0, tables, files, rows),
    ensures
        logical_columns(tables, op) is Ok,
        named_rows(plan_columns(plan_of(tables, op, None)->Ok_0), rows) == named_rows(
            logical_columns(tables, op)->Ok_0,
            answer(tables, op, files),
        ),
{
    let tree = plan_of(tables, op, None)->Ok_0;
    let pc = plan_columns(tree);
    let columns = logical_columns(tables, op)->Ok_0;
    let all = answer(tables, op, files);
    lemma_plan_sums(tables, op, None, height(op), files, rows);
    lemma_plan_keeps(tables, op, None, height(op));
    let f = |row: Seq<Value>| fields(pc, row);
    let g = |row: Seq<Value>| fields(columns, row);
    let a = rows.map_values(f);
    let b = all.map_values(g);
    assert forall|w: spec_fn(Map<Seq<char>, Value>) -> nat| #[trigger] total(a, w) == total(
        b,
        w,
    ) by {
        let v = |e: spec_fn(Seq<char>) -> Value|
            w(Map::new(|c: Seq<char>| columns.contains(c), e));
        assert(depends(v, columns, None)) by {
            assert forall|e: spec_fn(Seq<char>) -> Value, h: spec_fn(Seq<char>) -> Value| #[trigger]
                agree(e, h, columns, None) implies v(e) == v(h) by {
                assert(Map::new(|c: Seq<char>| columns.contains(c), e) =~= Map::new(
                    |c: Seq<char>| columns.contains(c),
                    h,
                ));
            }
        }
        total_map(rows, f, w);
        total_map(all, g, w);
        let p = |row: Seq<Value>| w(f(row));
        let q = |row: Seq<Value>| v(named(pc, row));
        assert forall|i: int| 0 <= i < rows.len() implies p(#[trigger] rows[i]) == q(rows[i]) by {
            assert(fields(pc, rows[i]) =~= Map::new(
                |c: Seq<char>| columns.contains(c),
                named(pc, rows[i]),
            )) by {
                assert forall|c: Seq<char>| #[trigger] pc.contains(c) <==> columns.contains(c) by {
                    if columns.contains(c) {
                        assert(is_needed(None, c));
                    }
                }
            }
        }
        total_same(rows, p, q);
        total_same(
            all,
            |row: Seq<Value>| w(g(row)),
            |row: Seq<Value>| v(named(columns, row)),
        );
    }
    totals_tell_items(a, b);
}

/// Whether the columns of a query's result are those that a projection names: it projects, and
/// only filters and sorts above that.
pub open spec fn projects_last(op: QueryOp) -> bool
    decreases op,
{
    match op {
        QueryOp::Project(_) => true,
        QueryOp::Filter(d) => projects_last(*d.underlying),
        QueryOp::Sort(d) => projects_last(*d.underlying),
        _ => false,
    }
}

/// The sum over the rows that pass.
proof fn lemma_total_passing_rows(
    ts: Seq<Test>,
    rows: Seq<Seq<Value>>,
    w: spec_fn(Seq<Value>) -> nat,
)
    ensures
        total(passing(ts, rows), w) == total(
            rows,
            |row: Seq<Value>|
                if row_passes(ts, row) == Some(true) {
                    w(row)
                } else {
                    0
                },
        ),
    decreases rows.len(),
{
    if rows.len() > 0 {
        lemma_total_passing_rows(ts, rows.drop_last(), w);
        if row_passes(ts, rows.last()) == Some(true) {
            assert(passing(ts, rows).drop_last() =~= passing(ts, rows.drop_last()));
        }
    }
}

proof fn lemma_projected_rows(
    tables: Seq<TableSpec>,
    op: QueryOp,
    depth: nat,
    files: TableFiles,
    rows: Seq<Seq<Value>>,
)
    requires
        projects_last(op),
        height(op) <= depth,
        plan_within(tables, op, None, depth) is Ok,
        readable(tables, op, files),
        keys_agree(tables, op, files),
        is_result(plan_within(tables, op, None, depth)->Ok_0, tables, files, rows),
    ensures
        logical_columns(tables, op) == Ok::<Seq<Seq<char>>, PlanIssue>(
            plan_columns(plan_within(tables, op, None, depth)->Ok_0),
        ),
        rows.to_multiset() == answer(tables, op, files).to_multiset(),
    decreases depth,
{
    let below = (depth - 1) as nat;
    match op {
        QueryOp::Project(d) => {
            let from = sources(d.column_name_map@);
            assert(plan_columns(plan_within(tables, op, None, depth)->Ok_0) == aliases(
                d.column_name_map@,
            ));
            let child = Some(from.to_set());
            let p = plan_within(tables, *d.underlying, child, below)->Ok_0;
            let pc = plan_columns(p);
            let under = choose|under: Seq<Seq<Value>>| #[trigger]
                projects(pc, from, under, rows) && is_result(p, tables, files, under);
            lemma_plan_sums(tables, *d.underlying, child, below, files, under);
            lemma_plan_keeps(tables, *d.underlying, child, below);
            let all = answer(tables, *d.underlying, files);
            let uc = logical_columns(tables, *d.underlying)->Ok_0;
            let b = answer(tables, op, files);
            assert forall|w: spec_fn(Seq<Value>) -> nat| #[trigger] total(rows, w) == total(
                b,
                w,
            ) by {
                let v = |e: spec_fn(Seq<char>) -> Value|
                    w(from.map_values(|n: Seq<char>| e(n)));
                assert(depends(v, uc, child)) by {
                    assert forall|
                        e: spec_fn(Seq<char>) -> Value,
                        h: spec_fn(Seq<char>) -> Value,
                    | #[trigger] agree(e, h, uc, child) implies v(e) == v(h) by {
                        assert forall|k: int| 0 <= k < from.len() implies e(#[trigger] from[k])
                            == h(from[k]) by {
                            assert(pc.contains(from[k]));
                            assert(uc.contains(from[k]));
                            assert(from.contains(from[k]));
                            assert(from.to_set().contains(from[k]));
                        }
                        assert(from.map_values(|n: Seq<char>| e(n)) =~= from.map_values(
                            |n: Seq<char>| h(n),
                        ));
                    }
                }
                lemma_picked_total(pc, from, under, w);
                lemma_picked_total(uc, from, all, w);
            }
            totals_tell_items(rows, b);
        },
        QueryOp::Filter(d) => {
            let cs = conditions(d.predicates@);
            assert(projects_last(*d.underlying));
            assert(!(*d.underlying is Cross));
            let p = plan_within(tables, *d.underlying, None, below)->Ok_0;
            let pc = plan_columns(p);
            let under = choose|under: Seq<Seq<Value>>| #[trigger]
                filters(pc, cs, under, rows) && is_result(p, tables, files, under);
            lemma_projected_rows(tables, *d.underlying, below, files, under);
            let all = answer(tables, *d.underlying, files);
            let b = answer(tables, op, files);
            let ts = tests_of(pc, cs);
            assert forall|w: spec_fn(Seq<Value>) -> nat| #[trigger] total(rows, w) == total(
                b,
                w,
            ) by {
                lemma_total_passing_rows(ts, under, w);
                lemma_total_passing_rows(ts, all, w);
                total_of_multiset(
                    under,
                    all,
                    |row: Seq<Value>|
                        if row_passes(ts, row) == Some(true) {
                            w(row)
                        } else {
                            0
                        },
                );
            }
            totals_tell_items(rows, b);
        },
        QueryOp::Sort(d) => {
            let p = plan_within(tables, *d.underlying, None, below)->Ok_0;
            let under = choose|under: Seq<Seq<Value>>| #[trigger]
                sorts(plan_columns(p), sort_pairs(d.sort_specs@), under, rows) && is_result(
                    p,
                    tables,
                    files,
                    under,
                );
            lemma_projected_rows(tables, *d.underlying, below, files, under);
        },
        _ => {},
    }
}

/// The sum over a projection, by the names that it reads.
proof fn lemma_picked_total(
    columns: Seq<Seq<char>>,
    from: Seq<Seq<char>>,
    rows: Seq<Seq<Value>>,
    w: spec_fn(Seq<Value>) -> nat,
)
    ensures
        total(picked(column_positions(columns, from), rows), w) == total_named(
            columns,
            rows,
            |e: spec_fn(Seq<char>) -> Value| w(from.map_values(|n: Seq<char>| e(n))),
        ),
{
    let at = column_positions(columns, from);
    let f = |r: Seq<Value>| pick(r, at);
    total_map(rows, f, w);
    let v = |e: spec_fn(Seq<char>) -> Value| w(from.map_values(|n: Seq<char>| e(n)));
    let p = |row: Seq<Value>| w(f(row));
    let q = |row: Seq<Value>| v(named(columns, row));
    assert forall|i: int| 0 <= i < rows.len() implies p(#[trigger] rows[i]) == q(rows[i]) by {
        assert(pick(rows[i], at) =~= from.map_values(|n: Seq<char>| named(columns, rows[i])(n)));
    }
    total_same(rows, p, q);
}

/// Whether rows can be put in order does not depend on their order.
proof fn lemma_sortable_ignores_order(
    keys: Seq<SortKey>,
    a: Seq<Seq<Value>>,
    b: Seq<Seq<Value>>,
)
    requires
        sortable(keys, a),
        a.to_multiset() == b.to_multiset(),
    ensures
        sortable(keys, b),
{
    broadcast use vstd::seq_lib::group_to_multiset_ensures;

    let types = choose|types: Seq<DataType>| #[trigger] all_typed(keys, types, a);
    assert forall|i: int| 0 <= i < b.len() implies row_typed(keys, types, #[trigger] b[i]) by {
        assert(b.contains(b[i]));
        assert(b.to_multiset().count(b[i]) > 0);
        assert(a.contains(b[i]));
        let k = choose|k: int| 0 <= k < a.len() && a[k] == b[i];
        assert(row_typed(keys, types, a[k]));
    }
    assert(all_typed(keys, types, b));
}

/// A query whose columns are named by a projection gives exactly the rows that it asks for, with
/// their columns in their order, and as often. Only the order of the rows is open; a query that
/// sorts last gives them in order, where they can be put in order.
pub proof fn projection_gives_the_answer(
    tables: Seq<TableSpec>,
    op: QueryOp,
    files: TableFiles,
    rows: Seq<Seq<Value>>,
)
    requires
        projects_last(op),
        plan_of(tables, op, None) is Ok,
        readable(tables, op, files),
        keys_agree(tables, op, files),
        is_result(plan_of(tables, op, None)->Ok_0, tables, files, rows),
    ensures
        rows.to_multiset() == answer(tables, op, files).to_multiset(),
        op matches QueryOp::Sort(d) ==> ({
            let keys = keys_of(logical_columns(tables, op)->Ok_0, sort_pairs(d.sort_specs@));
            sortable(keys, rows) ==> sorted(keys, rows)
        }),
{
    lemma_projected_rows(tables, op, height(op), files, rows);
    if let QueryOp::Sort(d) = op {
        let p = plan_within(tables, *d.underlying, None, (height(op) - 1) as nat)->Ok_0;
        let pairs = sort_pairs(d.sort_specs@);
        let under = choose|under: Seq<Seq<Value>>| #[trigger]
            sorts(plan_columns(p), pairs, under, rows) && is_result(p, tables, files, under);
        let keys = keys_of(plan_columns(p), pairs);
        if sortable(keys, rows) {
            lemma_sortable_ignores_order(keys, rows, under);
        }
    }
}

} // verus!

//! From a query to the operators that answer it.

use vstd::prelude::*;
use crate::block_decode::{is_kept, kept_count};
use crate::catalog::{TableSpec, names_of, table_at};
use crate::error::DbError;
use crate::join_order::{greedy_order_exists, greedy_order_is_a_permutation};
use crate::names::{all_columns_of, sort_columns_of};
use crate::pipeline::{Node, buildable, lemma_all_kept, mask};
use crate::plan::PlanTree;
use crate::planner::{Flattened, JoinBlock, block_order, built_leaves, execute_op_tree, flattened, height, is_issue, kept_positions, leaf_needs, left_deep, plan_of, plan_within, scan_tree};
use crate::project::sources;
use crate::query::{QueryOp, conditions};

verus! {

/// The kept columns are counted one by one.
pub proof fn lemma_kept_counted(columns: Seq<Seq<char>>, needed: Set<Seq<char>>)
    ensures
        forall|i: int|
            0 <= i < kept_positions(columns, needed).len() ==> 0 <= #[trigger] kept_positions(
                columns,
                needed,
            )[i] < columns.len(),
        forall|j: int|
            0 <= j < columns.len() ==> (kept_positions(columns, needed).contains(j)
                <==> needed.contains(#[trigger] columns[j])),
    decreases columns.len(),
{
    let kept = kept_positions(columns, needed);
    if columns.len() > 0 {
        let init = columns.drop_last();
        let before = kept_positions(init, needed);
        lemma_kept_counted(init, needed);
        assert forall|i: int| 0 <= i < kept.len() implies 0 <= #[trigger] kept[i] < columns.len() by {
            if i < before.len() {
                assert(kept[i] == before[i]);
            }
        }
        assert forall|j: int| 0 <= j < columns.len() implies (kept.contains(j)
            <==> needed.contains(#[trigger] columns[j])) by {
            if j < init.len() {
                assert(init[j] == columns[j]);
                if before.contains(j) {
                    let m = choose|m: int| 0 <= m < before.len() && before[m] == j;
                    assert(kept[m] == j);
                }
                if kept.contains(j) {
                    let m = choose|m: int| 0 <= m < kept.len() && kept[m] == j;
                    assert(before[m] == j);
                }
            } else {
                if needed.contains(columns[j]) {
                    assert(kept[before.len() as int] == j);
                }
                if kept.contains(j) && !needed.contains(columns[j]) {
                    let m = choose|m: int| 0 <= m < kept.len() && kept[m] == j;
                    assert(before[m] < init.len());
                }
            }
        }
    }
}

proof fn lemma_count(columns: Seq<Seq<char>>, needed: Set<Seq<char>>, n: nat)
    requires
        n <= columns.len(),
    ensures
        kept_count(
            mask(Some(kept_positions(columns, needed)), columns.len() as int),
            n,
        ) == kept_positions(columns.take(n as int), needed).len(),
    decreases n,
{
    let all = kept_positions(columns, needed);
    let m = mask(Some(all), columns.len() as int);
    if n > 0 {
        lemma_count(columns, needed, (n - 1) as nat);
        lemma_kept_counted(columns, needed);
        assert(columns.take(n as int).drop_last() =~= columns.take(n - 1));
        assert(columns.take(n as int).last() == columns[n - 1]);
        assert(all.contains(n - 1) <==> needed.contains(columns[n - 1]));
        assert(m->0[n - 1] == all.contains(n - 1));
        assert(is_kept(m, n - 1) == all.contains(n - 1));
    }
}

proof fn lemma_scan_buildable(
    tables: Seq<TableSpec>,
    id: Seq<char>,
    i: int,
    needed: Option<Set<Seq<char>>>,
)
    requires
        table_at(tables, id) == Some(i),
    ensures
        buildable(scan_tree(id, names_of(tables[i].column_specs@), needed), tables),
{
    let columns = names_of(tables[i].column_specs@);
    lemma_all_kept(columns.len());
    if let Some(set) = needed {
        let kept = kept_positions(columns, set);
        if 0 < kept.len() < columns.len() {
            lemma_kept_counted(columns, set);
            lemma_count(columns, set, columns.len());
            assert(columns.take(columns.len() as int) =~= columns);
        }
    }
}

proof fn lemma_left_deep_buildable(
    tables: Seq<TableSpec>,
    block: JoinBlock,
    built: Seq<PlanTree>,
    order: Seq<int>,
    k: nat,
)
    requires
        left_deep(block, built, order, k) is Ok,
        order.len() > 0,
        k <= order.len(),
        forall|j: int| 0 <= j < order.len() ==> 0 <= #[trigger] order[j] < built.len(),
        forall|i: int| 0 <= i < built.len() ==> buildable(#[trigger] built[i], tables),
    ensures
        buildable(left_deep(block, built, order, k)->Ok_0, tables),
    decreases k,
{
    if k <= 1 {
        assert(0 <= order[0] < built.len());
    } else {
        lemma_left_deep_buildable(tables, block, built, order, (k - 1) as nat);
        assert(0 <= order[k - 1] < built.len());
        assert(buildable(built[order[k - 1]], tables));
    }
}

proof fn lemma_leaves_buildable(tables: Seq<TableSpec>, block: JoinBlock, n: nat, depth: nat)
    requires
        n <= block.leaves.len(),
        built_leaves(tables, block, n, depth) is Ok,
    ensures
        (built_leaves(tables, block, n, depth)->Ok_0).len() == n,
        forall|i: int|
            0 <= i < n ==> buildable(
                #[trigger] (built_leaves(tables, block, n, depth)->Ok_0)[i],
                tables,
            ),
    decreases depth, n + 1,
{
    if n > 0 {
        lemma_leaves_buildable(tables, block, (n - 1) as nat, depth);
        lemma_plan_buildable(tables, block.leaves[n - 1], leaf_needs(block, n - 1), depth);
        let before = built_leaves(tables, block, (n - 1) as nat, depth)->Ok_0;
        let all = built_leaves(tables, block, n, depth)->Ok_0;
        assert forall|i: int| 0 <= i < n implies buildable(#[trigger] all[i], tables) by {
            if i < n - 1 {
                assert(all[i] == before[i]);
            }
        }
    }
}

pub proof fn lemma_plan_buildable(
    tables: Seq<TableSpec>,
    op: QueryOp,
    needed: Option<Set<Seq<char>>>,
    depth: nat,
)
    requires
        plan_within(tables, op, needed, depth) is Ok,
    ensures
        buildable(plan_within(tables, op, needed, depth)->Ok_0, tables),
    decreases depth, 0nat,
{
    let below = (depth - 1) as nat;
    match op {
        QueryOp::Scan(d) => {
            lemma_scan_buildable(
                tables,
                d.table_id@,
                table_at(tables, d.table_id@)->0,
                needed,
            );
        },
        QueryOp::Filter(d) => {
            let cs = conditions(d.predicates@);
            let child = match needed {
                Some(n) => Some(n.union(all_columns_of(cs))),
                None => None,
            };
            match flattened(tables, *d.underlying, cs, child) {
                Flattened::Flat(block) => {
                    let n = block.leaves.len();
                    let order = block_order(block);
                    greedy_order_exists(n as int, block.links);
                    greedy_order_is_a_permutation(n as int, block.links, order);
                    lemma_leaves_buildable(tables, block, n, below);
                    lemma_left_deep_buildable(
                        tables,
                        block,
                        built_leaves(tables, block, n, below)->Ok_0,
                        order,
                        n,
                    );
                },
                _ => {
                    lemma_plan_buildable(tables, *d.underlying, child, below);
                },
            }
        },
        QueryOp::Cross(d) => {
            lemma_plan_buildable(tables, *d.left, needed, below);
            lemma_plan_buildable(tables, *d.right, needed, below);
        },
        QueryOp::Project(d) => {
            let from = sources(d.column_name_map@);
            lemma_plan_buildable(tables, *d.underlying, Some(from.to_set()), below);
        },
        QueryOp::Sort(d) => {
            let child = match needed {
                Some(n) => Some(n.union(sort_columns_of(d.sort_specs@))),
                None => None,
            };
            lemma_plan_buildable(tables, *d.underlying, child, below);
        },
    }
}

/// A plan that a query has fits the tables: its operators can be built.
pub proof fn plans_can_be_built(
    tables: Seq<TableSpec>,
    op: QueryOp,
    needed: Option<Set<Seq<char>>>,
)
    requires
        plan_of(tables, op, needed) is Ok,
    ensures
        buildable(plan_of(tables, op, needed)->Ok_0, tables),
{
    lemma_plan_buildable(tables, op, needed, height(op));
}

/// Plans a query whose columns are all wanted, and builds its operators.
pub fn prepare_query(tables: &[TableSpec], root: &QueryOp, sort_run_bytes: usize) -> (r: Result<
    Node,
    DbError,
>)
    ensures
        match plan_of(tables@, *root, None) {
            Ok(tree) => r is Ok && (r->Ok_0).built_from(tree, tables@) && (r->Ok_0).is_fresh(
                tables@,
            ),
            Err(issue) => r is Err && is_issue(r->Err_0, issue),
        },
{
    let plan = match execute_op_tree(tables, root, None) {
        Ok(p) => p,
        Err(e) => {
            return Err(e);
        },
    };
    proof {
        plans_can_be_built(tables@, *root, None);
    }
    Node::build(&plan, tables, sort_run_bytes)
}

} // verus!

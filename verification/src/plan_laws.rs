//! What holds of every plan.

use vstd::prelude::*;
use crate::catalog::{TableSpec, names_of, table_at};
use crate::join_order::{Link, between, conditions_of, greedy_order_is_a_permutation, is_greedy_order, local_to, owner_of};
use crate::names::{all_columns_of, sort_columns_of};
use crate::plan::{PlanIssue, PlanTree, plan_columns};
use crate::planner::{Flattened, JoinBlock, block_order, built_leaves, flattened, gathered, height, kept_positions, leaf_needs, leaves_of, left_deep, logical_columns, plan_of, plan_within, scan_tree};
use crate::query::{Condition, QueryOp, conditions};

verus! {

/// Where in a join order a link is tested: when the later one of its relations is joined.
pub open spec fn tested_at(order: Seq<int>, l: Link, k: int) -> bool {
    1 <= k < order.len() && between(order.take(k), order[k])(l)
}

/// In a join block every condition is tested exactly once: on the one relation that it touches,
/// or where the second of its two relations is joined.
pub proof fn every_condition_is_tested_once(n: int, ls: Seq<Link>, order: Seq<int>, l: Link)
    requires
        n >= 0,
        is_greedy_order(n, ls, order),
        0 <= l.first < n,
        0 <= l.second < n,
    ensures
        l.first == l.second ==> (forall|i: int| #[trigger] local_to(i)(l) <==> i == l.first)
            && forall|k: int| !(#[trigger] tested_at(order, l, k)),
        l.first != l.second ==> (forall|i: int| !(#[trigger] local_to(i)(l))) && exists|k: int|
            #[trigger] tested_at(order, l, k) && forall|j: int| #[trigger]
                tested_at(order, l, j) ==> j == k,
{
    greedy_order_is_a_permutation(n, ls, order);
    if l.first != l.second {
        assert(order.contains(l.first));
        assert(order.contains(l.second));
        let a = choose|a: int| 0 <= a < order.len() && order[a] == l.first;
        let b = choose|b: int| 0 <= b < order.len() && order[b] == l.second;
        let k = if a > b {
            a
        } else {
            b
        };
        let e = if a > b {
            b
        } else {
            a
        };
        assert(order.take(k)[e] == order[e]);
        assert(order.take(k).contains(order[e]));
        assert(tested_at(order, l, k));
        assert forall|j: int| #[trigger] tested_at(order, l, j) implies j == k by {
            let t = order.take(j);
            if l.first == order[j] {
                assert(t.contains(l.second));
                let m = choose|m: int| 0 <= m < t.len() && t[m] == l.second;
                assert(order[m] == l.second);
                assert(m == b && j == a);
            } else {
                assert(t.contains(l.first));
                let m = choose|m: int| 0 <= m < t.len() && t[m] == l.first;
                assert(order[m] == l.first);
                assert(m == a && j == b);
            }
        }
    }
}

/// Whether a column is read above; where no set is given, all are.
pub open spec fn is_needed(needed: Option<Set<Seq<char>>>, c: Seq<char>) -> bool {
    match needed {
        Some(set) => set.contains(c),
        None => true,
    }
}

/// Whether a plan gives out no other columns than the query has, and all that are needed.
pub open spec fn keeps_columns(
    columns: Seq<Seq<char>>,
    needed: Option<Set<Seq<char>>>,
    tree: PlanTree,
) -> bool {
    &&& forall|c: Seq<char>| #[trigger] plan_columns(tree).contains(c) ==> columns.contains(c)
    &&& forall|c: Seq<char>| #[trigger]
        columns.contains(c) && is_needed(needed, c) ==> plan_columns(tree).contains(c)
}

pub proof fn lemma_concat_contains(a: Seq<Seq<char>>, b: Seq<Seq<char>>, c: Seq<char>)
    ensures
        (a + b).contains(c) <==> a.contains(c) || b.contains(c),
{
    if a.contains(c) {
        let i = choose|i: int| 0 <= i < a.len() && a[i] == c;
        assert((a + b)[i] == c);
    }
    if b.contains(c) {
        let i = choose|i: int| 0 <= i < b.len() && b[i] == c;
        assert((a + b)[a.len() + i] == c);
    }
    if (a + b).contains(c) {
        let i = choose|i: int| 0 <= i < (a + b).len() && (a + b)[i] == c;
        if i < a.len() {
            assert(a[i] == c);
        } else {
            assert(b[i - a.len()] == c);
        }
    }
}

proof fn lemma_kept(columns: Seq<Seq<char>>, needed: Set<Seq<char>>)
    ensures
        forall|i: int|
            0 <= i < kept_positions(columns, needed).len() ==> 0 <= #[trigger] kept_positions(
                columns,
                needed,
            )[i] < columns.len(),
        forall|j: int|
            0 <= j < columns.len() && needed.contains(#[trigger] columns[j]) ==> kept_positions(
                columns,
                needed,
            ).contains(j),
    decreases columns.len(),
{
    let kept = kept_positions(columns, needed);
    if columns.len() > 0 {
        let init = columns.drop_last();
        let before = kept_positions(init, needed);
        lemma_kept(init, needed);
        assert forall|i: int| 0 <= i < kept.len() implies 0 <= #[trigger] kept[i] < columns.len() by {
            if i < before.len() {
                assert(kept[i] == before[i]);
            }
        }
        assert forall|j: int| 0 <= j < columns.len() && needed.contains(
            #[trigger] columns[j],
        ) implies kept.contains(j) by {
            if j < init.len() {
                assert(init[j] == columns[j]);
                assert(before.contains(j));
                let m = choose|m: int| 0 <= m < before.len() && before[m] == j;
                assert(kept[m] == j);
            } else {
                assert(kept[before.len() as int] == j);
            }
        }
    }
}

proof fn lemma_scan_keeps(table: Seq<char>, columns: Seq<Seq<char>>, needed: Option<Set<Seq<char>>>)
    ensures
        keeps_columns(columns, needed, scan_tree(table, columns, needed)),
{
    if let Some(set) = needed {
        let kept = kept_positions(columns, set);
        lemma_kept(columns, set);
        if 0 < kept.len() < columns.len() {
            let names = kept.map_values(|i: int| columns[i]);
            assert forall|c: Seq<char>| #[trigger] names.contains(c) implies columns.contains(c) by {
                let i = choose|i: int| 0 <= i < names.len() && names[i] == c;
                assert(columns[kept[i]] == c);
            }
            assert forall|c: Seq<char>| #[trigger] columns.contains(c) && set.contains(
                c,
            ) implies names.contains(c) by {
                let j = choose|j: int| 0 <= j < columns.len() && columns[j] == c;
                assert(needed == Some(set));
                assert(set.contains(columns[j]));
                assert(kept.contains(j));
                let m = choose|m: int| 0 <= m < kept.len() && kept[m] == j;
                assert(names[m] == c);
            }
        }
    }
}

/// The columns of the relations of a block are those of the block.
pub proof fn lemma_gathered_columns(tables: Seq<TableSpec>, leaves: Seq<QueryOp>)
    requires
        gathered(tables, leaves) is Found,
    ensures
        ({
            let ss = gathered(tables, leaves)->Found_0;
            &&& ss.len() == leaves.len()
            &&& forall|i: int|
                0 <= i < leaves.len() ==> logical_columns(tables, #[trigger] leaves[i]) == Ok::<
                    Seq<Seq<char>>,
                    PlanIssue,
                >(ss[i])
            &&& forall|i: int, c: Seq<char>|
                0 <= i < ss.len() && (#[trigger] ss[i]).contains(c) ==> #[trigger] owner_of(ss, c)
                    == Some(i)
        }),
    decreases leaves.len(),
{
    if leaves.len() > 0 {
        let init = leaves.drop_last();
        lemma_gathered_columns(tables, init);
        let before = gathered(tables, init)->Found_0;
        let ss = gathered(tables, leaves)->Found_0;
        let last = logical_columns(tables, leaves.last())->Ok_0;
        assert(ss == before.push(last));
        assert forall|i: int| 0 <= i < leaves.len() implies logical_columns(
            tables,
            #[trigger] leaves[i],
        ) == Ok::<Seq<Seq<char>>, PlanIssue>(ss[i]) by {
            if i < init.len() {
                assert(leaves[i] == init[i]);
            }
        }
        assert forall|i: int, c: Seq<char>|
            0 <= i < ss.len() && (#[trigger] ss[i]).contains(c) implies #[trigger] owner_of(ss, c)
            == Some(i) by {
            assert(ss.drop_last() =~= before);
            if i < before.len() {
                assert(before[i].contains(c));
                assert(owner_of(before, c) == Some(i));
            } else {
                let a = choose|a: int| 0 <= a < last.len() && last[a] == c;
                assert(owner_of(before, last[a]) is None);
            }
        }
    }
}

pub proof fn lemma_leaf_columns(tables: Seq<TableSpec>, op: QueryOp)
    requires
        forall|i: int|
            0 <= i < leaves_of(op).len() ==> logical_columns(
                tables,
                #[trigger] leaves_of(op)[i],
            ) is Ok,
    ensures
        logical_columns(tables, op) is Ok,
        forall|c: Seq<char>| #[trigger]
            (logical_columns(tables, op)->Ok_0).contains(c) <==> exists|i: int|
                0 <= i < leaves_of(op).len() && (logical_columns(
                    tables,
                    #[trigger] leaves_of(op)[i],
                )->Ok_0).contains(c),
    decreases op,
{
    let all = leaves_of(op);
    match op {
        QueryOp::Cross(d) => {
            let ls = leaves_of(*d.left);
            let rs = leaves_of(*d.right);
            assert forall|i: int| 0 <= i < ls.len() implies logical_columns(
                tables,
                #[trigger] ls[i],
            ) is Ok by {
                assert(all[i] == ls[i]);
            }
            assert forall|i: int| 0 <= i < rs.len() implies logical_columns(
                tables,
                #[trigger] rs[i],
            ) is Ok by {
                assert(all[ls.len() + i] == rs[i]);
            }
            lemma_leaf_columns(tables, *d.left);
            lemma_leaf_columns(tables, *d.right);
            let a = logical_columns(tables, *d.left)->Ok_0;
            let b = logical_columns(tables, *d.right)->Ok_0;
            assert forall|c: Seq<char>| #[trigger] (a + b).contains(c) <==> exists|i: int|
                0 <= i < all.len() && (logical_columns(
                    tables,
                    #[trigger] all[i],
                )->Ok_0).contains(c) by {
                lemma_concat_contains(a, b, c);
                if a.contains(c) {
                    let i = choose|i: int|
                        0 <= i < ls.len() && (logical_columns(
                            tables,
                            #[trigger] ls[i],
                        )->Ok_0).contains(c);
                    assert(all[i] == ls[i]);
                }
                if b.contains(c) {
                    let i = choose|i: int|
                        0 <= i < rs.len() && (logical_columns(
                            tables,
                            #[trigger] rs[i],
                        )->Ok_0).contains(c);
                    assert(all[ls.len() + i] == rs[i]);
                }
                if exists|i: int|
                    0 <= i < all.len() && (logical_columns(
                        tables,
                        #[trigger] all[i],
                    )->Ok_0).contains(c) {
                    let i = choose|i: int|
                        0 <= i < all.len() && (logical_columns(
                            tables,
                            #[trigger] all[i],
                        )->Ok_0).contains(c);
                    if i < ls.len() {
                        assert(all[i] == ls[i]);
                    } else {
                        assert(all[i] == rs[i - ls.len()]);
                    }
                }
            }
        },
        _ => {
            assert(all[0] == op);
            assert forall|c: Seq<char>| #[trigger]
                (logical_columns(tables, op)->Ok_0).contains(c) implies exists|i: int|
                0 <= i < all.len() && (logical_columns(
                    tables,
                    #[trigger] all[i],
                )->Ok_0).contains(c) by {
                assert((logical_columns(tables, all[0])->Ok_0).contains(c));
            }
        },
    }
}

/// The columns of a left-deep join are those of its relations.
pub proof fn lemma_left_deep_columns(block: JoinBlock, built: Seq<PlanTree>, order: Seq<int>, k: nat)
    requires
        1 <= k <= order.len(),
        left_deep(block, built, order, k) is Ok,
    ensures
        forall|c: Seq<char>| #[trigger]
            plan_columns(left_deep(block, built, order, k)->Ok_0).contains(c) <==> exists|j: int|
                0 <= j < k && plan_columns(built[#[trigger] order[j]]).contains(c),
    decreases k,
{
    let tree = left_deep(block, built, order, k)->Ok_0;
    if k == 1 {
        assert forall|c: Seq<char>| #[trigger] plan_columns(tree).contains(c) implies exists|j: int|
            0 <= j < k && plan_columns(built[#[trigger] order[j]]).contains(c) by {
            assert(plan_columns(built[order[0]]).contains(c));
        }
    } else {
        let before = left_deep(block, built, order, (k - 1) as nat)->Ok_0;
        let last = built[order[k - 1]];
        lemma_left_deep_columns(block, built, order, (k - 1) as nat);
        assert(plan_columns(tree) == plan_columns(before) + plan_columns(last));
        assert forall|c: Seq<char>| #[trigger] plan_columns(tree).contains(c) <==> exists|j: int|
            0 <= j < k && plan_columns(built[#[trigger] order[j]]).contains(c) by {
            lemma_concat_contains(plan_columns(before), plan_columns(last), c);
            if plan_columns(before).contains(c) {
                let j = choose|j: int|
                    0 <= j < k - 1 && plan_columns(built[#[trigger] order[j]]).contains(c);
                assert(plan_columns(built[order[j]]).contains(c));
            }
            if plan_columns(last).contains(c) {
                assert(plan_columns(built[order[k - 1]]).contains(c));
            }
        }
    }
}

pub proof fn lemma_built_leaves(
    tables: Seq<TableSpec>,
    block: JoinBlock,
    n: nat,
    depth: nat,
)
    requires
        n <= block.leaves.len(),
        built_leaves(tables, block, n, depth) is Ok,
        forall|i: int| 0 <= i < block.leaves.len() ==> height(#[trigger] block.leaves[i]) <= depth,
        forall|i: int|
            0 <= i < block.leaves.len() ==> logical_columns(
                tables,
                #[trigger] block.leaves[i],
            ) is Ok,
    ensures
        (built_leaves(tables, block, n, depth)->Ok_0).len() == n,
        forall|i: int|
            0 <= i < n ==> keeps_columns(
                logical_columns(tables, block.leaves[i])->Ok_0,
                leaf_needs(block, i),
                #[trigger] (built_leaves(tables, block, n, depth)->Ok_0)[i],
            ),
    decreases depth, n + 1,
{
    if n > 0 {
        let m = (n - 1) as nat;
        lemma_built_leaves(tables, block, m, depth);
        let built = built_leaves(tables, block, n, depth)->Ok_0;
        let before = built_leaves(tables, block, m, depth)->Ok_0;
        let leaf = block.leaves[n - 1];
        let p = plan_within(tables, leaf, leaf_needs(block, n - 1), depth)->Ok_0;
        lemma_plan_keeps(tables, leaf, leaf_needs(block, n - 1), depth);
        assert(built.drop_last() =~= before);
        assert(plan_columns(built.last()) == plan_columns(p));
        assert forall|i: int| 0 <= i < n implies keeps_columns(
            logical_columns(tables, block.leaves[i])->Ok_0,
            leaf_needs(block, i),
            #[trigger] built[i],
        ) by {
            if i < m {
                assert(built[i] == before[i]);
            }
        }
    }
}

pub proof fn lemma_leaf_heights(op: QueryOp)
    ensures
        forall|i: int|
            0 <= i < leaves_of(op).len() ==> height(#[trigger] leaves_of(op)[i]) <= height(op),
    decreases op,
{
    match op {
        QueryOp::Cross(d) => {
            lemma_leaf_heights(*d.left);
            lemma_leaf_heights(*d.right);
            let ls = leaves_of(*d.left);
            let rs = leaves_of(*d.right);
            assert forall|i: int| 0 <= i < leaves_of(op).len() implies height(
                #[trigger] leaves_of(op)[i],
            ) <= height(op) by {
                if i < ls.len() {
                    assert(leaves_of(op)[i] == ls[i]);
                } else {
                    assert(leaves_of(op)[i] == rs[i - ls.len()]);
                }
            }
        },
        _ => {},
    }
}

proof fn lemma_flat_keeps(
    tables: Seq<TableSpec>,
    underlying: QueryOp,
    cs: Seq<Condition>,
    needed: Option<Set<Seq<char>>>,
    depth: nat,
)
    requires
        height(underlying) <= depth,
        flattened(tables, underlying, cs, needed) is Flat,
        ({
            let block = flattened(tables, underlying, cs, needed)->Flat_0;
            let n = block.leaves.len();
            &&& built_leaves(tables, block, n, depth) is Ok
            &&& left_deep(
                block,
                built_leaves(tables, block, n, depth)->Ok_0,
                block_order(block),
                n,
            ) is Ok
            &&& is_greedy_order(n as int, block.links, block_order(block))
        }),
    ensures
        logical_columns(tables, underlying) is Ok,
        ({
            let block = flattened(tables, underlying, cs, needed)->Flat_0;
            let n = block.leaves.len();
            keeps_columns(
                logical_columns(tables, underlying)->Ok_0,
                needed,
                left_deep(
                    block,
                    built_leaves(tables, block, n, depth)->Ok_0,
                    block_order(block),
                    n,
                )->Ok_0,
            )
        }),
    decreases depth, 1000nat,
{
    let block = flattened(tables, underlying, cs, needed)->Flat_0;
    let n = block.leaves.len();
    let built = built_leaves(tables, block, n, depth)->Ok_0;
    let order = block_order(block);
    let tree = left_deep(block, built, order, n)->Ok_0;
    lemma_leaf_heights(underlying);
    lemma_gathered_columns(tables, block.leaves);
    lemma_leaf_columns(tables, underlying);
    lemma_built_leaves(tables, block, n, depth);
    lemma_left_deep_columns(block, built, order, n);
    greedy_order_is_a_permutation(n as int, block.links, order);
    let columns = logical_columns(tables, underlying)->Ok_0;
    assert forall|c: Seq<char>| #[trigger] plan_columns(tree).contains(c) implies columns.contains(
        c,
    ) by {
        let j = choose|j: int| 0 <= j < n && plan_columns(built[#[trigger] order[j]]).contains(c);
        let i = order[j];
        assert(keeps_columns(
            logical_columns(tables, block.leaves[i])->Ok_0,
            leaf_needs(block, i),
            built[i],
        ));
        assert((logical_columns(tables, block.leaves[i])->Ok_0).contains(c));
    }
    assert forall|c: Seq<char>| #[trigger] columns.contains(c) && is_needed(
        needed,
        c,
    ) implies plan_columns(tree).contains(c) by {
        let i = choose|i: int|
            0 <= i < block.leaves.len() && (logical_columns(
                tables,
                #[trigger] block.leaves[i],
            )->Ok_0).contains(c);
        assert(block.schemas[i].contains(c));
        assert(owner_of(block.schemas, c) == Some(i));
        assert(is_needed(leaf_needs(block, i), c)) by {
            if let Some(set) = block.needed {
                let mine = set.union(all_columns_of(conditions_of(block.links))).filter(
                    |c: Seq<char>| owner_of(block.schemas, c) == Some(i),
                );
                assert(needed == Some(set));
                assert(mine.contains(c));
            }
        }
        assert(keeps_columns(
            logical_columns(tables, block.leaves[i])->Ok_0,
            leaf_needs(block, i),
            built[i],
        ));
        assert(plan_columns(built[i]).contains(c));
        assert(order.contains(i));
        let j = choose|j: int| 0 <= j < order.len() && order[j] == i;
        assert(plan_columns(built[order[j]]).contains(c));
    }
}

pub proof fn lemma_plan_keeps(
    tables: Seq<TableSpec>,
    op: QueryOp,
    needed: Option<Set<Seq<char>>>,
    depth: nat,
)
    requires
        height(op) <= depth,
        plan_within(tables, op, needed, depth) is Ok,
    ensures
        logical_columns(tables, op) is Ok,
        keeps_columns(
            logical_columns(tables, op)->Ok_0,
            needed,
            plan_within(tables, op, needed, depth)->Ok_0,
        ),
    decreases depth, 0nat,
{
    let below = (depth - 1) as nat;
    match op {
        QueryOp::Scan(d) => {
            let i = table_at(tables, d.table_id@)->0;
            lemma_scan_keeps(d.table_id@, names_of(tables[i].column_specs@), needed);
        },
        QueryOp::Filter(d) => {
            let cs = conditions(d.predicates@);
            let child = match needed {
                Some(n) => Some(n.union(all_columns_of(cs))),
                None => None,
            };
            match flattened(tables, *d.underlying, cs, child) {
                Flattened::Flat(block) => {
                    crate::join_order::greedy_order_exists(
                        block.leaves.len() as int,
                        block.links,
                    );
                    lemma_flat_keeps(tables, *d.underlying, cs, child, below);
                },
                _ => {
                    lemma_plan_keeps(tables, *d.underlying, child, below);
                },
            }
        },
        QueryOp::Cross(d) => {
            lemma_plan_keeps(tables, *d.left, needed, below);
            lemma_plan_keeps(tables, *d.right, needed, below);
            let a = logical_columns(tables, *d.left)->Ok_0;
            let b = logical_columns(tables, *d.right)->Ok_0;
            let l = plan_within(tables, *d.left, needed, below)->Ok_0;
            let r = plan_within(tables, *d.right, needed, below)->Ok_0;
            let tree = plan_within(tables, op, needed, depth)->Ok_0;
            assert forall|c: Seq<char>| #[trigger] plan_columns(tree).contains(c) implies (a
                + b).contains(c) by {
                lemma_concat_contains(plan_columns(l), plan_columns(r), c);
                lemma_concat_contains(a, b, c);
            }
            assert forall|c: Seq<char>| #[trigger] (a + b).contains(c) && is_needed(
                needed,
                c,
            ) implies plan_columns(tree).contains(c) by {
                lemma_concat_contains(plan_columns(l), plan_columns(r), c);
                lemma_concat_contains(a, b, c);
            }
        },
        QueryOp::Project(d) => {},
        QueryOp::Sort(d) => {
            let child = match needed {
                Some(n) => Some(n.union(sort_columns_of(d.sort_specs@))),
                None => None,
            };
            lemma_plan_keeps(tables, *d.underlying, child, below);
        },
    }
}

/// A plan gives out no columns that the query does not have, and all of them that are read above
/// it; where all are, it gives out all.
pub proof fn plan_keeps_needed_columns(
    tables: Seq<TableSpec>,
    op: QueryOp,
    needed: Option<Set<Seq<char>>>,
)
    requires
        plan_of(tables, op, needed) is Ok,
    ensures
        logical_columns(tables, op) is Ok,
        keeps_columns(
            logical_columns(tables, op)->Ok_0,
            needed,
            plan_of(tables, op, needed)->Ok_0,
        ),
{
    lemma_plan_keeps(tables, op, needed, height(op));
}

/// Whether a predicate links a relation with one of those that are placed.
pub open spec fn links_to(l: Link, placed: Seq<int>, rel: int) -> bool {
    l.first != l.second && ((l.first == rel && placed.contains(l.second)) || (l.second == rel
        && placed.contains(l.first)))
}

/// The relation that comes next is linked with those before it by no fewer predicates than any
/// other that is left, and of those with as many, no fewer predicates touch it alone. The first one
/// is the one that most predicates touch alone.
pub proof fn the_best_linked_relation_comes_next(
    n: int,
    ls: Seq<Link>,
    order: Seq<int>,
    k: int,
    d: int,
)
    requires
        crate::join_order::is_greedy_order(n, ls, order),
        0 <= k < n,
        0 <= d < n,
        !order.take(k).contains(d),
    ensures
        ({
            let placed = order.take(k);
            let c = order[k];
            let linked = ls.filter(|l: Link| links_to(l, placed, c)).len();
            let other = ls.filter(|l: Link| links_to(l, placed, d)).len();
            let alone = ls.filter(|l: Link| l.first == c && l.second == c).len();
            let other_alone = ls.filter(|l: Link| l.first == d && l.second == d).len();
            &&& k > 0 ==> linked >= other
            &&& k > 0 && linked == other && linked > 0 ==> alone >= other_alone
            &&& k == 0 ==> alone >= other_alone
        }),
{
    let placed = order.take(k);
    let c = order[k];
    assert(crate::join_order::between(placed, c) =~= |l: Link| links_to(l, placed, c));
    assert(crate::join_order::between(placed, d) =~= |l: Link| links_to(l, placed, d));
    assert(crate::join_order::local_to(c) =~= |l: Link| l.first == c && l.second == c);
    assert(crate::join_order::local_to(d) =~= |l: Link| l.first == d && l.second == d);
    if k > 0 {
        assert(crate::join_order::is_next(n, ls, placed, c));
        assert(crate::join_order::edge_count(ls, placed, d) >= 0);
        if crate::join_order::edge_count(ls, placed, c) > 0 {
            assert(crate::join_order::better(ls, placed, c, d));
        }
    } else {
        assert(crate::join_order::is_start(n, ls, c));
        assert(crate::join_order::local_count(ls, d) >= 0);
    }
}

} // verus!

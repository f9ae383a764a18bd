//! From a query tree to a physical plan.

use vstd::prelude::*;
use crate::catalog::{TableSpec, get_table_spec, names_of, schema_from_table_spec, table_at};
use crate::error::DbError;
use crate::filter::resolve_predicates;
use crate::join_order::{ClassifiedPredicate, Link, adds_new_columns, between, choose_greedy_connected_order, classify_predicates, conditions_of, find_owner, group_local_predicates, has_new_columns, is_greedy_order, is_known, link_of, links, local_to, owner_of, schemas_of};
use crate::join_plan::split_join_predicates;
use crate::names::{NameSet, add_predicate_columns, add_sort_columns, all_columns_of, needs, sort_columns_of};
use crate::plan::{Plan, PlanIssue, PlanTree, ScanPlan, alias_schema, filtered, joined, ordered, pair_names, projected, sort_pairs, tree_of};
use crate::project::{aliases, sources};
use crate::query::{Condition, Predicate, QueryOp, SortSpec, conditions};
use crate::row::RowSchema;
use crate::views::positions;

verus! {

broadcast use {crate::query::lemma_conditions_push, crate::views::lemma_texts_push};

/// How deep a query tree is.
pub open spec fn height(op: QueryOp) -> nat
    decreases op,
{
    match op {
        QueryOp::Scan(_) => 1,
        QueryOp::Filter(d) => height(*d.underlying) + 1,
        QueryOp::Project(d) => height(*d.underlying) + 1,
        QueryOp::Sort(d) => height(*d.underlying) + 1,
        QueryOp::Cross(d) => (if height(*d.left) >= height(*d.right) {
            height(*d.left)
        } else {
            height(*d.right)
        }) + 1,
    }
}

/// The inputs of a tree of cross products, from left to right.
pub open spec fn leaves_of(op: QueryOp) -> Seq<QueryOp>
    decreases op,
{
    match op {
        QueryOp::Cross(d) => leaves_of(*d.left) + leaves_of(*d.right),
        _ => Seq::empty().push(op),
    }
}

/// The columns of a query's result.
pub open spec fn logical_columns(tables: Seq<TableSpec>, op: QueryOp) -> Result<
    Seq<Seq<char>>,
    PlanIssue,
>
    decreases op,
{
    match op {
        QueryOp::Scan(d) => match table_at(tables, d.table_id@) {
            Some(i) => Ok(names_of(tables[i].column_specs@)),
            None => Err(PlanIssue::NoTable(d.table_id@)),
        },
        QueryOp::Filter(d) => logical_columns(tables, *d.underlying),
        QueryOp::Sort(d) => logical_columns(tables, *d.underlying),
        QueryOp::Project(d) => Ok(aliases(d.column_name_map@)),
        QueryOp::Cross(d) => match logical_columns(tables, *d.left) {
            Err(e) => Err(e),
            Ok(l) => match logical_columns(tables, *d.right) {
                Err(e) => Err(e),
                Ok(r) => Ok(l + r),
            },
        },
    }
}

/// The positions of the columns that are needed.
pub open spec fn kept_positions(columns: Seq<Seq<char>>, needed: Set<Seq<char>>) -> Seq<int>
    decreases columns.len(),
{
    if columns.len() == 0 {
        Seq::empty()
    } else {
        let before = kept_positions(columns.drop_last(), needed);
        if needed.contains(columns.last()) {
            before.push(columns.len() - 1)
        } else {
            before
        }
    }
}

/// A scan that reads the needed columns; all of them where none is or all are needed.
pub open spec fn scan_tree(
    table: Seq<char>,
    columns: Seq<Seq<char>>,
    needed: Option<Set<Seq<char>>>,
) -> PlanTree {
    let whole = PlanTree::Scan { table, columns, kept: None, total: columns.len() as int };
    match needed {
        None => whole,
        Some(set) => {
            let kept = kept_positions(columns, set);
            if 0 < kept.len() < columns.len() {
                PlanTree::Scan {
                    table,
                    columns: kept.map_values(|i: int| columns[i]),
                    kept: Some(kept),
                    total: columns.len() as int,
                }
            } else {
                whole
            }
        },
    }
}

/// The schemas of the inputs of a join block, or why there is no such block.
pub enum Schemas {
    Failed(PlanIssue),
    Clash,
    Found(Seq<Seq<Seq<char>>>),
}

/// Looks up the schemas of the first inputs. Columns that share a name make no block.
pub open spec fn gathered(tables: Seq<TableSpec>, leaves: Seq<QueryOp>) -> Schemas
    decreases leaves.len(),
{
    if leaves.len() == 0 {
        Schemas::Found(Seq::empty())
    } else {
        match gathered(tables, leaves.drop_last()) {
            Schemas::Found(before) => match logical_columns(tables, leaves.last()) {
                Err(e) => Schemas::Failed(e),
                Ok(columns) => if adds_new_columns(before, columns) {
                    Schemas::Found(before.push(columns))
                } else {
                    Schemas::Clash
                },
            },
            other => other,
        }
    }
}

/// A join block: relations, the conditions between them, and the columns that are needed.
pub struct JoinBlock {
    pub leaves: Seq<QueryOp>,
    pub schemas: Seq<Seq<Seq<char>>>,
    pub links: Seq<Link>,
    pub needed: Option<Set<Seq<char>>>,
}

/// What is made of a filter over a tree of cross products.
pub enum Flattened {
    Failed(PlanIssue),
    NotFlat,
    Flat(JoinBlock),
}

/// The largest number of relations in a join block.
pub const MAX_BLOCK_RELATIONS: usize = 63;

/// Whether every column of a set is held by a relation.
pub open spec fn owned_set(schemas: Seq<Seq<Seq<char>>>, set: Set<Seq<char>>) -> bool {
    forall|c: Seq<char>| #[trigger] set.contains(c) ==> owner_of(schemas, c) is Some
}

/// Whether every needed column is held by a relation.
pub open spec fn all_owned(schemas: Seq<Seq<Seq<char>>>, needed: Option<Set<Seq<char>>>) -> bool {
    match needed {
        Some(set) => owned_set(schemas, set),
        None => true,
    }
}

/// The join block of a filter over a tree of cross products. There is none where columns share a
/// name, or where a condition or an operator above reads a column that no input has.
pub open spec fn flattened(
    tables: Seq<TableSpec>,
    underlying: QueryOp,
    cs: Seq<Condition>,
    needed: Option<Set<Seq<char>>>,
) -> Flattened {
    let leaves = leaves_of(underlying);
    if !(underlying is Cross) || leaves.len() <= 1 || leaves.len() > MAX_BLOCK_RELATIONS {
        Flattened::NotFlat
    } else {
        match gathered(tables, leaves) {
            Schemas::Failed(e) => Flattened::Failed(e),
            Schemas::Clash => Flattened::NotFlat,
            Schemas::Found(schemas) => if (forall|i: int|
                0 <= i < cs.len() ==> is_known(schemas, #[trigger] cs[i])) && all_owned(
                schemas,
                needed,
            ) {
                Flattened::Flat(
                    JoinBlock {
                        leaves,
                        schemas,
                        links: cs.map_values(|c: Condition| link_of(schemas, c)),
                        needed,
                    },
                )
            } else {
                Flattened::NotFlat
            },
        }
    }
}

/// The columns that a relation of a block has to give: those that are needed above or read by a
/// condition. All of them where all are needed above, or none is.
pub open spec fn leaf_needs(block: JoinBlock, i: int) -> Option<Set<Seq<char>>> {
    match block.needed {
        None => None,
        Some(set) => {
            let mine = set.union(all_columns_of(conditions_of(block.links))).filter(
                |c: Seq<char>| owner_of(block.schemas, c) == Some(i),
            );
            if mine == Set::<Seq<char>>::empty() {
                None
            } else {
                Some(mine)
            }
        },
    }
}

/// The conditions that are tested when the `k`-th relation of an order is joined: those between
/// it and the ones before it.
pub open spec fn join_conditions(block: JoinBlock, order: Seq<int>, k: int) -> Seq<Condition> {
    conditions_of(block.links.filter(between(order.take(k), order[k])))
}

/// The left-deep join of the first `k` relations of an order.
pub open spec fn left_deep(block: JoinBlock, built: Seq<PlanTree>, order: Seq<int>, k: nat) -> Result<
    PlanTree,
    PlanIssue,
>
    decreases k,
{
    if k <= 1 {
        Ok(built[order[0]])
    } else {
        match left_deep(block, built, order, (k - 1) as nat) {
            Err(e) => Err(e),
            Ok(left) => joined(
                left,
                built[order[k - 1]],
                join_conditions(block, order, k - 1),
            ),
        }
    }
}

/// The greedy order of a block's relations.
pub open spec fn block_order(block: JoinBlock) -> Seq<int> {
    choose|order: Seq<int>| is_greedy_order(block.leaves.len() as int, block.links, order)
}

/// The plan of a query that is at most `depth` deep, where the columns `needed` are read above
/// it; `None` stands for all columns.
pub open spec fn plan_within(
    tables: Seq<TableSpec>,
    op: QueryOp,
    needed: Option<Set<Seq<char>>>,
    depth: nat,
) -> Result<PlanTree, PlanIssue>
    decreases depth, 0nat,
{
    if depth == 0 {
        Err(PlanIssue::NoTable(Seq::empty()))
    } else {
        let below = (depth - 1) as nat;
        match op {
            QueryOp::Scan(d) => match table_at(tables, d.table_id@) {
                Some(i) => Ok(
                    scan_tree(d.table_id@, names_of(tables[i].column_specs@), needed),
                ),
                None => Err(PlanIssue::NoTable(d.table_id@)),
            },
            QueryOp::Filter(d) => {
                let cs = conditions(d.predicates@);
                let child = match needed {
                    Some(n) => Some(n.union(all_columns_of(cs))),
                    None => None,
                };
                match flattened(tables, *d.underlying, cs, child) {
                    Flattened::Failed(e) => Err(e),
                    Flattened::Flat(block) => match built_leaves(
                        tables,
                        block,
                        block.leaves.len(),
                        below,
                    ) {
                        Err(e) => Err(e),
                        Ok(built) => left_deep(
                            block,
                            built,
                            block_order(block),
                            block.leaves.len(),
                        ),
                    },
                    Flattened::NotFlat => match plan_within(tables, *d.underlying, child, below) {
                        Err(e) => Err(e),
                        Ok(p) => filtered(p, cs),
                    },
                }
            },
            QueryOp::Cross(d) => match plan_within(tables, *d.left, needed, below) {
                Err(e) => Err(e),
                Ok(l) => match plan_within(tables, *d.right, needed, below) {
                    Err(e) => Err(e),
                    Ok(r) => joined(l, r, Seq::empty()),
                },
            },
            QueryOp::Project(d) => {
                let from = sources(d.column_name_map@);
                match plan_within(tables, *d.underlying, Some(from.to_set()), below) {
                    Err(e) => Err(e),
                    Ok(p) => projected(p, from, aliases(d.column_name_map@)),
                }
            },
            QueryOp::Sort(d) => {
                let child = match needed {
                    Some(n) => Some(n.union(sort_columns_of(d.sort_specs@))),
                    None => None,
                };
                match plan_within(tables, *d.underlying, child, below) {
                    Err(e) => Err(e),
                    Ok(p) => ordered(p, sort_pairs(d.sort_specs@)),
                }
            },
        }
    }
}

/// The plans of the first `n` relations of a block, each with the conditions that touch it alone.
pub open spec fn built_leaves(
    tables: Seq<TableSpec>,
    block: JoinBlock,
    n: nat,
    depth: nat,
) -> Result<Seq<PlanTree>, PlanIssue>
    decreases depth, n + 1,
{
    if n == 0 {
        Ok(Seq::empty())
    } else {
        match built_leaves(tables, block, (n - 1) as nat, depth) {
            Err(e) => Err(e),
            Ok(before) => match plan_within(
                tables,
                block.leaves[n - 1],
                leaf_needs(block, n - 1),
                depth,
            ) {
                Err(e) => Err(e),
                Ok(p) => {
                    let own = conditions_of(block.links.filter(local_to(n - 1)));
                    if own.len() == 0 {
                        Ok(before.push(p))
                    } else {
                        match filtered(p, own) {
                            Err(e) => Err(e),
                            Ok(f) => Ok(before.push(f)),
                        }
                    }
                },
            },
        }
    }
}

/// The plan of a query, where the columns `needed` are read above it; `None` stands for all.
pub open spec fn plan_of(tables: Seq<TableSpec>, op: QueryOp, needed: Option<Set<Seq<char>>>) -> Result<
    PlanTree,
    PlanIssue,
> {
    plan_within(tables, op, needed, height(op))
}

/// Whether a result is the plan, or the error that stands for the issue.
pub open spec fn is_outcome(r: Result<Plan, DbError>, expected: Result<PlanTree, PlanIssue>) -> bool {
    match expected {
        Ok(tree) => r is Ok && tree_of(r->Ok_0) == tree,
        Err(issue) => r is Err && is_issue(r->Err_0, issue),
    }
}

/// Whether an error stands for an issue.
pub open spec fn is_issue(e: DbError, issue: PlanIssue) -> bool {
    match issue {
        PlanIssue::NoTable(t) => e matches DbError::TableNotFound(n) && n@ == t,
        PlanIssue::NoColumn(c) => e matches DbError::ColumnNotFound(n) && n@ == c,
    }
}

proof fn lemma_leaf_heights(op: QueryOp)
    ensures
        leaves_of(op).len() > 0,
        forall|i: int|
            0 <= i < leaves_of(op).len() ==> height(#[trigger] leaves_of(op)[i]) <= height(op) && !(
            leaves_of(op)[i] is Cross),
    decreases op,
{
    match op {
        QueryOp::Cross(d) => {
            lemma_leaf_heights(*d.left);
            lemma_leaf_heights(*d.right);
            let ls = leaves_of(*d.left);
            let rs = leaves_of(*d.right);
            assert forall|i: int| 0 <= i < leaves_of(op).len() implies height(
                #[trigger] leaves_of(op)[i],
            ) <= height(op) && !(leaves_of(op)[i] is Cross) by {
                if i < ls.len() {
                    assert(leaves_of(op)[i] == ls[i]);
                } else {
                    assert(leaves_of(op)[i] == rs[i - ls.len()]);
                }
            }
        },
        _ => {},
    }
}

/// The operators that references point to.
pub open spec fn pointed_at<'a>(ops: Seq<&'a QueryOp>) -> Seq<QueryOp> {
    ops.map_values(|op: &'a QueryOp| *op)
}

/// Collects the inputs of a tree of cross products, from left to right.
pub fn flatten_cross_inputs<'a>(op: &'a QueryOp, out: &mut Vec<&'a QueryOp>)
    ensures
        pointed_at(final(out)@) == pointed_at(old(out)@) + leaves_of(*op),
    decreases op,
{
    match op {
        QueryOp::Cross(d) => {
            flatten_cross_inputs(&d.left, out);
            let ghost mid = pointed_at(out@);
            flatten_cross_inputs(&d.right, out);
            proof {
                assert(pointed_at(out@) =~= pointed_at(old(out)@) + leaves_of(*op));
            }
        },
        _ => {
            out.push(op);
            proof {
                assert(pointed_at(out@) =~= pointed_at(old(out)@) + leaves_of(*op));
            }
        },
    }
}

/// The schema of a query's result.
pub fn logical_schema(tables: &[TableSpec], op: &QueryOp) -> (r: Result<RowSchema, DbError>)
    ensures
        match logical_columns(tables@, *op) {
            Ok(columns) => r is Ok && (r->Ok_0)@ == columns,
            Err(issue) => r is Err && is_issue(r->Err_0, issue),
        },
    decreases op,
{
    match op {
        QueryOp::Scan(d) => match get_table_spec(tables, d.table_id.as_str()) {
            Ok(spec) => Ok(schema_from_table_spec(spec)),
            Err(e) => Err(e),
        },
        QueryOp::Filter(d) => logical_schema(tables, &d.underlying),
        QueryOp::Sort(d) => logical_schema(tables, &d.underlying),
        QueryOp::Project(d) => Ok(alias_schema(d.column_name_map.as_slice())),
        QueryOp::Cross(d) => {
            let left = match logical_schema(tables, &d.left) {
                Ok(s) => s,
                Err(e) => {
                    return Err(e);
                },
            };
            let right = match logical_schema(tables, &d.right) {
                Ok(s) => s,
                Err(e) => {
                    return Err(e);
                },
            };
            Ok(RowSchema::merge(&left, &right))
        },
    }
}

/// Copies a list of predicates.
pub fn clone_predicates(predicates: &[Predicate]) -> (r: Vec<Predicate>)
    ensures
        conditions(r@) == conditions(predicates@),
{
    let mut out: Vec<Predicate> = Vec::new();
    let mut i: usize = 0;
    while i < predicates.len()
        invariant
            i <= predicates@.len(),
            conditions(out@) == conditions(predicates@).take(i as int),
        decreases predicates@.len() - i,
    {
        out.push(predicates[i].clone());
        i += 1;
        assert(conditions(out@) =~= conditions(predicates@).take(i as int));
    }
    assert(conditions(predicates@).take(i as int) =~= conditions(predicates@));
    out
}

/// A filter over a plan.
fn filter_plan(input: Plan, predicates: Vec<Predicate>) -> (r: Result<Plan, DbError>)
    ensures
        is_outcome(r, filtered(tree_of(input), conditions(predicates@))),
{
    let schema = input.schema();
    match resolve_predicates(&schema, predicates.as_slice()) {
        Ok(_) => Ok(Plan::Filter(Box::new(input), predicates)),
        Err(e) => Err(e),
    }
}

/// A join of two plans.
fn join_plan(left: Plan, right: Plan, predicates: Vec<Predicate>) -> (r: Result<Plan, DbError>)
    ensures
        is_outcome(r, joined(tree_of(left), tree_of(right), conditions(predicates@))),
{
    let ls = left.schema();
    let rs = right.schema();
    let (_, _, extra) = split_join_predicates(&ls, &rs, predicates.as_slice());
    let merged = RowSchema::merge(&ls, &rs);
    match resolve_predicates(&merged, extra.as_slice()) {
        Ok(_) => Ok(Plan::Join(Box::new(left), Box::new(right), predicates)),
        Err(e) => Err(e),
    }
}

/// A scan of a table, of the needed columns.
fn scan_plan(table_id: &str, schema: RowSchema, needed: Option<&NameSet>) -> (r: Plan)
    ensures
        tree_of(r) == scan_tree(table_id@, schema@, needs(needed)),
{
    let total: usize = schema.len();
    if let Some(set) = needed {
        let ghost columns = schema@;
        let names = schema.column_names();
        let mut kept: Vec<usize> = Vec::new();
        let mut kept_names: Vec<String> = Vec::new();
        let mut i: usize = 0;
        proof {
            assert(crate::views::texts(names@).len() == names@.len());
            assert(columns.take(0) =~= Seq::<Seq<char>>::empty());
            assert(positions(kept@) =~= kept_positions(columns.take(0), set@));
            assert(crate::views::texts(kept_names@) =~= positions(kept@).map_values(
                |i: int| columns[i],
            ));
        }
        while i < names.len()
            invariant
                i <= names@.len(),
                columns == schema@,
                columns == crate::views::texts(names@),
                columns.len() == names@.len(),
                positions(kept@) == kept_positions(columns.take(i as int), set@),
                crate::views::texts(kept_names@) == positions(kept@).map_values(
                    |i: int| columns[i],
                ),
                kept@.len() == kept_names@.len(),
            decreases names@.len() - i,
        {
            proof {
                assert(columns[i as int] == names@[i as int]@);
                assert(columns.take(i + 1).drop_last() =~= columns.take(i as int));
                assert(columns.take(i + 1).last() == columns[i as int]);
            }
            if set.contains(names[i].as_str()) {
                let ghost before = kept@;
                let ghost before_names = kept_names@;
                kept.push(i);
                kept_names.push(names[i].clone());
                proof {
                    assert(positions(kept@) =~= positions(before).push(i as int));
                    assert(crate::views::texts(kept_names@) =~= crate::views::texts(
                        before_names,
                    ).push(columns[i as int]));
                    assert(crate::views::texts(kept_names@) =~= positions(kept@).map_values(
                        |i: int| columns[i],
                    ));
                }
            }
            i += 1;
        }
        proof {
            assert(columns.take(columns.len() as int) =~= columns);
            assert(positions(kept@).len() == kept@.len());
        }
        if kept.len() > 0 && kept.len() < total {
            return Plan::Scan(
                ScanPlan {
                    table_id: table_id.to_owned(),
                    schema: RowSchema::new(kept_names),
                    kept: Some(kept),
                    total_columns: total,
                },
            );
        }
    }
    Plan::Scan(
        ScanPlan { table_id: table_id.to_owned(), schema, kept: None, total_columns: total },
    )
}

/// What is made of a filter over a tree of cross products.
enum FlatBlock<'a> {
    NotFlat,
    Flat { leaves: Vec<&'a QueryOp>, schemas: Vec<RowSchema>, classified: Vec<ClassifiedPredicate> },
}

spec fn is_flat_block<'a>(
    b: FlatBlock<'a>,
    expected: Flattened,
    needed: Option<Set<Seq<char>>>,
) -> bool {
    match expected {
        Flattened::Failed(_) => false,
        Flattened::NotFlat => b is NotFlat,
        Flattened::Flat(block) => match b {
            FlatBlock::NotFlat => false,
            FlatBlock::Flat { leaves, schemas, classified } => {
                &&& pointed_at(leaves@) == block.leaves
                &&& schemas_of(schemas@) == block.schemas
                &&& links(classified@) == block.links
                &&& needed == block.needed
                &&& leaves@.len() == schemas@.len()
                &&& 1 < leaves@.len()
                &&& forall|i: int|
                    0 <= i < classified@.len() ==> (#[trigger] classified@[i]).first < leaves@.len()
                        && classified@[i].second < leaves@.len()
            },
        },
    }
}

proof fn lemma_gathered_prefix(tables: Seq<TableSpec>, leaves: Seq<QueryOp>, i: int)
    requires
        0 <= i <= leaves.len(),
        !(gathered(tables, leaves.take(i)) is Found),
    ensures
        gathered(tables, leaves) == gathered(tables, leaves.take(i)),
    decreases leaves.len() - i,
{
    if i < leaves.len() {
        assert(leaves.take(i + 1).drop_last() =~= leaves.take(i));
        lemma_gathered_prefix(tables, leaves, i + 1);
    } else {
        assert(leaves.take(i) =~= leaves);
    }
}

/// Whether every needed column is held by a relation.
fn needs_are_owned(schemas: &[RowSchema], needed: Option<&NameSet>) -> (r: bool)
    ensures
        r == all_owned(schemas_of(schemas@), needs(needed)),
{
    match needed {
        None => true,
        Some(set) => {
            let names = set.as_slice();
            let ghost all = crate::views::texts(names@);
            let mut i: usize = 0;
            while i < names.len()
                invariant
                    i <= names@.len(),
                    all == crate::views::texts(names@),
                    all.to_set() == set@,
                    needs(needed) == Some(set@),
                    forall|j: int|
                        0 <= j < i ==> owner_of(schemas_of(schemas@), #[trigger] all[j]) is Some,
                decreases names@.len() - i,
            {
                assert(all[i as int] == names@[i as int]@);
                if find_owner(schemas, names[i].as_str()).is_none() {
                    proof {
                        let c = all[i as int];
                        assert(all.contains(c));
                        assert(set@.contains(c));
                        assert(owner_of(schemas_of(schemas@), c) is None);
                        assert(!owned_set(schemas_of(schemas@), set@));
                    }
                    return false;
                }
                i += 1;
            }
            assert forall|c: Seq<char>| #[trigger] set@.contains(c) implies owner_of(
                schemas_of(schemas@),
                c,
            ) is Some by {
                assert(all.contains(c));
                let j = choose|j: int| 0 <= j < all.len() && all[j] == c;
            }
            true
        },
    }
}

/// Finds the join block of a filter over a tree of cross products.
fn flatten_block<'a>(
    tables: &[TableSpec],
    underlying: &'a QueryOp,
    predicates: &[Predicate],
    needed: Option<&NameSet>,
) -> (r: Result<FlatBlock<'a>, DbError>)
    ensures
        ({
            let expected = flattened(
                tables@,
                *underlying,
                conditions(predicates@),
                needs(needed),
            );
            match r {
                Ok(b) => is_flat_block(b, expected, needs(needed)),
                Err(e) => expected matches Flattened::Failed(issue) && is_issue(e, issue),
            }
        }),
{
    match underlying {
        QueryOp::Cross(_) => {},
        _ => {
            return Ok(FlatBlock::NotFlat);
        },
    }
    let mut leaves: Vec<&'a QueryOp> = Vec::new();
    flatten_cross_inputs(underlying, &mut leaves);
    let ghost ops = leaves_of(*underlying);
    proof {
        assert(pointed_at(leaves@) =~= ops);
        assert(leaves@.len() == pointed_at(leaves@).len());
    }
    if leaves.len() <= 1 || leaves.len() > MAX_BLOCK_RELATIONS {
        return Ok(FlatBlock::NotFlat);
    }
    let mut schemas: Vec<RowSchema> = Vec::new();
    let mut i: usize = 0;
    proof {
        assert(ops.take(0) =~= Seq::<QueryOp>::empty());
        assert(schemas_of(schemas@) =~= Seq::<Seq<Seq<char>>>::empty());
    }
    while i < leaves.len()
        invariant
            i <= leaves@.len(),
            *underlying is Cross,
            ops == leaves_of(*underlying),
            1 < ops.len() <= MAX_BLOCK_RELATIONS,
            pointed_at(leaves@) == ops,
            leaves@.len() == ops.len(),
            schemas@.len() == i,
            gathered(tables@, ops.take(i as int)) == Schemas::Found(schemas_of(schemas@)),
        decreases leaves@.len() - i,
    {
        proof {
            assert(ops[i as int] == *leaves@[i as int]);
            assert(ops.take(i + 1).drop_last() =~= ops.take(i as int));
            assert(ops.take(i + 1).last() == ops[i as int]);
        }
        let schema = match logical_schema(tables, leaves[i]) {
            Ok(s) => s,
            Err(e) => {
                proof {
                    lemma_gathered_prefix(tables@, ops, i + 1);
                }
                return Err(e);
            },
        };
        if !has_new_columns(schemas.as_slice(), &schema) {
            proof {
                lemma_gathered_prefix(tables@, ops, i + 1);
            }
            return Ok(FlatBlock::NotFlat);
        }
        proof {
            assert(schemas_of(schemas@.push(schema)) =~= schemas_of(schemas@).push(schema@));
        }
        schemas.push(schema);
        i += 1;
    }
    proof {
        assert(ops.take(ops.len() as int) =~= ops);
    }
    let ghost ss = schemas_of(schemas@);
    let ghost cs = conditions(predicates@);
    let classified = match classify_predicates(predicates, schemas.as_slice()) {
        Some(v) => v,
        None => {
            proof {
                let j = choose|j: int|
                    0 <= j < predicates@.len() && !is_known(ss, (#[trigger] predicates@[j])@);
                assert(cs[j] == predicates@[j]@);
            }
            return Ok(FlatBlock::NotFlat);
        },
    };
    proof {
        assert forall|j: int| 0 <= j < cs.len() implies is_known(ss, #[trigger] cs[j]) by {
            assert(cs[j] == predicates@[j]@);
        }
    }
    if !needs_are_owned(schemas.as_slice(), needed) {
        return Ok(FlatBlock::NotFlat);
    }
    Ok(FlatBlock::Flat { leaves, schemas, classified })
}

proof fn lemma_link_conditions(schemas: Seq<Seq<Seq<char>>>, cs: Seq<Condition>)
    ensures
        conditions_of(cs.map_values(|c: Condition| link_of(schemas, c))) == cs,
{
    assert(conditions_of(cs.map_values(|c: Condition| link_of(schemas, c))) =~= cs);
}

/// The columns that a relation of a block has to give.
fn needed_of_leaf(
    schemas: &[RowSchema],
    predicates: &[Predicate],
    needed: Option<&NameSet>,
    leaf: usize,
    Ghost(block): Ghost<JoinBlock>,
) -> (r: Option<NameSet>)
    requires
        schemas_of(schemas@) == block.schemas,
        conditions_of(block.links) == conditions(predicates@),
        needs(needed) == block.needed,
    ensures
        match r {
            Some(n) => leaf_needs(block, leaf as int) == Some(n@),
            None => leaf_needs(block, leaf as int) is None,
        },
{
    let all = match add_predicate_columns(needed, predicates) {
        Some(a) => a,
        None => {
            return None;
        },
    };
    let ghost owned = |c: Seq<char>| owner_of(block.schemas, c) == Some(leaf as int);
    let list = all.as_slice();
    let ghost texts = crate::views::texts(list@);
    let mut mine = NameSet::new();
    let mut i: usize = 0;
    proof {
        assert(texts.take(0).to_set().filter(owned) =~= Set::<Seq<char>>::empty());
    }
    while i < list.len()
        invariant
            i <= list@.len(),
            texts == crate::views::texts(list@),
            texts.to_set() == all@,
            schemas_of(schemas@) == block.schemas,
            owned == (|c: Seq<char>| owner_of(block.schemas, c) == Some(leaf as int)),
            mine@ == texts.take(i as int).to_set().filter(owned),
        decreases list@.len() - i,
    {
        let ghost before = texts.take(i as int);
        let ghost x = texts[i as int];
        proof {
            assert(x == list@[i as int]@);
            let after = texts.take(i + 1);
            assert(after =~= before.push(x));
            assert forall|n: Seq<char>| after.contains(n) <==> before.contains(n) || n == x by {
                if before.contains(n) {
                    let j = choose|j: int| 0 <= j < before.len() && before[j] == n;
                    assert(after[j] == n);
                }
                if n == x {
                    assert(after[i as int] == n);
                }
            }
            if owned(x) {
                assert(after.to_set().filter(owned) =~= before.to_set().filter(owned).insert(x));
            } else {
                assert(after.to_set().filter(owned) =~= before.to_set().filter(owned));
            }
        }
        match find_owner(schemas, list[i].as_str()) {
            Some(o) => {
                if o == leaf {
                    mine.insert(list[i].as_str());
                }
            },
            None => {},
        }
        i += 1;
    }
    proof {
        assert(texts.take(texts.len() as int) =~= texts);
        let all_columns = block.needed->0.union(all_columns_of(conditions_of(block.links)));
        assert(all@ == all_columns);
        assert(mine@ =~= all_columns.filter(owned));
    }
    if mine.is_empty() {
        None
    } else {
        Some(mine)
    }
}

/// The trees of some plans.
pub open spec fn trees_of(plans: Seq<Plan>) -> Seq<PlanTree> {
    plans.map_values(|p: Plan| tree_of(p))
}

/// The predicates that are tested when a relation is joined.
fn predicates_between(classified: &[ClassifiedPredicate], order: &[usize], k: usize) -> (r: Vec<
    Predicate,
>)
    requires
        k < order@.len(),
    ensures
        conditions(r@) == conditions_of(
            links(classified@).filter(between(positions(order@).take(k as int), order@[k as int] as int)),
        ),
{
    let ghost ls = links(classified@);
    let ghost placed = positions(order@).take(k as int);
    let next: usize = order[k];
    let ghost keep = between(placed, next as int);
    let mut out: Vec<Predicate> = Vec::new();
    let mut i: usize = 0;
    proof {
        reveal(Seq::filter);
        assert(ls.take(0) =~= Seq::<Link>::empty());
        assert(conditions(out@) =~= conditions_of(ls.take(0).filter(keep)));
    }
    while i < classified.len()
        invariant
            i <= classified@.len(),
            k < order@.len(),
            ls == links(classified@),
            placed == positions(order@).take(k as int),
            next == order@[k as int],
            keep == between(placed, next as int),
            conditions(out@) == conditions_of(ls.take(i as int).filter(keep)),
        decreases classified@.len() - i,
    {
        let c = &classified[i];
        proof {
            assert(ls[i as int] == c@);
            reveal(Seq::filter);
            assert(ls.take(i + 1).drop_last() =~= ls.take(i as int));
            assert(ls.take(i + 1).last() == ls[i as int]);
        }
        if c.first != c.second && ((c.first == next && is_placed(order, k, c.second)) || (c.second
            == next && is_placed(order, k, c.first))) {
            proof {
                let before = ls.take(i as int).filter(keep);
                assert(conditions_of(before.push(c@)) =~= conditions_of(before).push(
                    c.predicate@,
                ));
            }
            out.push(c.predicate.clone());
        }
        i += 1;
    }
    assert(ls.take(ls.len() as int) =~= ls);
    out
}

/// Whether a relation is among the first `k` of an order.
fn is_placed(order: &[usize], k: usize, rel: usize) -> (r: bool)
    requires
        k <= order@.len(),
    ensures
        r == positions(order@).take(k as int).contains(rel as int),
{
    let ghost placed = positions(order@).take(k as int);
    let mut i: usize = 0;
    while i < k
        invariant
            i <= k <= order@.len(),
            placed == positions(order@).take(k as int),
            forall|j: int| 0 <= j < i ==> #[trigger] placed[j] != rel,
        decreases k - i,
    {
        assert(placed[i as int] == order@[i as int]);
        if order[i] == rel {
            assert(placed.contains(rel as int));
            return true;
        }
        i += 1;
    }
    false
}

/// Takes the plan of a relation out of a list.
fn take_plan(built: &mut Vec<Option<Plan>>, at: usize) -> (r: Option<Plan>)
    requires
        at < old(built)@.len(),
    ensures
        r == old(built)@[at as int],
        final(built)@ == old(built)@.update(at as int, None),
{
    let mut slot: Option<Plan> = None;
    built.set_and_swap(at, &mut slot);
    slot
}

/// Joins the relations of a block in the given order.
fn join_in_order(
    plans: Vec<Plan>,
    classified: &[ClassifiedPredicate],
    order: &[usize],
    Ghost(block): Ghost<JoinBlock>,
) -> (r: Result<Plan, DbError>)
    requires
        plans@.len() == order@.len(),
        plans@.len() == block.leaves.len(),
        plans@.len() > 1,
        links(classified@) == block.links,
        is_greedy_order(plans@.len() as int, block.links, positions(order@)),
    ensures
        is_outcome(
            r,
            left_deep(block, trees_of(plans@), positions(order@), plans@.len()),
        ),
{
    let ghost trees = trees_of(plans@);
    let ghost at = positions(order@);
    let ghost n = plans@.len();
    proof {
        crate::join_order::greedy_order_is_a_permutation(n as int, block.links, at);
    }
    let mut slots: Vec<Option<Plan>> = Vec::new();
    let ghost given = plans@;
    let mut built = plans;
    while built.len() > 0
        invariant
            built@.len() + slots@.len() == n,
            given.len() == n,
            built@ == given.take(built@.len() as int),
            forall|j: int|
                0 <= j < slots@.len() ==> (#[trigger] slots@[j]) == Some(given[n - 1 - j]),
        decreases built@.len(),
    {
        let ghost k = built@.len() - 1;
        if let Some(p) = built.pop() {
            assert(p == given[k]);
            slots.push(Some(p));
            assert(built@ =~= given.take(k));
        }
    }
    let last: usize = slots.len() - 1;
    assert(at[0] == order@[0]);
    let first: usize = order[0];
    let mut current = match take_plan(&mut slots, last - first) {
        Some(p) => p,
        None => {
            assert(false);
            return Err(DbError::ZeroBatch);
        },
    };
    let mut k: usize = 1;
    proof {
        assert(tree_of(current) == trees[at[0]]);
        assert forall|j: int| 1 <= j < n implies slots@[last - (#[trigger] at[j])] == Some(
            given[at[j]],
        ) by {
            assert(at[j] != at[0]);
        }
    }
    while k < order.len()
        invariant
            1 <= k <= order@.len(),
            n == order@.len(),
            n == block.leaves.len(),
            given.len() == n,
            slots@.len() == n,
            last == n - 1,
            at == positions(order@),
            at.no_duplicates(),
            forall|i: int| 0 <= i < n ==> 0 <= #[trigger] at[i] < n,
            given == plans@,
            trees == trees_of(given),
            links(classified@) == block.links,
            forall|j: int|
                k <= j < n ==> slots@[last - (#[trigger] at[j])] == Some(given[at[j]]),
            left_deep(block, trees, at, k as nat) == Ok::<PlanTree, PlanIssue>(tree_of(current)),
        decreases order@.len() - k,
    {
        assert(at[k as int] == order@[k as int]);
        let next: usize = order[k];
        let preds = predicates_between(classified, order, k);
        let ghost before = slots@;
        let right = match take_plan(&mut slots, last - next) {
            Some(p) => p,
            None => {
                assert(false);
                return Err(DbError::ZeroBatch);
            },
        };
        proof {
            assert(tree_of(right) == trees[at[k as int]]);
            assert(conditions(preds@) == join_conditions(block, at, k as int));
            assert(left_deep(block, trees, at, (k + 1) as nat) == joined(
                tree_of(current),
                tree_of(right),
                conditions(preds@),
            ));
        }
        current = match join_plan(current, right, preds) {
            Ok(p) => p,
            Err(e) => {
                proof {
                    lemma_left_deep_fails(block, trees, at, (k + 1) as nat, n);
                }
                return Err(e);
            },
        };
        proof {
            assert forall|j: int| k + 1 <= j < n implies slots@[last - (#[trigger] at[j])] == Some(
                given[at[j]],
            ) by {
                assert(at[j] != at[k as int]);
                assert(before[last - at[j]] == Some(given[at[j]]));
            }
        }
        k += 1;
    }
    Ok(current)
}

proof fn lemma_left_deep_fails(
    block: JoinBlock,
    built: Seq<PlanTree>,
    order: Seq<int>,
    k: nat,
    n: nat,
)
    requires
        1 < k <= n,
        left_deep(block, built, order, k) is Err,
    ensures
        left_deep(block, built, order, n) == left_deep(block, built, order, k),
    decreases n - k,
{
    if k < n {
        lemma_left_deep_fails(block, built, order, (k + 1) as nat, n);
    }
}

/// Builds the plans of a block's relations, each with the predicates that touch it alone.
fn build_leaves<'a>(
    tables: &[TableSpec],
    leaves: &Vec<&'a QueryOp>,
    schemas: &[RowSchema],
    predicates: &[Predicate],
    classified: &[ClassifiedPredicate],
    needed: Option<&NameSet>,
    Ghost(block): Ghost<JoinBlock>,
    Ghost(depth): Ghost<nat>,
) -> (r: Result<Vec<Plan>, DbError>)
    requires
        pointed_at(leaves@) == block.leaves,
        schemas_of(schemas@) == block.schemas,
        links(classified@) == block.links,
        conditions_of(block.links) == conditions(predicates@),
        needs(needed) == block.needed,
        forall|i: int| 0 <= i < block.leaves.len() ==> height(#[trigger] block.leaves[i]) <= depth,
    ensures
        match built_leaves(tables@, block, block.leaves.len(), depth) {
            Ok(trees) => r is Ok && trees_of((r->Ok_0)@) == trees,
            Err(issue) => r is Err && is_issue(r->Err_0, issue),
        },
        r matches Ok(v) ==> v@.len() == leaves@.len(),
    decreases depth, 1nat,
{
    let ghost ops = block.leaves;
    assert(leaves@.len() == ops.len());
    let mut local = group_local_predicates(classified, leaves.len());
    let mut built: Vec<Plan> = Vec::new();
    let mut i: usize = 0;
    assert(trees_of(built@) =~= Seq::<PlanTree>::empty());
    while i < leaves.len()
        invariant
            i <= leaves@.len(),
            ops == block.leaves,
            leaves@.len() == ops.len(),
            pointed_at(leaves@) == ops,
            schemas_of(schemas@) == block.schemas,
            links(classified@) == block.links,
            conditions_of(block.links) == conditions(predicates@),
            needs(needed) == block.needed,
            forall|i: int|
                0 <= i < block.leaves.len() ==> height(#[trigger] block.leaves[i]) <= depth,
            local@.len() == leaves@.len(),
            forall|j: int|
                i <= j < leaves@.len() ==> conditions((#[trigger] local@[j])@) == conditions_of(
                    links(classified@).filter(local_to(j)),
                ),
            built@.len() == i,
            built_leaves(tables@, block, i as nat, depth) == Ok::<Seq<PlanTree>, PlanIssue>(
                trees_of(built@),
            ),
        decreases leaves@.len() - i,
    {
        assert(ops[i as int] == *leaves@[i as int]);
        let own_needs = needed_of_leaf(schemas, predicates, needed, i, Ghost(block));
        let leaf_plan = match &own_needs {
            Some(n) => plan_tree(tables, leaves[i], Some(n), Ghost(depth)),
            None => plan_tree(tables, leaves[i], None, Ghost(depth)),
        };
        let p = match leaf_plan {
            Ok(p) => p,
            Err(e) => {
                proof {
                    lemma_leaves_fail(tables@, block, (i + 1) as nat, depth, ops.len());
                }
                return Err(e);
            },
        };
        let mut own: Vec<Predicate> = Vec::new();
        let ghost before = local@;
        local.set_and_swap(i, &mut own);
        proof {
            assert(own == before[i as int]);
            assert(conditions(own@).len() == own@.len());
            assert forall|j: int| i + 1 <= j < leaves@.len() implies conditions(
                (#[trigger] local@[j])@,
            ) == conditions_of(links(classified@).filter(local_to(j))) by {
                assert(local@[j] == before[j]);
            }
        }
        let p = if own.len() > 0 {
            match filter_plan(p, own) {
                Ok(f) => f,
                Err(e) => {
                    proof {
                        lemma_leaves_fail(tables@, block, (i + 1) as nat, depth, ops.len());
                    }
                    return Err(e);
                },
            }
        } else {
            p
        };
        proof {
            assert(trees_of(built@.push(p)) =~= trees_of(built@).push(tree_of(p)));
        }
        built.push(p);
        i += 1;
    }
    Ok(built)
}

proof fn lemma_leaves_fail(
    tables: Seq<TableSpec>,
    block: JoinBlock,
    k: nat,
    depth: nat,
    n: nat,
)
    requires
        k <= n,
        built_leaves(tables, block, k, depth) is Err,
    ensures
        built_leaves(tables, block, n, depth) == built_leaves(tables, block, k, depth),
    decreases n - k,
{
    if k < n {
        lemma_leaves_fail(tables, block, k, depth, (n - 1) as nat);
    }
}

/// Makes a filter over a tree of cross products a left-deep tree of joins, if it can be one:
/// predicates that touch one relation are tested on it, the others where both relations have been
/// joined.
fn try_build_flattened_spj_plan(
    tables: &[TableSpec],
    underlying: &QueryOp,
    predicates: &[Predicate],
    needed: Option<&NameSet>,
    Ghost(depth): Ghost<nat>,
) -> (r: Result<Option<Plan>, DbError>)
    requires
        height(*underlying) <= depth,
    ensures
        match flattened(tables@, *underlying, conditions(predicates@), needs(needed)) {
            Flattened::Failed(issue) => r is Err && is_issue(r->Err_0, issue),
            Flattened::NotFlat => r == Ok::<Option<Plan>, DbError>(None),
            Flattened::Flat(block) => {
                let expected = match built_leaves(tables@, block, block.leaves.len(), depth) {
                    Err(e) => Err(e),
                    Ok(built) => left_deep(
                        block,
                        built,
                        block_order(block),
                        block.leaves.len(),
                    ),
                };
                match expected {
                    Ok(tree) => r is Ok && r->Ok_0 is Some && tree_of(r->Ok_0->0) == tree,
                    Err(issue) => r is Err && is_issue(r->Err_0, issue),
                }
            },
        },
    decreases depth, 2nat,
{
    let ghost cs = conditions(predicates@);
    let ghost expected = flattened(tables@, *underlying, cs, needs(needed));
    match flatten_block(tables, underlying, predicates, needed) {
        Err(e) => Err(e),
        Ok(FlatBlock::NotFlat) => Ok(None),
        Ok(FlatBlock::Flat { leaves, schemas, classified }) => {
            let ghost block = expected->Flat_0;
            proof {
                lemma_leaf_heights(*underlying);
                lemma_link_conditions(block.schemas, cs);
            }
            let built = match build_leaves(
                tables,
                &leaves,
                schemas.as_slice(),
                predicates,
                classified.as_slice(),
                needed,
                Ghost(block),
                Ghost(depth),
            ) {
                Ok(v) => v,
                Err(e) => {
                    return Err(e);
                },
            };
            let order = choose_greedy_connected_order(leaves.len(), classified.as_slice());
            proof {
                let n = leaves@.len() as int;
                let at = positions(order@);
                assert(at.len() == order@.len());
                assert(is_greedy_order(n, block.links, at));
                assert(is_greedy_order(n, block.links, block_order(block)));
                crate::join_order::greedy_order_is_unique(n, block.links, at, block_order(block));
            }
            match join_in_order(built, classified.as_slice(), order.as_slice(), Ghost(block)) {
                Ok(p) => Ok(Some(p)),
                Err(e) => Err(e),
            }
        },
    }
}

/// Builds the plan of a query that is at most `depth` deep.
fn plan_tree(
    tables: &[TableSpec],
    op: &QueryOp,
    needed: Option<&NameSet>,
    Ghost(depth): Ghost<nat>,
) -> (r: Result<Plan, DbError>)
    requires
        height(*op) <= depth,
    ensures
        is_outcome(r, plan_within(tables@, *op, needs(needed), depth)),
    decreases depth, 0nat,
{
    let ghost below = (depth - 1) as nat;
    match op {
        QueryOp::Scan(d) => {
            let spec = match get_table_spec(tables, d.table_id.as_str()) {
                Ok(s) => s,
                Err(e) => {
                    return Err(e);
                },
            };
            let schema = schema_from_table_spec(spec);
            Ok(scan_plan(d.table_id.as_str(), schema, needed))
        },
        QueryOp::Filter(d) => {
            let child = add_predicate_columns(needed, d.predicates.as_slice());
            let child_ref = match &child {
                Some(n) => Some(n),
                None => None,
            };
            match try_build_flattened_spj_plan(
                tables,
                &d.underlying,
                d.predicates.as_slice(),
                child_ref,
                Ghost(below),
            ) {
                Err(e) => {
                    return Err(e);
                },
                Ok(Some(p)) => {
                    return Ok(p);
                },
                Ok(None) => {},
            }
            match plan_tree(tables, &d.underlying, child_ref, Ghost(below)) {
                Ok(p) => filter_plan(p, clone_predicates(d.predicates.as_slice())),
                Err(e) => Err(e),
            }
        },
        QueryOp::Cross(d) => {
            let left = match plan_tree(tables, &d.left, needed, Ghost(below)) {
                Ok(p) => p,
                Err(e) => {
                    return Err(e);
                },
            };
            let right = match plan_tree(tables, &d.right, needed, Ghost(below)) {
                Ok(p) => p,
                Err(e) => {
                    return Err(e);
                },
            };
            let none: Vec<Predicate> = Vec::new();
            assert(conditions(none@) =~= Seq::<Condition>::empty());
            join_plan(left, right, none)
        },
        QueryOp::Project(d) => {
            let child = source_set(d.column_name_map.as_slice());
            match plan_tree(tables, &d.underlying, Some(&child), Ghost(below)) {
                Ok(p) => project_plan(p, d.column_name_map.as_slice()),
                Err(e) => Err(e),
            }
        },
        QueryOp::Sort(d) => {
            let child = add_sort_columns(needed, d.sort_specs.as_slice());
            let child_ref = match &child {
                Some(n) => Some(n),
                None => None,
            };
            match plan_tree(tables, &d.underlying, child_ref, Ghost(below)) {
                Ok(p) => order_plan(p, d.sort_specs.as_slice()),
                Err(e) => Err(e),
            }
        },
    }
}

/// The source columns of a column map.
fn source_set(map: &[(String, String)]) -> (r: NameSet)
    ensures
        r@ == sources(map@).to_set(),
{
    let ghost all = sources(map@);
    let mut out = NameSet::new();
    let mut i: usize = 0;
    assert(all.take(0).to_set() =~= Set::<Seq<char>>::empty());
    while i < map.len()
        invariant
            i <= map@.len(),
            all == sources(map@),
            out@ == all.take(i as int).to_set(),
        decreases map@.len() - i,
    {
        out.insert(map[i].0.as_str());
        i += 1;
        proof {
            let before = all.take(i - 1);
            let after = all.take(i as int);
            assert(after =~= before.push(all[i - 1]));
            assert forall|n: Seq<char>| after.contains(n) <==> before.contains(n) || n == all[i
                - 1] by {
                if before.contains(n) {
                    let j = choose|j: int| 0 <= j < before.len() && before[j] == n;
                    assert(after[j] == n);
                }
                if n == all[i - 1] {
                    assert(after[i - 1] == n);
                }
            }
            assert(out@ =~= after.to_set());
        }
    }
    assert(all.take(all.len() as int) =~= all);
    out
}

/// A projection of a plan.
fn project_plan(input: Plan, map: &[(String, String)]) -> (r: Result<Plan, DbError>)
    ensures
        is_outcome(r, projected(tree_of(input), sources(map@), aliases(map@))),
{
    let schema = input.schema();
    match crate::project::ProjectOperator::new(&schema, map) {
        Ok(_) => {},
        Err(e) => {
            return Err(e);
        },
    }
    let mut copy: Vec<(String, String)> = Vec::new();
    let mut i: usize = 0;
    while i < map.len()
        invariant
            i <= map@.len(),
            sources(copy@) == sources(map@).take(i as int),
            aliases(copy@) == aliases(map@).take(i as int),
        decreases map@.len() - i,
    {
        let ghost before = copy@;
        copy.push((map[i].0.clone(), map[i].1.clone()));
        i += 1;
        proof {
            assert(sources(copy@) =~= sources(before).push(map@[i - 1].0@));
            assert(aliases(copy@) =~= aliases(before).push(map@[i - 1].1@));
            assert(sources(copy@) =~= sources(map@).take(i as int));
            assert(aliases(copy@) =~= aliases(map@).take(i as int));
        }
    }
    assert(sources(map@).take(i as int) =~= sources(map@));
    assert(aliases(map@).take(i as int) =~= aliases(map@));
    Ok(Plan::Project(Box::new(input), copy))
}

/// A sort of a plan.
fn order_plan(input: Plan, specs: &[SortSpec]) -> (r: Result<Plan, DbError>)
    ensures
        is_outcome(r, ordered(tree_of(input), sort_pairs(specs@))),
{
    let schema = input.schema();
    proof {
        assert(pair_names(sort_pairs(specs@)) =~= crate::sort::spec_names(specs@));
    }
    match crate::sort::resolve_sort_specs(&schema, specs) {
        Ok(_) => {},
        Err(e) => {
            return Err(e);
        },
    }
    let mut copy: Vec<SortSpec> = Vec::new();
    let mut i: usize = 0;
    while i < specs.len()
        invariant
            i <= specs@.len(),
            sort_pairs(copy@) == sort_pairs(specs@).take(i as int),
        decreases specs@.len() - i,
    {
        let ghost before = copy@;
        copy.push(
            SortSpec { column_name: specs[i].column_name.clone(), ascending: specs[i].ascending },
        );
        i += 1;
        proof {
            assert(sort_pairs(copy@) =~= sort_pairs(before).push(
                (specs@[i - 1].column_name@, specs@[i - 1].ascending),
            ));
            assert(sort_pairs(copy@) =~= sort_pairs(specs@).take(i as int));
        }
    }
    assert(sort_pairs(specs@).take(i as int) =~= sort_pairs(specs@));
    Ok(Plan::Sort(Box::new(input), copy))
}

/// Builds the plan of a query, where the columns `needed` are read above it; `None` stands for
/// all columns.
pub fn execute_op_tree(tables: &[TableSpec], op: &QueryOp, needed: Option<&NameSet>) -> (r: Result<
    Plan,
    DbError,
>)
    ensures
        is_outcome(r, plan_of(tables@, *op, needs(needed))),
{
    plan_tree(tables, op, needed, Ghost(height(*op)))
}

} // verus!

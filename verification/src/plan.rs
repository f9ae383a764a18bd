//! Physical plans.

use vstd::prelude::*;
use crate::filter::first_missing_column;
use crate::join_plan::residual;
use crate::project::{aliases, sources};
use crate::query::{Condition, Predicate, SortSpec, conditions};
use crate::row::{RowSchema, all_present, first_missing};
use crate::views::positions;

verus! {

broadcast use crate::views::lemma_texts_push;

/// How a table is read: its columns, and which of the stored ones they are where not all are
/// read.
#[derive(Debug)]
pub struct ScanPlan {
    pub table_id: String,
    pub schema: RowSchema,
    pub kept: Option<Vec<usize>>,
    pub total_columns: usize,
}

/// A physical plan: which operators, over which inputs.
#[derive(Debug)]
pub enum Plan {
    Scan(ScanPlan),
    Filter(Box<Plan>, Vec<Predicate>),
    Join(Box<Plan>, Box<Plan>, Vec<Predicate>),
    Project(Box<Plan>, Vec<(String, String)>),
    Sort(Box<Plan>, Vec<SortSpec>),
}

/// The mathematical content of a `Plan`.
pub enum PlanTree {
    Scan { table: Seq<char>, columns: Seq<Seq<char>>, kept: Option<Seq<int>>, total: int },
    Filter(Box<PlanTree>, Seq<Condition>),
    Join(Box<PlanTree>, Box<PlanTree>, Seq<Condition>),
    Project(Box<PlanTree>, Seq<Seq<char>>, Seq<Seq<char>>),
    Sort(Box<PlanTree>, Seq<(Seq<char>, bool)>),
}

/// The columns and directions of sort keys.
pub open spec fn sort_pairs(specs: Seq<SortSpec>) -> Seq<(Seq<char>, bool)> {
    specs.map_values(|s: SortSpec| (s.column_name@, s.ascending))
}

/// The content of a plan.
pub open spec fn tree_of(plan: Plan) -> PlanTree
    decreases plan,
{
    match plan {
        Plan::Scan(s) => PlanTree::Scan {
            table: s.table_id@,
            columns: s.schema@,
            kept: match s.kept {
                Some(v) => Some(positions(v@)),
                None => None,
            },
            total: s.total_columns as int,
        },
        Plan::Filter(input, preds) => PlanTree::Filter(
            Box::new(tree_of(*input)),
            conditions(preds@),
        ),
        Plan::Join(l, r, preds) => PlanTree::Join(
            Box::new(tree_of(*l)),
            Box::new(tree_of(*r)),
            conditions(preds@),
        ),
        Plan::Project(input, map) => PlanTree::Project(
            Box::new(tree_of(*input)),
            sources(map@),
            aliases(map@),
        ),
        Plan::Sort(input, specs) => PlanTree::Sort(Box::new(tree_of(*input)), sort_pairs(specs@)),
    }
}

/// The columns that a plan gives out.
pub open spec fn plan_columns(tree: PlanTree) -> Seq<Seq<char>>
    decreases tree,
{
    match tree {
        PlanTree::Scan { columns, .. } => columns,
        PlanTree::Filter(input, _) => plan_columns(*input),
        PlanTree::Join(l, r, _) => plan_columns(*l) + plan_columns(*r),
        PlanTree::Project(_, _, names) => names,
        PlanTree::Sort(input, _) => plan_columns(*input),
    }
}

/// Why a query has no plan.
pub enum PlanIssue {
    NoTable(Seq<char>),
    NoColumn(Seq<char>),
}

/// A filter over a plan, if its columns are there.
pub open spec fn filtered(input: PlanTree, cs: Seq<Condition>) -> Result<PlanTree, PlanIssue> {
    match first_missing_column(plan_columns(input), cs) {
        Some(c) => Err(PlanIssue::NoColumn(c)),
        None => Ok(PlanTree::Filter(Box::new(input), cs)),
    }
}

/// A join of two plans, if the columns of the conditions that are no keys are there.
pub open spec fn joined(l: PlanTree, r: PlanTree, cs: Seq<Condition>) -> Result<
    PlanTree,
    PlanIssue,
> {
    let ls = plan_columns(l);
    let rs = plan_columns(r);
    match first_missing_column(ls + rs, residual(ls, rs, cs)) {
        Some(c) => Err(PlanIssue::NoColumn(c)),
        None => Ok(PlanTree::Join(Box::new(l), Box::new(r), cs)),
    }
}

/// A projection of a plan, if its columns are there.
pub open spec fn projected(input: PlanTree, from: Seq<Seq<char>>, to: Seq<Seq<char>>) -> Result<
    PlanTree,
    PlanIssue,
> {
    if all_present(plan_columns(input), from) {
        Ok(PlanTree::Project(Box::new(input), from, to))
    } else {
        Err(PlanIssue::NoColumn(first_missing(plan_columns(input), from)))
    }
}

/// The names of sort keys.
pub open spec fn pair_names(keys: Seq<(Seq<char>, bool)>) -> Seq<Seq<char>> {
    keys.map_values(|k: (Seq<char>, bool)| k.0)
}

/// A sort of a plan, if its columns are there.
pub open spec fn ordered(input: PlanTree, keys: Seq<(Seq<char>, bool)>) -> Result<
    PlanTree,
    PlanIssue,
> {
    if all_present(plan_columns(input), pair_names(keys)) {
        Ok(PlanTree::Sort(Box::new(input), keys))
    } else {
        Err(PlanIssue::NoColumn(first_missing(plan_columns(input), pair_names(keys))))
    }
}

impl Plan {
    /// The schema of what the plan gives out.
    pub fn schema(&self) -> (r: RowSchema)
        ensures
            r@ == plan_columns(tree_of(*self)),
        decreases self,
    {
        match self {
            Plan::Scan(s) => s.schema.clone(),
            Plan::Filter(input, _) => input.schema(),
            Plan::Join(l, r, _) => {
                let ls = l.schema();
                let rs = r.schema();
                RowSchema::merge(&ls, &rs)
            },
            Plan::Project(_, map) => alias_schema(map.as_slice()),
            Plan::Sort(input, _) => input.schema(),
        }
    }
}

/// The schema of the names that a column map gives.
pub fn alias_schema(map: &[(String, String)]) -> (r: RowSchema)
    ensures
        r@ == aliases(map@),
{
    let mut names: Vec<String> = Vec::new();
    let mut i: usize = 0;
    while i < map.len()
        invariant
            i <= map@.len(),
            crate::views::texts(names@) == aliases(map@).take(i as int),
        decreases map@.len() - i,
    {
        names.push(map[i].1.clone());
        i += 1;
        assert(crate::views::texts(names@) =~= aliases(map@).take(i as int));
    }
    assert(aliases(map@).take(i as int) =~= aliases(map@));
    RowSchema::new(names)
}

} // verus!

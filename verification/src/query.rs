//! Logical query trees.

use vstd::prelude::*;
use crate::value::Value;

verus! {

/// How a predicate compares its two sides.
#[derive(Clone, Copy, Debug, PartialEq, Eq, Structural)]
pub enum ComparisionOperator {
    EQ,
    NE,
    GT,
    GTE,
    LT,
    LTE,
}

/// The right side of a predicate: another column, or a literal. Floating-point literals are
/// bit patterns.
#[derive(Debug)]
pub enum ComparisionValue {
    Column(String),
    I32(i32),
    I64(i64),
    F32(u32),
    F64(u64),
    String(String),
}

/// The mathematical content of a `ComparisionValue`.
#[verifier::ext_equal]
pub enum Operand {
    Column(Seq<char>),
    Literal(Value),
}

impl View for ComparisionValue {
    type V = Operand;

    open spec fn view(&self) -> Operand {
        match self {
            ComparisionValue::Column(c) => Operand::Column(c@),
            ComparisionValue::I32(v) => Operand::Literal(Value::Int32(*v)),
            ComparisionValue::I64(v) => Operand::Literal(Value::Int64(*v)),
            ComparisionValue::F32(v) => Operand::Literal(Value::Float32(*v)),
            ComparisionValue::F64(v) => Operand::Literal(Value::Float64(*v)),
            ComparisionValue::String(s) => Operand::Literal(Value::Str(s@)),
        }
    }
}

impl Clone for ComparisionValue {
    fn clone(&self) -> (r: ComparisionValue)
        ensures
            r@ == self@,
    {
        match self {
            ComparisionValue::Column(c) => ComparisionValue::Column(c.clone()),
            ComparisionValue::I32(v) => ComparisionValue::I32(*v),
            ComparisionValue::I64(v) => ComparisionValue::I64(*v),
            ComparisionValue::F32(v) => ComparisionValue::F32(*v),
            ComparisionValue::F64(v) => ComparisionValue::F64(*v),
            ComparisionValue::String(s) => ComparisionValue::String(s.clone()),
        }
    }
}

/// A condition on a row: a column compared with a column or a literal.
#[derive(Debug)]
pub struct Predicate {
    pub column_name: String,
    pub operator: ComparisionOperator,
    pub value: ComparisionValue,
}

/// The mathematical content of a `Predicate`.
#[verifier::ext_equal]
pub struct Condition {
    pub column: Seq<char>,
    pub operator: ComparisionOperator,
    pub operand: Operand,
}

impl View for Predicate {
    type V = Condition;

    open spec fn view(&self) -> Condition {
        Condition { column: self.column_name@, operator: self.operator, operand: self.value@ }
    }
}

impl Clone for Predicate {
    fn clone(&self) -> (r: Predicate)
        ensures
            r@ == self@,
    {
        Predicate {
            column_name: self.column_name.clone(),
            operator: self.operator,
            value: self.value.clone(),
        }
    }
}

/// The contents of a list of predicates.
pub open spec fn conditions(predicates: Seq<Predicate>) -> Seq<Condition> {
    predicates.map_values(|p: Predicate| p@)
}

pub broadcast proof fn lemma_conditions_push(predicates: Seq<Predicate>, p: Predicate)
    ensures
        #[trigger] conditions(predicates.push(p)) == conditions(predicates).push(p@),
{
    assert(conditions(predicates.push(p)) =~= conditions(predicates).push(p@));
}

/// A column to sort by, and the direction.
#[derive(Debug)]
pub struct SortSpec {
    pub column_name: String,
    pub ascending: bool,
}

#[derive(Debug)]
pub struct ScanData {
    pub table_id: String,
}

#[derive(Debug)]
pub struct FilterData {
    pub predicates: Vec<Predicate>,
    pub underlying: Box<QueryOp>,
}

/// Which columns to keep, as pairs of a source column and the name that it gets.
#[derive(Debug)]
pub struct ProjectData {
    pub column_name_map: Vec<(String, String)>,
    pub underlying: Box<QueryOp>,
}

#[derive(Debug)]
pub struct CrossData {
    pub left: Box<QueryOp>,
    pub right: Box<QueryOp>,
}

#[derive(Debug)]
pub struct SortData {
    pub sort_specs: Vec<SortSpec>,
    pub underlying: Box<QueryOp>,
}

/// A node of a query tree.
#[derive(Debug)]
pub enum QueryOp {
    Scan(ScanData),
    Filter(FilterData),
    Project(ProjectData),
    Cross(CrossData),
    Sort(SortData),
}

/// A query.
#[derive(Debug)]
pub struct Query {
    pub root: QueryOp,
}

impl QueryOp {
    /// Reads a table.
    pub fn scan(table_id: &str) -> (r: QueryOp)
        ensures
            r matches QueryOp::Scan(d) && d.table_id@ == table_id@,
    {
        QueryOp::Scan(ScanData { table_id: table_id.to_owned() })
    }

    /// Combines every row of this relation with every row of another.
    pub fn cross(self, right: QueryOp) -> (r: QueryOp)
        ensures
            r matches QueryOp::Cross(d) && *d.left == self && *d.right == right,
    {
        QueryOp::Cross(CrossData { left: Box::new(self), right: Box::new(right) })
    }

    /// Keeps the rows that satisfy a predicate.
    pub fn filter(
        self,
        column_name: &str,
        operator: ComparisionOperator,
        value: ComparisionValue,
    ) -> (r: QueryOp)
        ensures
            r matches QueryOp::Filter(d) && *d.underlying == self && conditions(d.predicates@)
                == seq![(Condition { column: column_name@, operator, operand: value@ })],
    {
        broadcast use lemma_conditions_push;

        let mut predicates: Vec<Predicate> = Vec::new();
        predicates.push(Predicate { column_name: column_name.to_owned(), operator, value });
        assert(conditions(predicates@) =~= seq![
            (Condition { column: column_name@, operator, operand: value@ }),
        ]);
        QueryOp::Filter(FilterData { predicates, underlying: Box::new(self) })
    }

    /// Sorts by one column.
    pub fn sort(self, column_name: &str, ascending: bool) -> (r: QueryOp)
        ensures
            r matches QueryOp::Sort(d) && *d.underlying == self && d.sort_specs@.len() == 1
                && d.sort_specs@[0].column_name@ == column_name@ && d.sort_specs@[0].ascending
                == ascending,
    {
        let mut sort_specs: Vec<SortSpec> = Vec::new();
        sort_specs.push(SortSpec { column_name: column_name.to_owned(), ascending });
        QueryOp::Sort(SortData { sort_specs, underlying: Box::new(self) })
    }

    /// Makes the tree a query.
    pub fn build(self) -> (r: Query)
        ensures
            r.root == self,
    {
        Query { root: self }
    }
}

} // verus!

//! Predicates with their columns resolved, and the filter operator.

use vstd::prelude::*;
use crate::error::DbError;
use crate::floats::Comparison;
use crate::query::{ComparisionOperator, ComparisionValue, Condition, Operand, Predicate, conditions};
use crate::row::{Row, RowSchema, column_position};
use crate::value::{Data, Value, order_of, values_equal};
use crate::views::values_of;

verus! {

/// A predicate whose columns are positions in a schema.
#[derive(Debug)]
pub struct ResolvedPredicate {
    left_idx: usize,
    operator: ComparisionOperator,
    right: ResolvedRhs,
}

#[derive(Debug)]
enum ResolvedRhs {
    Index(usize),
    Literal(Data),
}

/// The right side of a resolved predicate.
#[verifier::ext_equal]
pub enum Source {
    Index(int),
    Literal(Value),
}

/// The mathematical content of a `ResolvedPredicate`.
#[verifier::ext_equal]
pub struct Test {
    pub left: int,
    pub operator: ComparisionOperator,
    pub right: Source,
}

impl View for ResolvedPredicate {
    type V = Test;

    closed spec fn view(&self) -> Test {
        Test {
            left: self.left_idx as int,
            operator: self.operator,
            right: match self.right {
                ResolvedRhs::Index(i) => Source::Index(i as int),
                ResolvedRhs::Literal(d) => Source::Literal(d@),
            },
        }
    }
}

/// The contents of a list of resolved predicates.
pub open spec fn tests(preds: Seq<ResolvedPredicate>) -> Seq<Test> {
    preds.map_values(|p: ResolvedPredicate| p@)
}

/// The column of a condition that a schema lacks, the left one first.
pub open spec fn missing_column(schema: Seq<Seq<char>>, c: Condition) -> Option<Seq<char>> {
    if !schema.contains(c.column) {
        Some(c.column)
    } else {
        match c.operand {
            Operand::Column(other) => if schema.contains(other) {
                None
            } else {
                Some(other)
            },
            Operand::Literal(_) => None,
        }
    }
}

/// The first column that is missing for any of the conditions.
pub open spec fn first_missing_column(schema: Seq<Seq<char>>, cs: Seq<Condition>) -> Option<
    Seq<char>,
>
    decreases cs.len(),
{
    if cs.len() == 0 {
        None
    } else {
        match missing_column(schema, cs[0]) {
            Some(c) => Some(c),
            None => first_missing_column(schema, cs.drop_first()),
        }
    }
}

/// A condition with its columns looked up.
pub open spec fn resolved(schema: Seq<Seq<char>>, c: Condition) -> Test {
    Test {
        left: column_position(schema, c.column),
        operator: c.operator,
        right: match c.operand {
            Operand::Column(other) => Source::Index(column_position(schema, other)),
            Operand::Literal(v) => Source::Literal(v),
        },
    }
}

/// Whether a test reads only the first `len` positions.
pub open spec fn reads_within(t: Test, len: int) -> bool {
    &&& 0 <= t.left < len
    &&& t.right matches Source::Index(i) ==> 0 <= i < len
}

pub open spec fn all_read_within(ts: Seq<Test>, len: int) -> bool {
    forall|i: int| 0 <= i < ts.len() ==> reads_within(#[trigger] ts[i], len)
}

fn resolve_one(schema: &RowSchema, p: &Predicate) -> (r: Result<ResolvedPredicate, DbError>)
    ensures
        r is Ok <==> missing_column(schema@, p@) is None,
        r matches Ok(t) ==> t@ == resolved(schema@, p@) && reads_within(
            t@,
            schema@.len() as int,
        ),
        r matches Err(e) ==> e matches DbError::ColumnNotFound(c) && Some(c@) == missing_column(
            schema@,
            p@,
        ),
{
    let left_idx: usize = match schema.require_index(p.column_name.as_str()) {
        Ok(i) => i,
        Err(e) => {
            return Err(e);
        },
    };
    let right = match &p.value {
        ComparisionValue::Column(c) => match schema.require_index(c.as_str()) {
            Ok(i) => ResolvedRhs::Index(i),
            Err(e) => {
                return Err(e);
            },
        },
        ComparisionValue::I32(v) => ResolvedRhs::Literal(Data::Int32(*v)),
        ComparisionValue::I64(v) => ResolvedRhs::Literal(Data::Int64(*v)),
        ComparisionValue::F32(v) => ResolvedRhs::Literal(Data::Float32(*v)),
        ComparisionValue::F64(v) => ResolvedRhs::Literal(Data::Float64(*v)),
        ComparisionValue::String(v) => ResolvedRhs::Literal(Data::String(v.clone())),
    };
    Ok(ResolvedPredicate { left_idx, operator: p.operator, right })
}

/// Looks up the columns of all predicates. An error names the first column that is missing.
pub fn resolve_predicates(schema: &RowSchema, predicates: &[Predicate]) -> (r: Result<
    Vec<ResolvedPredicate>,
    DbError,
>)
    ensures
        r is Ok <==> first_missing_column(schema@, conditions(predicates@)) is None,
        r matches Ok(v) ==> tests(v@) == conditions(predicates@).map_values(
            |c: Condition| resolved(schema@, c),
        ) && all_read_within(tests(v@), schema@.len() as int),
        r matches Err(e) ==> e matches DbError::ColumnNotFound(c) && Some(c@)
            == first_missing_column(schema@, conditions(predicates@)),
{
    let ghost cs = conditions(predicates@);
    let ghost f = |c: Condition| resolved(schema@, c);
    let mut out: Vec<ResolvedPredicate> = Vec::new();
    let mut i: usize = 0;
    assert(cs.skip(0) =~= cs);
    while i < predicates.len()
        invariant
            i <= predicates@.len(),
            cs == conditions(predicates@),
            f == (|c: Condition| resolved(schema@, c)),
            tests(out@) == cs.take(i as int).map_values(f),
            all_read_within(tests(out@), schema@.len() as int),
            first_missing_column(schema@, cs) == first_missing_column(
                schema@,
                cs.skip(i as int),
            ),
        decreases predicates@.len() - i,
    {
        assert(cs.skip(i as int)[0] == predicates@[i as int]@);
        match resolve_one(schema, &predicates[i]) {
            Ok(p) => {
                let ghost before = tests(out@);
                out.push(p);
                assert(tests(out@) =~= before.push(p@));
            },
            Err(e) => {
                return Err(e);
            },
        }
        assert(cs.skip(i as int).drop_first() =~= cs.skip(i + 1));
        i = i + 1;
        assert(tests(out@) =~= cs.take(i as int).map_values(f));
    }
    assert(cs.take(i as int) =~= cs);
    Ok(out)
}

/// Whether a comparison comes out true; `None` where the two values must be ordered and cannot
/// be. Equality and inequality always have an answer.
pub open spec fn holds(operator: ComparisionOperator, l: Value, r: Value) -> Option<bool> {
    match operator {
        ComparisionOperator::EQ => Some(values_equal(l, r)),
        ComparisionOperator::NE => Some(!values_equal(l, r)),
        ComparisionOperator::LT => match order_of(l, r) {
            Some(c) => Some(c == Comparison::Less),
            None => None,
        },
        ComparisionOperator::LTE => match order_of(l, r) {
            Some(c) => Some(c != Comparison::Greater),
            None => None,
        },
        ComparisionOperator::GT => match order_of(l, r) {
            Some(c) => Some(c == Comparison::Greater),
            None => None,
        },
        ComparisionOperator::GTE => match order_of(l, r) {
            Some(c) => Some(c != Comparison::Less),
            None => None,
        },
    }
}

/// Whether a test comes out true on the values that `at` gives for the positions.
pub open spec fn passes(t: Test, at: spec_fn(int) -> Value) -> Option<bool> {
    holds(
        t.operator,
        at(t.left),
        match t.right {
            Source::Index(i) => at(i),
            Source::Literal(v) => v,
        },
    )
}

/// Whether all tests come out true, tried in order until one does not; `None` where one that is
/// tried has no answer.
pub open spec fn passes_all(ts: Seq<Test>, at: spec_fn(int) -> Value) -> Option<bool>
    decreases ts.len(),
{
    if ts.len() == 0 {
        Some(true)
    } else {
        match passes(ts[0], at) {
            Some(true) => passes_all(ts.drop_first(), at),
            other => other,
        }
    }
}

/// Reads positions from a row.
pub open spec fn reading(row: Seq<Value>) -> spec_fn(int) -> Value {
    |i: int| row[i]
}

/// Reads positions from two rows laid end to end, the first taking `left_len` positions.
pub open spec fn reading_two(left: Seq<Value>, right: Seq<Value>, left_len: int) -> spec_fn(
    int,
) -> Value {
    |i: int|
        if i < left_len {
            left[i]
        } else {
            right[i - left_len]
        }
}

/// Whether a row passes all tests.
pub open spec fn row_passes(ts: Seq<Test>, row: Seq<Value>) -> Option<bool> {
    passes_all(ts, reading(row))
}

fn evaluate(operator: ComparisionOperator, lv: &Data, rv: &Data) -> (r: Result<bool, DbError>)
    ensures
        match holds(operator, lv@, rv@) {
            Some(b) => r == Ok::<bool, DbError>(b),
            None => r == Err::<bool, DbError>(DbError::IncomparableValues),
        },
{
    match operator {
        ComparisionOperator::EQ => {
            return Ok(lv.equals(rv));
        },
        ComparisionOperator::NE => {
            return Ok(!lv.equals(rv));
        },
        _ => {},
    }
    let ord = match lv.compare(rv) {
        Some(c) => c,
        None => {
            return Err(DbError::IncomparableValues);
        },
    };
    let ok = match operator {
        ComparisionOperator::LT => ord == Comparison::Less,
        ComparisionOperator::LTE => ord != Comparison::Greater,
        ComparisionOperator::GT => ord == Comparison::Greater,
        _ => ord != Comparison::Less,
    };
    Ok(ok)
}

/// Tries the tests on a row.
pub fn eval_resolved(row: &Row, preds: &[ResolvedPredicate]) -> (r: Result<bool, DbError>)
    requires
        all_read_within(tests(preds@), row@.len() as int),
    ensures
        match row_passes(tests(preds@), row@) {
            Some(b) => r == Ok::<bool, DbError>(b),
            None => r == Err::<bool, DbError>(DbError::IncomparableValues),
        },
{
    let values = row.values();
    let ghost ts = tests(preds@);
    let ghost at = reading(row@);
    let mut i: usize = 0;
    assert(ts.skip(0) =~= ts);
    while i < preds.len()
        invariant
            i <= preds@.len(),
            ts == tests(preds@),
            at == reading(row@),
            values_of(values@) == row@,
            all_read_within(ts, row@.len() as int),
            row_passes(ts, row@) == passes_all(ts.skip(i as int), at),
        decreases preds@.len() - i,
    {
        let pred = &preds[i];
        let ghost t = ts.skip(i as int)[0];
        assert(t == ts[i as int]);
        assert(t == pred@);
        assert(reads_within(t, row@.len() as int));
        assert(values_of(values@).len() == values@.len());
        let lv = &values[pred.left_idx];
        let rv = match &pred.right {
            ResolvedRhs::Index(idx) => &values[*idx],
            ResolvedRhs::Literal(d) => d,
        };
        assert(passes(t, at) == holds(pred.operator, lv@, rv@));
        assert(ts.skip(i as int).drop_first() =~= ts.skip(i + 1));
        match evaluate(pred.operator, lv, rv) {
            Ok(true) => {},
            Ok(false) => {
                return Ok(false);
            },
            Err(e) => {
                return Err(e);
            },
        }
        i = i + 1;
    }
    Ok(true)
}

/// Tries the tests on two rows laid end to end, without building the merged row.
pub fn eval_resolved_two_parts(
    left: &Row,
    right: &Row,
    left_len: usize,
    preds: &[ResolvedPredicate],
) -> (r: Result<bool, DbError>)
    requires
        left_len <= left@.len(),
        all_read_within(tests(preds@), left_len + right@.len()),
    ensures
        match passes_all(tests(preds@), reading_two(left@, right@, left_len as int)) {
            Some(b) => r == Ok::<bool, DbError>(b),
            None => r == Err::<bool, DbError>(DbError::IncomparableValues),
        },
{
    let left_vals = left.values();
    let right_vals = right.values();
    let ghost ts = tests(preds@);
    let ghost at = reading_two(left@, right@, left_len as int);
    let mut i: usize = 0;
    assert(ts.skip(0) =~= ts);
    while i < preds.len()
        invariant
            i <= preds@.len(),
            ts == tests(preds@),
            at == reading_two(left@, right@, left_len as int),
            values_of(left_vals@) == left@,
            values_of(right_vals@) == right@,
            left_len <= left@.len(),
            all_read_within(ts, left_len + right@.len()),
            passes_all(ts, at) == passes_all(ts.skip(i as int), at),
        decreases preds@.len() - i,
    {
        let pred = &preds[i];
        let ghost t = ts.skip(i as int)[0];
        assert(t == ts[i as int]);
        assert(t == pred@);
        assert(reads_within(t, left_len + right@.len()));
        assert(values_of(left_vals@).len() == left_vals@.len());
        assert(values_of(right_vals@).len() == right_vals@.len());
        let lv = if pred.left_idx < left_len {
            &left_vals[pred.left_idx]
        } else {
            &right_vals[pred.left_idx - left_len]
        };
        let rv = match &pred.right {
            ResolvedRhs::Index(idx) => if *idx < left_len {
                &left_vals[*idx]
            } else {
                &right_vals[*idx - left_len]
            },
            ResolvedRhs::Literal(d) => d,
        };
        assert(passes(t, at) == holds(pred.operator, lv@, rv@));
        assert(ts.skip(i as int).drop_first() =~= ts.skip(i + 1));
        match evaluate(pred.operator, lv, rv) {
            Ok(true) => {},
            Ok(false) => {
                return Ok(false);
            },
            Err(e) => {
                return Err(e);
            },
        }
        i = i + 1;
    }
    Ok(true)
}

/// Tests on two rows laid end to end come out as they do on the merged row.
pub proof fn two_parts_agree_with_merged_row(ts: Seq<Test>, left: Seq<Value>, right: Seq<Value>)
    requires
        all_read_within(ts, (left.len() + right.len()) as int),
    ensures
        passes_all(ts, reading_two(left, right, left.len() as int)) == row_passes(
            ts,
            left + right,
        ),
    decreases ts.len(),
{
    if ts.len() > 0 {
        let merged = left + right;
        let a = reading_two(left, right, left.len() as int);
        let b = reading(merged);
        assert(reads_within(ts[0], (left.len() + right.len()) as int));
        assert forall|i: int| 0 <= i < merged.len() implies #[trigger] a(i) == b(i) by {}
        assert(a(ts[0].left) == b(ts[0].left));
        if let Source::Index(j) = ts[0].right {
            assert(a(j) == b(j));
        }
        assert forall|i: int| 0 <= i < ts.drop_first().len() implies reads_within(
            #[trigger] ts.drop_first()[i],
            (left.len() + right.len()) as int,
        ) by {
            assert(ts.drop_first()[i] == ts[i + 1]);
        }
        two_parts_agree_with_merged_row(ts.drop_first(), left, right);
    }
}

/// What a filter makes of the row that its input hands it.
#[derive(Debug)]
pub enum FilterStep {
    /// The row passes.
    Emit(Row),
    /// The row is discarded; the input is to be pulled again.
    PullAgain,
    /// The input is exhausted.
    Done,
}

/// Discards the rows that do not satisfy its predicates.
#[derive(Debug)]
pub struct FilterOperator {
    schema: RowSchema,
    resolved: Vec<ResolvedPredicate>,
}

impl FilterOperator {
    pub closed spec fn schema_view(&self) -> Seq<Seq<char>> {
        self.schema@
    }

    pub closed spec fn tests_view(&self) -> Seq<Test> {
        tests(self.resolved@)
    }

    /// Makes a filter over an input with the given schema.
    pub fn new(schema: RowSchema, predicates: &[Predicate]) -> (r: Result<FilterOperator, DbError>)
        ensures
            r is Ok <==> first_missing_column(schema@, conditions(predicates@)) is None,
            r matches Ok(f) ==> f.schema_view() == schema@ && f.tests_view() == conditions(
                predicates@,
            ).map_values(|c: Condition| resolved(schema@, c)) && all_read_within(
                f.tests_view(),
                schema@.len() as int,
            ),
            r matches Err(e) ==> e matches DbError::ColumnNotFound(c) && Some(c@)
                == first_missing_column(schema@, conditions(predicates@)),
    {
        match resolve_predicates(&schema, predicates) {
            Ok(resolved) => Ok(FilterOperator { schema, resolved }),
            Err(e) => Err(e),
        }
    }

    pub fn schema(&self) -> (r: &RowSchema)
        ensures
            r@ == self.schema_view(),
    {
        &self.schema
    }

    /// Decides on what the input handed over: a row, or the end of it.
    pub fn offer(&self, pulled: Option<Row>) -> (r: Result<FilterStep, DbError>)
        requires
            pulled matches Some(row) ==> all_read_within(self.tests_view(), row@.len() as int),
        ensures
            match pulled {
                None => r is Ok && r->Ok_0 is Done,
                Some(row) => match row_passes(self.tests_view(), row@) {
                    Some(true) => r is Ok && r->Ok_0 == FilterStep::Emit(row),
                    Some(false) => r is Ok && r->Ok_0 is PullAgain,
                    None => r is Err && r->Err_0 is IncomparableValues,
                },
            },
    {
        match pulled {
            None => Ok(FilterStep::Done),
            Some(row) => match eval_resolved(&row, self.resolved.as_slice()) {
                Ok(true) => Ok(FilterStep::Emit(row)),
                Ok(false) => Ok(FilterStep::PullAgain),
                Err(e) => Err(e),
            },
        }
    }
}

} // verus!

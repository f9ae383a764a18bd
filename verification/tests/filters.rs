use exocore::error::DbError;
use exocore::filter::{eval_resolved, eval_resolved_two_parts, resolve_predicates, FilterOperator, FilterStep};
use exocore::project::ProjectOperator;
use exocore::query::{ComparisionOperator, ComparisionValue, Predicate};
use exocore::row::{Row, RowSchema};
use exocore::value::Data;

fn schema(ns: &[&str]) -> RowSchema {
    RowSchema::new(ns.iter().map(|n| n.to_string()).collect())
}

fn pred(c: &str, operator: ComparisionOperator, value: ComparisionValue) -> Predicate {
    Predicate { column_name: c.to_string(), operator, value }
}

fn col(c: &str) -> ComparisionValue {
    ComparisionValue::Column(c.to_string())
}

fn row(a: i32, b: i64) -> Row {
    Row::new(vec![Data::Int32(a), Data::Int64(b)])
}

#[test]
fn every_operator_decides() {
    let s = schema(&["a", "b"]);
    let cases = [
        (ComparisionOperator::EQ, false, true, false),
        (ComparisionOperator::NE, true, false, true),
        (ComparisionOperator::LT, true, false, false),
        (ComparisionOperator::LTE, true, true, false),
        (ComparisionOperator::GT, false, false, true),
        (ComparisionOperator::GTE, false, true, true),
    ];
    for (op, less, equal, greater) in cases {
        let ps = resolve_predicates(&s, &[pred("a", op, col("b"))]).unwrap();
        assert_eq!(eval_resolved(&row(1, 2), &ps), Ok(less));
        assert_eq!(eval_resolved(&row(2, 2), &ps), Ok(equal));
        assert_eq!(eval_resolved(&row(3, 2), &ps), Ok(greater));
    }
}

#[test]
fn predicates_are_tested_until_one_fails() {
    let s = schema(&["a", "b"]);
    let ps = resolve_predicates(
        &s,
        &[
            pred("a", ComparisionOperator::GT, ComparisionValue::I32(5)),
            pred("b", ComparisionOperator::LT, ComparisionValue::String("x".to_string())),
        ],
    )
    .unwrap();
    assert_eq!(eval_resolved(&row(1, 1), &ps), Ok(false));
    assert_eq!(eval_resolved(&row(9, 1), &ps), Err(DbError::IncomparableValues));
    let never = resolve_predicates(
        &s,
        &[pred("b", ComparisionOperator::EQ, ComparisionValue::String("x".to_string()))],
    )
    .unwrap();
    assert_eq!(eval_resolved(&row(9, 1), &never), Ok(false));
}

#[test]
fn literals_of_all_types_are_compared() {
    let s = schema(&["a", "b"]);
    let yes = [
        ComparisionValue::I32(4),
        ComparisionValue::I64(4),
        ComparisionValue::F32(4.0f32.to_bits()),
        ComparisionValue::F64(4.0f64.to_bits()),
    ];
    for v in yes {
        let ps = resolve_predicates(&s, &[pred("a", ComparisionOperator::EQ, v)]).unwrap();
        assert_eq!(eval_resolved(&row(4, 0), &ps), Ok(true));
        assert_eq!(eval_resolved(&row(5, 0), &ps), Ok(false));
    }
}

#[test]
fn a_missing_column_is_told() {
    let s = schema(&["a"]);
    let e = resolve_predicates(&s, &[pred("a", ComparisionOperator::EQ, col("q"))]).err();
    assert_eq!(e, Some(DbError::ColumnNotFound("q".to_string())));
    let e = FilterOperator::new(schema(&["a"]), &[pred("z", ComparisionOperator::EQ, col("q"))]).err();
    assert_eq!(e, Some(DbError::ColumnNotFound("z".to_string())));
}

#[test]
fn two_halves_are_tested_like_the_merged_row() {
    let s = schema(&["a", "b", "c"]);
    let ps = resolve_predicates(
        &s,
        &[
            pred("a", ComparisionOperator::LT, col("c")),
            pred("b", ComparisionOperator::NE, ComparisionValue::I64(7)),
        ],
    )
    .unwrap();
    for (a, b, c) in [(1, 1, 2), (2, 1, 2), (1, 7, 2)] {
        let left = row(a, b);
        let right = Row::new(vec![Data::Int32(c)]);
        assert_eq!(
            eval_resolved_two_parts(&left, &right, 2, &ps),
            eval_resolved(&Row::merge(&left, &right), &ps)
        );
    }
}

#[test]
fn a_filter_passes_rows_on() {
    let f = FilterOperator::new(
        schema(&["a", "b"]),
        &[pred("a", ComparisionOperator::GTE, ComparisionValue::I32(3))],
    )
    .unwrap();
    assert_eq!(f.schema().len(), 2);
    assert!(matches!(f.offer(Some(row(3, 0))), Ok(FilterStep::Emit(_))));
    assert!(matches!(f.offer(Some(row(2, 0))), Ok(FilterStep::PullAgain)));
    assert!(matches!(f.offer(None), Ok(FilterStep::Done)));
}

#[test]
fn a_projection_renames_and_repeats_columns() {
    let map = vec![
        ("b".to_string(), "x".to_string()),
        ("a".to_string(), "y".to_string()),
        ("b".to_string(), "z".to_string()),
    ];
    let p = ProjectOperator::new(&schema(&["a", "b"]), &map).unwrap();
    assert_eq!(p.schema().column_names().to_vec(), vec!["x", "y", "z"]);
    let out = p.offer(Some(row(1, 2))).unwrap().unwrap();
    assert_eq!(format!("{:?}", out.values()), "[Int64(2), Int32(1), Int64(2)]");
    assert!(p.offer(None).unwrap().is_none());
    assert_eq!(
        p.offer(Some(Row::new(vec![Data::Int32(1)]))).err(),
        Some(DbError::RowIndexOutOfBounds(1))
    );
    assert_eq!(
        ProjectOperator::new(&schema(&["a"]), &map).err(),
        Some(DbError::ColumnNotFound("b".to_string()))
    );
}

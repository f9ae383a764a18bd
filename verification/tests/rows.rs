use exocore::error::DbError;
use exocore::row::{data_to_string, heap_size_of, resolve_columns, Row, RowSchema};
use exocore::value::Data;

fn names(ns: &[&str]) -> Vec<String> {
    ns.iter().map(|n| n.to_string()).collect()
}

fn schema(ns: &[&str]) -> RowSchema {
    RowSchema::new(names(ns))
}

fn text(s: &str) -> Data {
    Data::String(s.to_string())
}

fn show(r: &Row) -> String {
    format!("{:?}", r.values())
}

#[test]
fn a_schema_finds_the_first_column_of_a_name() {
    let s = schema(&["a", "b", "a"]);
    assert_eq!(s.len(), 3);
    assert_eq!(s.index_of("a"), Some(0));
    assert_eq!(s.index_of("b"), Some(1));
    assert_eq!(s.index_of("c"), None);
    assert!(s.contains("b"));
    assert!(!s.is_empty());
    assert_eq!(s.require_index("c"), Err(DbError::ColumnNotFound("c".to_string())));
}

#[test]
fn schemas_are_projected_and_merged() {
    let s = schema(&["a", "b", "c"]);
    let p = s.project(&names(&["c", "a"])).unwrap();
    assert_eq!(p.column_names().to_vec(), names(&["c", "a"]));
    assert_eq!(
        s.project(&names(&["c", "x"])).err(),
        Some(DbError::ColumnNotFound("x".to_string()))
    );
    let m = RowSchema::merge(&s, &schema(&["d"]));
    assert_eq!(m.column_names().to_vec(), names(&["a", "b", "c", "d"]));
    let mut grown = m.clone();
    grown.push_column("e".to_string());
    assert_eq!(grown.len(), 5);
    assert_eq!(resolve_columns(&s, &names(&["b", "b"])), Ok(vec![1, 1]));
}

#[test]
fn a_row_is_read_by_position_and_by_name() {
    let s = schema(&["a", "b"]);
    let r = Row::new(vec![Data::Int32(1), text("x")]);
    assert!(r.get(1) == Some(&text("x")));
    assert!(r.get(2).is_none());
    assert_eq!(r.require(2).err(), Some(DbError::RowIndexOutOfBounds(2)));
    assert!(*r.get_by_name(&s, "a").unwrap() == Data::Int32(1));
    assert_eq!(
        r.get_by_name(&s, "z").err(),
        Some(DbError::ColumnNotFound("z".to_string()))
    );
    assert_eq!(r.validate_against_schema(&s), Ok(()));
    assert_eq!(
        r.validate_against_schema(&schema(&["a"])),
        Err(DbError::RowSchemaMismatch(2, 1))
    );
}

#[test]
fn rows_are_projected_and_merged() {
    let s = schema(&["a", "b"]);
    let r = Row::new(vec![Data::Int64(1), text("x")]);
    assert_eq!(show(&r.project_by_indices(&[1, 0, 1]).unwrap()), "[String(\"x\"), Int64(1), String(\"x\")]");
    assert_eq!(r.project_by_indices(&[0, 5, 6]).err(), Some(DbError::RowIndexOutOfBounds(5)));
    assert_eq!(show(&r.project_by_names(&s, &names(&["b"])).unwrap()), "[String(\"x\")]");
    let m = Row::merge(&r, &Row::new(vec![Data::Int32(9)]));
    assert_eq!(show(&m), "[Int64(1), String(\"x\"), Int32(9)]");
    assert_eq!(show(&m.clone().project_by_indices_owned(&[2]).unwrap()), "[Int32(9)]");
    assert_eq!(m.into_values().len(), 3);
}

#[test]
fn rows_are_written_with_a_bar_behind_each_value() {
    let r = Row::new(vec![
        Data::Int32(-5),
        text("o'k"),
        Data::Float64(2.5f64.to_bits()),
        Data::Int64(i64::MIN),
    ]);
    let floats = names(&["", "", "2.5", ""]);
    assert_eq!(r.to_pipe_string(&floats), "-5|o'k|2.5|-9223372036854775808|\n");
    let mut out = String::from("> ");
    Row::new(vec![]).append_pipe_to(&[], &mut out);
    assert_eq!(out, "> \n");
    assert_eq!(data_to_string(&Data::Float32(0), "0"), "0.0");
    assert_eq!(data_to_string(&Data::Float64(0), "1e300"), "1e300");
    let mut line = "x".to_string();
    let row = Row::new(vec![Data::Int32(7), Data::Float64(2.0f64.to_bits()), text("ab")]);
    let notes = vec![String::new(), "2".to_string(), String::new()];
    row.append_pipe_to(&notes, &mut line);
    assert_eq!(line, "x7|2.0|ab|\n");
    assert_eq!(data_to_string(&text("t"), "unused"), "t");
}

#[test]
fn the_size_of_a_row_grows_with_its_strings() {
    let mut long = String::with_capacity(100);
    long.push('x');
    let small = Row::new(vec![Data::Int32(1)]).estimate_heap_size();
    let large = Row::new(vec![Data::String(long)]).estimate_heap_size();
    assert_eq!(small, heap_size_of(1, &[]));
    assert!(large >= heap_size_of(1, &[100]));
    assert_eq!(heap_size_of(2, &[3, 4]), heap_size_of(2, &[7]) + 16);
    assert_eq!(heap_size_of(usize::MAX, &[]), usize::MAX);
}

use exocore::catalog::{ColumnSpec, TableSpec};
use exocore::error::DbError;
use exocore::join_order::{choose_greedy_connected_order, classify_predicates, find_owner, group_local_predicates, has_new_columns};
use exocore::names::{add_predicate_columns, add_sort_columns, NameSet};
use exocore::pipeline::Node;
use exocore::plan::{Plan, ScanPlan};
use exocore::planner::{execute_op_tree, flatten_cross_inputs, logical_schema};
use exocore::query::{ComparisionOperator, ComparisionValue, Predicate, ProjectData, QueryOp, SortSpec};
use exocore::row::RowSchema;
use exocore::value::DataType;

fn table(name: &str, columns: &[&str]) -> TableSpec {
    TableSpec {
        name: name.to_string(),
        file_id: format!("{name}.bin"),
        column_specs: columns
            .iter()
            .map(|c| ColumnSpec { column_name: c.to_string(), data_type: DataType::Int32 })
            .collect(),
    }
}

fn tables() -> Vec<TableSpec> {
    vec![
        table("a", &["a1", "a2", "a3"]),
        table("b", &["b1", "b2"]),
        table("c", &["c1", "c2"]),
    ]
}

fn col(c: &str) -> ComparisionValue {
    ComparisionValue::Column(c.to_string())
}

fn eq(l: &str, r: &str) -> Predicate {
    Predicate { column_name: l.to_string(), operator: ComparisionOperator::EQ, value: col(r) }
}

fn filter(op: QueryOp, predicates: Vec<Predicate>) -> QueryOp {
    QueryOp::Filter(exocore::query::FilterData { predicates, underlying: Box::new(op) })
}

fn project(op: QueryOp, names: &[&str]) -> QueryOp {
    QueryOp::Project(ProjectData {
        column_name_map: names.iter().map(|n| (n.to_string(), n.to_string())).collect(),
        underlying: Box::new(op),
    })
}

fn sketch(p: &Plan) -> String {
    match p {
        Plan::Scan(s) => format!("{}{:?}", s.table_id, s.schema.column_names()),
        Plan::Filter(i, ps) => format!("filter{}({})", ps.len(), sketch(i)),
        Plan::Join(l, r, ps) => format!("join{}({},{})", ps.len(), sketch(l), sketch(r)),
        Plan::Project(i, m) => format!("project{}({})", m.len(), sketch(i)),
        Plan::Sort(i, s) => format!("sort{}({})", s.len(), sketch(i)),
    }
}

fn plan(op: &QueryOp) -> String {
    sketch(&execute_op_tree(&tables(), op, None).unwrap())
}

#[test]
fn a_projection_prunes_the_scan_below_it() {
    let q = project(QueryOp::scan("a"), &["a2"]);
    assert_eq!(plan(&q), "project1(a[\"a2\"])");
    let q = project(QueryOp::scan("a").filter("a3", ComparisionOperator::GT, col("a1")), &["a2"]);
    assert_eq!(plan(&q), "project1(filter1(a[\"a1\", \"a2\", \"a3\"]))");
    let q = project(QueryOp::scan("a").sort("a3", true), &["a2"]);
    assert_eq!(plan(&q), "project1(sort1(a[\"a2\", \"a3\"]))");
    assert_eq!(plan(&QueryOp::scan("a")), "a[\"a1\", \"a2\", \"a3\"]");
}

#[test]
fn a_filter_over_cross_products_becomes_joins() {
    let crosses = QueryOp::scan("a").cross(QueryOp::scan("b")).cross(QueryOp::scan("c"));
    let q = filter(
        crosses,
        vec![
            eq("a1", "c1"),
            eq("c2", "b1"),
            Predicate {
                column_name: "b2".to_string(),
                operator: ComparisionOperator::GT,
                value: ComparisionValue::I32(3),
            },
        ],
    );
    assert_eq!(
        plan(&project(q, &["a2"])),
        "project1(join1(join1(filter1(b[\"b1\", \"b2\"]),c[\"c1\", \"c2\"]),a[\"a1\", \"a2\"]))"
    );
}

#[test]
fn inputs_with_clashing_names_are_not_reordered() {
    let q = filter(QueryOp::scan("a").cross(QueryOp::scan("a")), vec![eq("a1", "a2")]);
    assert_eq!(
        plan(&q),
        "filter1(join0(a[\"a1\", \"a2\", \"a3\"],a[\"a1\", \"a2\", \"a3\"]))"
    );
}

#[test]
fn plans_name_what_is_missing() {
    let e = execute_op_tree(&tables(), &QueryOp::scan("zzz"), None).err();
    assert_eq!(e, Some(DbError::TableNotFound("zzz".to_string())));
    let q = QueryOp::scan("a").sort("nope", true);
    let e = execute_op_tree(&tables(), &q, None).err();
    assert_eq!(e, Some(DbError::ColumnNotFound("nope".to_string())));
    let q = QueryOp::scan("a").filter("a1", ComparisionOperator::EQ, col("nope"));
    let e = execute_op_tree(&tables(), &q, None).err();
    assert_eq!(e, Some(DbError::ColumnNotFound("nope".to_string())));
}

#[test]
fn the_columns_of_a_query_are_known_without_a_plan() {
    let q = project(QueryOp::scan("a").cross(QueryOp::scan("b")), &["b2", "a1"]);
    let s = logical_schema(&tables(), &q).unwrap();
    assert_eq!(s.column_names().to_vec(), vec!["b2", "a1"]);
    let crosses = QueryOp::scan("a").cross(QueryOp::scan("b").cross(QueryOp::scan("c")));
    let mut leaves = Vec::new();
    flatten_cross_inputs(&crosses, &mut leaves);
    assert_eq!(leaves.len(), 3);
}

#[test]
fn relations_are_joined_along_their_predicates() {
    let schemas: Vec<RowSchema> = [["a1", "a2"], ["b1", "b2"], ["c1", "c2"], ["d1", "d2"]]
        .iter()
        .map(|cs| RowSchema::new(cs.iter().map(|c| c.to_string()).collect()))
        .collect();
    let preds = [eq("a1", "c1"), eq("c2", "d1"), eq("d2", "b2"), eq("b1", "b2")];
    let classified = classify_predicates(&preds, &schemas).unwrap();
    assert_eq!((classified[0].first, classified[0].second), (0, 2));
    assert_eq!((classified[3].first, classified[3].second), (1, 1));
    let order = choose_greedy_connected_order(4, &classified);
    let mut sorted = order.clone();
    sorted.sort();
    assert_eq!(sorted, vec![0, 1, 2, 3]);
    for k in 1..4 {
        let linked = classified.iter().any(|p| {
            (p.first == order[k] && order[..k].contains(&p.second))
                || (p.second == order[k] && order[..k].contains(&p.first))
        });
        assert!(linked);
    }
    let local = group_local_predicates(&classified, 4);
    assert_eq!(local.iter().map(|l| l.len()).collect::<Vec<_>>(), vec![0, 1, 0, 0]);
    assert!(classify_predicates(&[eq("a1", "q")], &schemas).is_none());
    assert_eq!(find_owner(&schemas, "c2"), Some(2));
    assert!(!has_new_columns(&schemas, &schemas[1]));
}

#[test]
fn names_are_held_once() {
    let mut s = NameSet::new();
    assert!(s.is_empty());
    s.insert("x");
    s.insert("x");
    s.insert("y");
    assert_eq!(s.as_slice().len(), 2);
    assert!(s.contains("y") && !s.contains("z"));
    let grown = add_predicate_columns(Some(&s), &[eq("z", "y")]).unwrap();
    assert!(grown.contains("z") && grown.contains("x"));
    assert!(!s.contains("z"));
    assert!(add_predicate_columns(None, &[eq("z", "y")]).is_none());
    let sorted = add_sort_columns(Some(&s), &[SortSpec { column_name: "k".to_string(), ascending: true }]).unwrap();
    assert!(sorted.contains("k"));
}

#[test]
fn only_plans_that_fit_the_tables_are_built() {
    let good = execute_op_tree(&tables(), &project(QueryOp::scan("a"), &["a2"]), None).unwrap();
    assert!(Node::build(&good, &tables(), 1000).is_ok());
    let names = RowSchema::new(vec!["a1".to_string()]);
    let scan = |kept: Option<Vec<usize>>, total_columns: usize, table_id: &str| {
        Plan::Scan(ScanPlan {
            table_id: table_id.to_string(),
            schema: names.clone(),
            kept,
            total_columns,
        })
    };
    let cases = [
        (scan(Some(vec![0]), 3, "a"), None),
        (scan(Some(vec![0]), 2, "a"), Some(DbError::RowSchemaMismatch(2, 3))),
        (scan(None, 3, "a"), Some(DbError::RowSchemaMismatch(1, 3))),
        (scan(Some(vec![0, 1]), 3, "a"), Some(DbError::RowSchemaMismatch(1, 2))),
        (scan(Some(vec![7]), 3, "a"), Some(DbError::RowIndexOutOfBounds(7))),
        (scan(Some(vec![0]), 3, "q"), Some(DbError::TableNotFound("q".to_string()))),
    ];
    for (p, want) in cases {
        assert_eq!(Node::build(&p, &tables(), 1000).err(), want);
    }
}

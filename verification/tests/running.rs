use exocore::buffer_manager::BufferManager;
use exocore::catalog::{ColumnSpec, TableSpec};
use exocore::context::{ExecContext, QueryRun};
use exocore::error::DbError;
use exocore::memory::QueryMemoryManager;
use exocore::pipeline::NodeStep;
use exocore::query::{ComparisionOperator, ComparisionValue, FilterData, Predicate, ProjectData, QueryOp};
use exocore::row::Row;
use exocore::temp_storage::TempStorageManager;
use exocore::value::DataType;
use std::collections::HashMap;

const SIZE: usize = 256;

struct Disk {
    blocks: HashMap<u64, Vec<u8>>,
    files: HashMap<String, (u64, u64)>,
    next: u64,
    writes: usize,
}

impl Disk {
    fn new() -> Disk {
        Disk { blocks: HashMap::new(), files: HashMap::new(), next: 10, writes: 0 }
    }

    fn add_file(&mut self, name: &str, rows: &[Vec<u8>]) {
        let start = self.next;
        let mut body: Vec<u8> = Vec::new();
        let mut count = 0u16;
        let mut blocks = Vec::new();
        for r in rows {
            if body.len() + r.len() > SIZE - 2 {
                blocks.push((std::mem::take(&mut body), count));
                count = 0;
            }
            body.extend_from_slice(r);
            count += 1;
        }
        blocks.push((body, count));
        for (mut b, n) in blocks {
            b.resize(SIZE - 2, 0);
            b.extend_from_slice(&n.to_le_bytes());
            self.blocks.insert(self.next, b);
            self.next += 1;
        }
        self.files.insert(name.to_string(), (start, self.next - start));
    }
}

fn columns(cs: &[(&str, DataType)]) -> Vec<ColumnSpec> {
    cs.iter()
        .map(|(n, t)| ColumnSpec { column_name: n.to_string(), data_type: *t })
        .collect()
}

fn shop() -> (Vec<TableSpec>, Disk) {
    let tables = vec![
        TableSpec {
            name: "customer".to_string(),
            file_id: "customer.bin".to_string(),
            column_specs: columns(&[("c_id", DataType::Int32), ("c_name", DataType::String)]),
        },
        TableSpec {
            name: "orders".to_string(),
            file_id: "orders.bin".to_string(),
            column_specs: columns(&[
                ("o_id", DataType::Int64),
                ("o_cust", DataType::Int32),
                ("o_price", DataType::Float64),
            ]),
        },
    ];
    let mut disk = Disk::new();
    let customers: Vec<Vec<u8>> = (0..60i32)
        .map(|i| {
            let mut r = i.to_le_bytes().to_vec();
            r.extend_from_slice(format!("name{i}").as_bytes());
            r.push(0);
            r
        })
        .collect();
    let orders: Vec<Vec<u8>> = (0..400i64)
        .map(|i| {
            let mut r = i.to_le_bytes().to_vec();
            r.extend_from_slice(&(((i * 7) % 90) as i32).to_le_bytes());
            r.extend_from_slice(&((i as f64) / 2.0).to_le_bytes());
            r
        })
        .collect();
    disk.add_file("customer.bin", &customers);
    disk.add_file("orders.bin", &orders);
    (tables, disk)
}

fn context(sort_run_bytes: usize, budget: usize) -> ExecContext {
    ExecContext {
        buffer_manager: BufferManager::new(SIZE, 2).unwrap(),
        temp_storage: TempStorageManager::new(SIZE).unwrap(),
        sort_run_bytes,
        memory: QueryMemoryManager::new(budget),
    }
}

fn run(q: &QueryOp, sort_run_bytes: usize) -> (Vec<Row>, usize) {
    let (tables, mut disk) = shop();
    let mut run = QueryRun::new(tables, q, context(sort_run_bytes, 1 << 22)).unwrap();
    let mut rows = Vec::new();
    loop {
        let (writes, step) = run.step().unwrap();
        for w in writes {
            disk.writes += 1;
            for i in 0..w.range.num_blocks {
                let at = i as usize * SIZE;
                disk.blocks.insert(w.range.start_block + i, w.data[at..at + SIZE].to_vec());
            }
        }
        match step {
            NodeStep::AskFile(t) => {
                let name = run.file_id(t).unwrap().to_string();
                let (start, n) = disk.files[&name];
                run.supply_file(start, n).unwrap();
            }
            NodeStep::ReadTable { start, count } => {
                let mut data = Vec::new();
                for b in start..start + count {
                    data.extend_from_slice(&disk.blocks[&b]);
                }
                run.supply_table(&data).unwrap();
            }
            NodeStep::ReadTemp(ranges) => {
                let mut data = Vec::new();
                for r in ranges {
                    for b in r.start_block..r.start_block + r.num_blocks {
                        data.extend_from_slice(&disk.blocks[&b]);
                    }
                }
                run.supply_temp(data).unwrap();
            }
            NodeStep::NeedAnonStart => run.supply_anon_start(1_000_000),
            NodeStep::Again => {}
            NodeStep::Row(r) => rows.push(r),
            NodeStep::Done => break,
        }
    }
    assert_eq!(run.context().used_memory(), 0);
    (rows, disk.writes)
}

fn show(r: &Row) -> String {
    let floats: Vec<String> = r
        .values()
        .iter()
        .map(|v| match v {
            exocore::value::Data::Float64(b) => f64::from_bits(*b).to_string(),
            _ => String::new(),
        })
        .collect();
    r.to_pipe_string(&floats)
}

fn col(c: &str) -> ComparisionValue {
    ComparisionValue::Column(c.to_string())
}

#[test]
fn a_scan_reads_a_whole_table() {
    let (rows, _) = run(&QueryOp::scan("customer"), 1 << 20);
    assert_eq!(rows.len(), 60);
    assert_eq!(show(&rows[59]), "59|name59|\n");
}

#[test]
fn a_filter_and_a_projection_are_applied() {
    let q = QueryOp::Project(ProjectData {
        column_name_map: vec![("o_price".to_string(), "p".to_string())],
        underlying: Box::new(QueryOp::scan("orders").filter(
            "o_id",
            ComparisionOperator::LT,
            ComparisionValue::I32(3),
        )),
    });
    let (rows, _) = run(&q, 1 << 20);
    let got: Vec<String> = rows.iter().map(show).collect();
    assert_eq!(got, vec!["0.0|\n", "0.5|\n", "1.0|\n"]);
}

fn joined() -> QueryOp {
    QueryOp::Filter(FilterData {
        predicates: vec![
            Predicate {
                column_name: "c_id".to_string(),
                operator: ComparisionOperator::EQ,
                value: col("o_cust"),
            },
            Predicate {
                column_name: "o_id".to_string(),
                operator: ComparisionOperator::LT,
                value: ComparisionValue::I64(200),
            },
        ],
        underlying: Box::new(QueryOp::scan("customer").cross(QueryOp::scan("orders"))),
    })
}

fn joined_lines() -> Vec<String> {
    let mut want = Vec::new();
    for c in 0..60i64 {
        for o in 0..200i64 {
            if (o * 7) % 90 == c {
                want.push(format!("{o}|{c}|{:?}|{c}|name{c}|\n", (o as f64) / 2.0));
            }
        }
    }
    want.sort();
    want
}

#[test]
fn a_join_is_the_filtered_cross_product() {
    for memory in [1usize << 20, 2048] {
        let (rows, writes) = run(&joined(), memory);
        let mut got: Vec<String> = rows.iter().map(show).collect();
        got.sort();
        assert_eq!(got, joined_lines());
        assert!(writes > 0);
    }
}

#[test]
fn a_sort_orders_the_rows_of_a_join() {
    let q = joined().sort("o_id", false);
    for memory in [1usize << 20, 1024] {
        let (rows, _) = run(&q, memory);
        let ids: Vec<i64> = rows
            .iter()
            .map(|r| match r.get(0) {
                Some(exocore::value::Data::Int64(v)) => *v,
                _ => panic!("a number was expected"),
            })
            .collect();
        assert_eq!(ids.len(), joined_lines().len());
        assert!(ids.windows(2).all(|w| w[0] >= w[1]));
    }
}

#[test]
fn a_cross_product_has_every_pair() {
    let q = QueryOp::scan("customer")
        .filter("c_id", ComparisionOperator::LT, ComparisionValue::I32(4))
        .cross(QueryOp::scan("customer").filter("c_id", ComparisionOperator::LT, ComparisionValue::I32(5)));
    let (rows, _) = run(&q, 1 << 20);
    assert_eq!(rows.len(), 20);
    assert_eq!(rows[0].len(), 4);
}

#[test]
fn a_query_that_cannot_be_planned_is_turned_down() {
    let (tables, _) = shop();
    let e = QueryRun::new(tables, &QueryOp::scan("nothing"), context(1000, 1000)).err();
    assert_eq!(e, Some(DbError::TableNotFound("nothing".to_string())));
}

#[test]
fn a_comparison_that_makes_no_sense_ends_the_query() {
    let (tables, disk) = shop();
    let q = QueryOp::scan("customer").filter("c_name", ComparisionOperator::LT, ComparisionValue::I32(4));
    let mut run = QueryRun::new(tables, &q, context(1000, 1 << 20)).unwrap();
    let mut error = None;
    while error.is_none() {
        match run.step() {
            Ok((_, NodeStep::AskFile(_))) => {
                let (start, n) = disk.files["customer.bin"];
                run.supply_file(start, n).unwrap();
            }
            Ok((_, NodeStep::ReadTable { start, count })) => {
                let mut data = Vec::new();
                for b in start..start + count {
                    data.extend_from_slice(&disk.blocks[&b]);
                }
                run.supply_table(&data).unwrap();
            }
            Ok(_) => {}
            Err(e) => error = Some(e),
        }
    }
    assert_eq!(error, Some(DbError::IncomparableValues));
}

#[test]
fn the_context_accounts_for_memory() {
    let mut ctx = context(10, 100);
    assert_eq!(ctx.memory_budget(), 100);
    assert!(ctx.try_reserve_memory(70).is_ok());
    assert!(ctx.try_reserve_memory(40).is_err());
    assert_eq!((ctx.used_memory(), ctx.available_memory()), (70, 30));
    ctx.release_memory(50);
    assert_eq!(ctx.used_memory(), 20);
}

fn test_of(column: &str, operator: ComparisionOperator, value: ComparisionValue) -> Predicate {
    Predicate { column_name: column.to_string(), operator, value }
}

#[test]
fn three_relations_joined_in_another_order_give_the_same_rows() {
    let pairs = |names: &[(&str, &str)]| -> Vec<(String, String)> {
        names.iter().map(|(a, b)| (a.to_string(), b.to_string())).collect()
    };
    let partner = QueryOp::Project(ProjectData {
        column_name_map: pairs(&[("c_name", "p_name"), ("c_id", "p_id")]),
        underlying: Box::new(QueryOp::scan("customer")),
    });
    let q = QueryOp::Project(ProjectData {
        column_name_map: pairs(&[("p_name", "partner"), ("o_id", "order"), ("c_name", "buyer")]),
        underlying: Box::new(QueryOp::Filter(FilterData {
            predicates: vec![
                test_of("c_id", ComparisionOperator::EQ, col("o_cust")),
                test_of("p_id", ComparisionOperator::LT, col("c_id")),
                test_of("o_id", ComparisionOperator::LT, ComparisionValue::I64(40)),
                test_of("p_id", ComparisionOperator::GTE, ComparisionValue::I32(10)),
            ],
            underlying: Box::new(
                partner.cross(QueryOp::scan("customer")).cross(QueryOp::scan("orders")),
            ),
        })),
    });
    let mut want = Vec::new();
    for p in 10..60i64 {
        for c in 0..60i64 {
            for o in 0..40i64 {
                if c == (o * 7) % 90 && p < c {
                    want.push(format!("name{p}|{o}|name{c}|\n"));
                }
            }
        }
    }
    want.sort();
    assert!(want.len() > 100);
    for memory in [1usize << 20, 2048] {
        let (rows, _) = run(&q, memory);
        let mut got: Vec<String> = rows.iter().map(show).collect();
        got.sort();
        assert_eq!(got, want);
    }
}

#[test]
fn answers_that_do_not_fit_are_turned_down() {
    let (tables, disk) = shop();
    let q = QueryOp::scan("customer");
    let mut a = QueryRun::new(tables, &q, context(1000, 1 << 20)).unwrap();
    assert!(matches!(a.step(), Ok((_, NodeStep::AskFile(0)))));
    assert_eq!(a.supply_file(u64::MAX, 2), Err(DbError::BlockIdOverflow));

    let (tables, _) = shop();
    let mut b = QueryRun::new(tables, &q, context(1000, 1 << 20)).unwrap();
    assert!(matches!(b.step(), Ok((_, NodeStep::AskFile(0)))));
    let (start, n) = disk.files["customer.bin"];
    b.supply_file(start, n).unwrap();
    let asked = loop {
        match b.step().unwrap().1 {
            NodeStep::ReadTable { start: first, count } => {
                assert_eq!(first, start);
                break count;
            }
            _ => {}
        }
    };
    assert_eq!(
        b.supply_table(&[0u8; 5]),
        Err(DbError::BufferLengthMismatch { len: 5, num_pages: asked, block_size: SIZE })
    );
}

#[test]
fn the_first_start_of_the_anonymous_region_counts() {
    let (tables, disk) = shop();
    let q = QueryOp::scan("customer").cross(QueryOp::scan("orders"));
    let mut run = QueryRun::new(tables, &q, context(1 << 16, 1 << 22)).unwrap();
    run.supply_anon_start(5000);
    run.supply_anon_start(9000);
    let first = loop {
        let (writes, step) = run.step().unwrap();
        if let Some(w) = writes.first() {
            break w.range.start_block;
        }
        match step {
            NodeStep::AskFile(t) => {
                let name = run.file_id(t).unwrap().to_string();
                let (start, n) = disk.files[&name];
                run.supply_file(start, n).unwrap();
            }
            NodeStep::ReadTable { start, count } => {
                let mut data = Vec::new();
                for b in start..start + count {
                    data.extend_from_slice(&disk.blocks[&b]);
                }
                run.supply_table(&data).unwrap();
            }
            NodeStep::Again => {}
            other => panic!("not expected: {other:?}"),
        }
    };
    assert_eq!(first, 5000);
}

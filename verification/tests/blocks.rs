use exocore::block_decode::{decode_block_into_rows, decode_block_into_rows_filtered, decode_block_into_rows_runtime_filtered};
use exocore::block_search::{is_strictly_after_bound, is_strictly_before_bound, ordered_column_min_max_in_block, restricted_range, BlockSearch, OrderedScanBounds, ScanBound};
use exocore::bloom::RuntimeMembershipFilter;
use exocore::buffer::{skip_data_value, BlockBuffer};
use exocore::catalog::{get_table_spec, schema_from_table_spec, table_index, ColumnSpec, TableSpec};
use exocore::error::{DbError, DecodeError};
use exocore::filter::resolve_predicates;
use exocore::memory::QueryMemoryManager;
use exocore::query::{ComparisionOperator, ComparisionValue, Predicate};
use exocore::row::{Row, RowSchema};
use exocore::scan::{choose_scan_batch, ScanOperator, ScanStep};
use exocore::value::{Data, DataType};

const SIZE: usize = 64;

fn column(name: &str, data_type: DataType) -> ColumnSpec {
    ColumnSpec { column_name: name.to_string(), data_type }
}

fn people() -> TableSpec {
    TableSpec {
        name: "people".to_string(),
        file_id: "people.bin".to_string(),
        column_specs: vec![
            column("id", DataType::Int32),
            column("name", DataType::String),
            column("score", DataType::Float64),
        ],
    }
}

fn block(rows: &[(i32, &str, f64)]) -> Vec<u8> {
    let mut b = Vec::new();
    for (id, name, score) in rows {
        b.extend_from_slice(&id.to_le_bytes());
        b.extend_from_slice(name.as_bytes());
        b.push(0);
        b.extend_from_slice(&score.to_le_bytes());
    }
    assert!(b.len() <= SIZE - 2);
    b.resize(SIZE - 2, 0);
    b.extend_from_slice(&(rows.len() as u16).to_le_bytes());
    b
}

fn show(rows: &[Row]) -> Vec<String> {
    rows.iter().map(|r| format!("{:?}", r.values())).collect()
}

#[test]
fn a_buffer_reads_little_endian_values() {
    let mut b = Vec::new();
    b.extend_from_slice(&(-2i32).to_le_bytes());
    b.extend_from_slice(&(1i64 << 40).to_le_bytes());
    b.extend_from_slice(&1.5f32.to_le_bytes());
    b.extend_from_slice(&(-0.25f64).to_le_bytes());
    b.extend_from_slice(b"hi\0");
    b.extend_from_slice(&[3, 0]);
    let buf = BlockBuffer::new(&b);
    let mut at = 0;
    assert_eq!(buf.read_i32(&mut at), Ok(-2));
    assert_eq!(buf.read_i64(&mut at), Ok(1 << 40));
    assert_eq!(buf.read_f32(&mut at), Ok(1.5f32.to_bits()));
    assert_eq!(buf.read_f64(&mut at), Ok((-0.25f64).to_bits()));
    assert_eq!(buf.read_cstring(&mut at), Ok("hi".to_string()));
    assert_eq!(at, b.len() - 2);
    assert_eq!(buf.row_count(), Ok(3));
    assert_eq!(buf.usable_end(), Ok(b.len() - 2));
    assert_eq!(buf.len(), b.len());
    let end = at;
    assert_eq!(
        buf.read_i32(&mut at),
        Err(DbError::BlockOverrun { needed: 4, offset: end, usable_end: end })
    );
    assert_eq!(buf.read_cstring(&mut at), Err(DbError::UnterminatedString));
    let mut from_start = 0;
    assert_eq!(skip_data_value(&buf, &mut from_start, DataType::Int32), Ok(()));
    assert_eq!(from_start, 4);
}

#[test]
fn broken_blocks_are_errors() {
    assert_eq!(BlockBuffer::new(&[1]).row_count(), Err(DbError::BlockTooSmall));
    let bad = [0xff, 0xfe, 0, 1, 0];
    let mut at = 0;
    assert_eq!(
        BlockBuffer::new(&bad).read_cstring(&mut at),
        Err(DbError::Decode(DecodeError::InvalidText))
    );
}

#[test]
fn blocks_are_decoded_and_pruned() {
    let t = people();
    let b = block(&[(1, "ann", 0.5), (2, "bob", 1.5)]);
    let all = decode_block_into_rows(&t, &b, None).unwrap();
    let half = 0.5f64.to_bits();
    assert_eq!(show(&all)[0], format!("[Int32(1), String(\"ann\"), Float64({half})]"));
    assert_eq!(all.len(), 2);
    let kept = decode_block_into_rows(&t, &b, Some(&[false, true, false])).unwrap();
    assert_eq!(show(&kept), vec!["[String(\"ann\")]", "[String(\"bob\")]"]);
}

#[test]
fn blocks_are_filtered_while_they_are_decoded() {
    let t = people();
    let b = block(&[(1, "ann", 0.5), (2, "bob", 1.5), (3, "eve", 2.5)]);
    let schema = schema_from_table_spec(&t);
    let ps = resolve_predicates(
        &schema,
        &[Predicate {
            column_name: "id".to_string(),
            operator: ComparisionOperator::GT,
            value: ComparisionValue::I32(1),
        }],
    )
    .unwrap();
    let rows = decode_block_into_rows_filtered(&t, &b, None, &ps).unwrap();
    assert_eq!(rows.len(), 2);
    let f = RuntimeMembershipFilter::exact_int_bitmap(0, 1, vec![0b101]);
    let rows = decode_block_into_rows_runtime_filtered(&t, &b, Some(&[true, false, false]), &f, None).unwrap();
    assert_eq!(show(&rows), vec!["[Int32(1)]", "[Int32(3)]"]);
    let rows = decode_block_into_rows_runtime_filtered(&t, &b, None, &f, Some(&ps)).unwrap();
    assert_eq!(rows.len(), 1);
}

#[test]
fn tables_are_found_by_either_name() {
    let tables = vec![people()];
    assert_eq!(table_index(&tables, "people"), Some(0));
    assert_eq!(table_index(&tables, "people.bin"), Some(0));
    assert_eq!(table_index(&tables, "x"), None);
    assert_eq!(get_table_spec(&tables, "people").unwrap().name, "people");
    assert_eq!(
        get_table_spec(&tables, "x").err(),
        Some(DbError::TableNotFound("x".to_string()))
    );
}

fn bound(v: i32, inclusive: bool) -> ScanBound {
    ScanBound { value: Data::Int32(v), inclusive }
}

#[test]
fn bounds_include_their_value_or_not() {
    let five = Data::Int32(5);
    assert_eq!(is_strictly_before_bound(&five, &bound(5, true)), Ok(false));
    assert_eq!(is_strictly_before_bound(&five, &bound(5, false)), Ok(true));
    assert_eq!(is_strictly_before_bound(&five, &bound(6, true)), Ok(true));
    assert_eq!(is_strictly_after_bound(&five, &bound(5, true)), Ok(false));
    assert_eq!(is_strictly_after_bound(&five, &bound(5, false)), Ok(true));
    assert_eq!(is_strictly_after_bound(&five, &bound(4, true)), Ok(true));
    let s = Data::String("x".to_string());
    assert_eq!(is_strictly_after_bound(&s, &bound(4, true)), Err(DbError::IncomparableValues));
}

#[test]
fn a_block_tells_its_first_and_last_value() {
    let t = people();
    let b = block(&[(4, "a", 0.0), (7, "b", 0.0)]);
    let (min, max) = ordered_column_min_max_in_block(&t, &b, 9, 0).unwrap();
    assert!(min == Data::Int32(4) && max == Data::Int32(7));
    assert_eq!(
        ordered_column_min_max_in_block(&t, &block(&[]), 9, 0).err(),
        Some(DbError::EmptyOrderedBlock(9))
    );
}

#[test]
fn a_search_ends_at_the_boundary() {
    for size in [0u64, 1, 2, 7, 100] {
        for at in 0..=size {
            let mut s = BlockSearch::new(size);
            let mut asked = 0;
            while let Some(m) = s.next() {
                s.answer(m < at);
                asked += 1;
            }
            assert_eq!(s.result(), at);
            assert!(asked <= 7);
        }
    }
    assert_eq!(restricted_range(10, 2, 5), Ok((12, 3)));
    assert_eq!(restricted_range(10, 5, 5), Ok((10, 0)));
    assert_eq!(restricted_range(u64::MAX, 1, 2), Err(DbError::BlockIdOverflow));
}

#[test]
fn batches_fit_the_memory() {
    assert_eq!(choose_scan_batch(1000, 1 << 30, 4096), 512);
    assert_eq!(choose_scan_batch(100, 1 << 30, 4096), 100);
    assert_eq!(choose_scan_batch(100, 10 * 2 * 4096, 4096), 10);
    assert_eq!(choose_scan_batch(100, 0, 4096), 1);
    assert_eq!(choose_scan_batch(0, 1 << 30, 4096), 0);
}

fn run_scan(mut scan: ScanOperator, file: &[Vec<u8>]) -> (Vec<String>, Vec<u64>) {
    let t = people();
    let mut memory = QueryMemoryManager::new(1 << 20);
    let mut rows = Vec::new();
    let mut read = Vec::new();
    loop {
        match scan.step(SIZE, &mut memory, &t).unwrap() {
            ScanStep::AskFile => scan.supply_file(100, file.len() as u64, &t).unwrap(),
            ScanStep::Need { start, count } => {
                let mut data = Vec::new();
                for b in start..start + count {
                    read.push(b - 100);
                    data.extend_from_slice(&file[(b - 100) as usize]);
                }
                scan.supply(&data, SIZE, &t, &mut memory).unwrap();
            }
            ScanStep::Again => {}
            ScanStep::Row(r) => rows.push(format!("{:?}", r.values())),
            ScanStep::Done => break,
        }
    }
    assert_eq!(memory.used_bytes(), 0);
    (rows, read)
}

fn numbered(n: i32) -> Vec<Vec<u8>> {
    (0..n).map(|i| block(&[(2 * i, "p", 0.0), (2 * i + 1, "q", 0.0)])).collect()
}

fn id_scan() -> ScanOperator {
    ScanOperator::new("people".to_string(), RowSchema::new(vec!["id".to_string()]))
        .with_needed_columns(vec![0], 3)
}

#[test]
fn a_scan_gives_out_all_rows() {
    let (rows, read) = run_scan(id_scan(), &numbered(5));
    let want: Vec<String> = (0..10).map(|i| format!("[Int32({i})]")).collect();
    assert_eq!(rows, want);
    assert_eq!(read, vec![0, 1, 2, 3, 4]);
    let (none, _) = run_scan(id_scan(), &[]);
    assert!(none.is_empty());
}

#[test]
fn an_ordered_scan_reads_only_the_blocks_in_range() {
    let bounds = OrderedScanBounds {
        ordered_col_idx: 0,
        lower: Some(bound(21, false)),
        upper: Some(bound(26, true)),
    };
    let (rows, read) = run_scan(id_scan().with_ordered_bounds(bounds), &numbered(32));
    assert_eq!(rows[0], "[Int32(22)]");
    assert_eq!(rows[rows.len() - 1], "[Int32(27)]");
    assert_eq!(&read[read.len() - 3..], &[11, 12, 13]);
    let empty = OrderedScanBounds {
        ordered_col_idx: 0,
        lower: Some(bound(100, true)),
        upper: None,
    };
    let (rows, _) = run_scan(id_scan().with_ordered_bounds(empty), &numbered(8));
    assert!(rows.is_empty());
}

#[test]
fn a_scan_applies_its_filters() {
    let scan = id_scan()
        .with_scan_filter_predicates(&[Predicate {
            column_name: "id".to_string(),
            operator: ComparisionOperator::LT,
            value: ComparisionValue::I32(7),
        }])
        .unwrap()
        .with_runtime_membership_filter(RuntimeMembershipFilter::exact_int_bitmap(0, 0, vec![0b1111_0000]));
    let (rows, _) = run_scan(scan, &numbered(8));
    assert_eq!(rows, vec!["[Int32(4)]", "[Int32(5)]", "[Int32(6)]"]);
    assert_eq!(
        id_scan()
            .with_scan_filter_predicates(&[Predicate {
                column_name: "nope".to_string(),
                operator: ComparisionOperator::LT,
                value: ComparisionValue::I32(7),
            }])
            .err(),
        Some(DbError::ColumnNotFound("nope".to_string()))
    );
}

#[test]
fn a_scan_stays_within_its_memory() {
    let t = people();
    let mut memory = QueryMemoryManager::new(1);
    let mut scan = id_scan();
    assert!(matches!(scan.step(SIZE, &mut memory, &t), Ok(ScanStep::AskFile)));
    scan.supply_file(0, 1, &t).unwrap();
    while !matches!(scan.step(SIZE, &mut memory, &t).unwrap(), ScanStep::Need { .. }) {}
    let e = scan.supply(&block(&[(1, "a", 0.0)]), SIZE, &t, &mut memory).err();
    assert!(matches!(e, Some(DbError::MemoryBudgetExceeded { .. })));
    let mut short = id_scan();
    let mut memory = QueryMemoryManager::new(1000);
    short.supply_file(0, 1, &t).unwrap();
    while !matches!(short.step(SIZE, &mut memory, &t).unwrap(), ScanStep::Need { .. }) {}
    assert_eq!(
        short.supply(&[0, 0], SIZE, &t, &mut memory).err(),
        Some(DbError::BufferLengthMismatch { len: 2, num_pages: 1, block_size: SIZE })
    );
}

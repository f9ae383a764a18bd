use exocore::error::DbError;
use exocore::ordering::{compare_rows, SortKey};
use exocore::floats::Comparison;
use exocore::query::SortSpec;
use exocore::row::{Row, RowSchema};
use exocore::row_sort::sort_rows;
use exocore::sort::{resolve_sort_specs, SortOperator, SortStep};
use exocore::sort_plan::{choose_merge_reader_pages, choose_sort_merge_fan_in, choose_sort_spill_batch_pages, projected_vec_capacity_after_push, sort_merge_reader_budget_bytes, sort_row_budget_bytes, sort_writer_reserve_bytes};
use exocore::temp_storage::TempStorageManager;
use exocore::value::Data;
use std::collections::{HashMap, VecDeque};

const SIZE: usize = 128;

fn schema() -> RowSchema {
    RowSchema::new(vec!["k".to_string(), "v".to_string()])
}

fn specs(ascending: bool) -> Vec<SortSpec> {
    vec![
        SortSpec { column_name: "k".to_string(), ascending },
        SortSpec { column_name: "v".to_string(), ascending: true },
    ]
}

fn row(k: i64, v: i32) -> Row {
    Row::new(vec![Data::Int64(k), Data::Int32(v)])
}

fn pairs(n: i64) -> Vec<(i64, i32)> {
    (0..n).map(|i| ((i * 7919) % 101 - 50, ((i * 31) % 17) as i32)).collect()
}

fn run(mut op: SortOperator, input: &[(i64, i32)]) -> (Vec<(i64, i32)>, usize) {
    let mut storage = TempStorageManager::new(SIZE).unwrap();
    let mut disk: HashMap<u64, Vec<u8>> = HashMap::new();
    let mut input = input.iter();
    let mut out = Vec::new();
    let mut reads = 0;
    loop {
        let step = op.step(&mut storage).unwrap();
        for w in storage.take_writes() {
            for i in 0..w.range.num_blocks {
                let at = i as usize * SIZE;
                disk.insert(w.range.start_block + i, w.data[at..at + SIZE].to_vec());
            }
        }
        match step {
            SortStep::Pull => {
                let next = input.next().map(|(k, v)| row(*k, *v));
                op.feed(next, &mut storage).unwrap();
            }
            SortStep::NeedAnonStart => storage.init_anon_region(3),
            SortStep::Need(ranges) => {
                let mut data = Vec::new();
                for r in ranges {
                    for b in r.start_block..r.start_block + r.num_blocks {
                        data.extend_from_slice(&disk[&b]);
                        reads += 1;
                    }
                }
                op.supply(data, &storage).unwrap();
            }
            SortStep::Again => {}
            SortStep::Row(r) => match (r.get(0), r.get(1)) {
                (Some(Data::Int64(k)), Some(Data::Int32(v))) => out.push((*k, *v)),
                _ => panic!("unexpected row"),
            },
            SortStep::Done => break,
        }
    }
    (out, reads)
}

#[test]
fn small_inputs_are_sorted_in_memory() {
    let input = pairs(50);
    let op = SortOperator::new(&schema(), &specs(true), 1 << 22).unwrap();
    assert_eq!(op.schema().len(), 2);
    let (got, reads) = run(op, &input);
    let mut want = input.clone();
    want.sort();
    assert_eq!(got, want);
    assert_eq!(reads, 0);
}

#[test]
fn large_inputs_are_sorted_in_runs() {
    let input = pairs(4000);
    let op = SortOperator::new(&schema(), &specs(false), 600 * SIZE).unwrap();
    let (got, reads) = run(op, &input);
    let mut want = input.clone();
    want.sort_by(|a, b| b.0.cmp(&a.0).then(a.1.cmp(&b.1)));
    assert_eq!(got, want);
    assert!(reads > 0);
}

#[test]
fn very_many_runs_are_merged_in_groups() {
    let input = pairs(900);
    let op = SortOperator::new(&schema(), &specs(true), 0).unwrap();
    let (got, reads) = run(op, &input);
    let mut want = input.clone();
    want.sort();
    assert_eq!(got, want);
    assert!(reads > 200);
}

#[test]
fn an_empty_input_has_no_rows() {
    let op = SortOperator::new(&schema(), &specs(true), 1000).unwrap();
    assert_eq!(run(op, &[]), (vec![], 0));
}

#[test]
fn sorting_by_an_unknown_column_is_an_error() {
    let bad = vec![SortSpec { column_name: "z".to_string(), ascending: true }];
    assert_eq!(
        SortOperator::new(&schema(), &bad, 1000).err(),
        Some(DbError::ColumnNotFound("z".to_string()))
    );
    let keys = resolve_sort_specs(&schema(), &specs(false)).unwrap();
    assert_eq!((keys[0].idx, keys[0].ascending, keys[1].idx), (0, false, 1));
}

#[test]
fn a_row_of_another_length_ends_the_sort() {
    let mut op = SortOperator::new(&schema(), &specs(true), 1000).unwrap();
    let mut storage = TempStorageManager::new(SIZE).unwrap();
    assert!(matches!(op.step(&mut storage), Ok(SortStep::Pull)));
    assert_eq!(
        op.feed(Some(Row::new(vec![Data::Int32(1)])), &mut storage).err(),
        Some(DbError::RowSchemaMismatch(1, 2))
    );
}

#[test]
fn rows_are_compared_key_by_key() {
    let keys = [SortKey { idx: 1, ascending: false }, SortKey { idx: 0, ascending: true }];
    assert_eq!(compare_rows(&keys, &row(1, 5), &row(2, 4)), Comparison::Less);
    assert_eq!(compare_rows(&keys, &row(2, 4), &row(1, 4)), Comparison::Greater);
    assert_eq!(compare_rows(&keys, &row(2, 4), &row(2, 4)), Comparison::Equal);
    let mut rows = VecDeque::new();
    for k in [3, 1, 2] {
        rows.push_back(row(k, 0));
    }
    let sorted = sort_rows(rows, &[SortKey { idx: 0, ascending: true }]);
    let ks: Vec<String> = sorted.iter().map(|r| format!("{:?}", r.values()[0])).collect();
    assert_eq!(ks, vec!["Int64(1)", "Int64(2)", "Int64(3)"]);
}

#[test]
fn the_memory_of_a_sort_is_divided() {
    assert_eq!(choose_sort_spill_batch_pages(1 << 20, 4096), 32);
    assert_eq!(choose_sort_spill_batch_pages(0, 4096), 4);
    assert_eq!(choose_sort_spill_batch_pages(1 << 40, 4096), 512);
    assert_eq!(sort_writer_reserve_bytes(1 << 20, 4096), 33 * 4096 + (1 << 18));
    assert_eq!(sort_row_budget_bytes(1 << 20, 4096), (1 << 20) - 33 * 4096 - (1 << 18));
    assert_eq!(sort_row_budget_bytes(0, 4096), 4096);
    assert_eq!(sort_merge_reader_budget_bytes(1 << 20, 4096), 1 << 18);
    assert_eq!(sort_merge_reader_budget_bytes(1 << 30, 4096), 128 * 4096);
    assert_eq!(choose_sort_merge_fan_in(1 << 20, 4096), 8);
    assert_eq!(choose_sort_merge_fan_in(0, 4096), 2);
    assert_eq!(choose_merge_reader_pages(1 << 20, 4096, 4), 16);
    assert_eq!(choose_merge_reader_pages(1 << 20, 4096, 0), 16);
    assert_eq!(choose_merge_reader_pages(1 << 20, 4096, 1000), 1);
    assert_eq!(projected_vec_capacity_after_push(3, 8), 8);
    assert_eq!(projected_vec_capacity_after_push(8, 8), 16);
    assert_eq!(projected_vec_capacity_after_push(0, 0), 4);
}

use exocore::adaptive_join::{prefer_build_left, should_use_sort_merge, AdaptiveEquiJoinOperator};
use exocore::adaptive_plan::{choose_adaptive_partitions, choose_hybrid_resident_budget_bytes, choose_in_memory_build_budget_bytes, estimated_row_width_bytes, sort_merge_threshold_bytes};
use exocore::adaptive_spec::{JoinOutputMode, SemijoinKeepSide};
use exocore::error::DbError;
use exocore::hash_join::HashJoinOperator;
use exocore::join_builder::{build_adaptive_join, build_join, build_join_hinted, build_semijoin_hinted, JoinOperator};
use exocore::join_plan::{choose_bnlj_outer_batch_bytes, choose_hash_build_budget_bytes, choose_num_partitions, choose_writer_batch, split_join_predicates};
use exocore::join_step::{JoinStep, Side};
use exocore::key_ordering::{compare_join_keys, compare_same_side_keys};
use exocore::floats::Comparison;
use exocore::loop_join::BlockNestedLoopJoinOperator;
use exocore::memory::QueryMemoryManager;
use exocore::query::{ComparisionOperator, ComparisionValue, Predicate};
use exocore::row::{Row, RowSchema};
use exocore::temp_storage::{TempFileId, TempStorageManager};
use exocore::value::Data;
use std::collections::HashMap;

const SIZE: usize = 256;

struct Bench {
    storage: TempStorageManager,
    memory: QueryMemoryManager,
    disk: HashMap<u64, Vec<u8>>,
    reads: usize,
}

impl Bench {
    fn new(budget: usize) -> Bench {
        Bench {
            storage: TempStorageManager::new(SIZE).unwrap(),
            memory: QueryMemoryManager::new(budget),
            disk: HashMap::new(),
            reads: 0,
        }
    }

    fn flush(&mut self) {
        for w in self.storage.take_writes() {
            for i in 0..w.range.num_blocks {
                let at = i as usize * SIZE;
                self.disk.insert(w.range.start_block + i, w.data[at..at + SIZE].to_vec());
            }
        }
    }

    fn read(&mut self, ranges: &[exocore::temp_storage::BlockRange]) -> Vec<u8> {
        self.flush();
        let mut data = Vec::new();
        for r in ranges {
            for b in r.start_block..r.start_block + r.num_blocks {
                data.extend_from_slice(&self.disk[&b]);
                self.reads += 1;
            }
        }
        data
    }
}

fn schema(ns: &[&str]) -> RowSchema {
    RowSchema::new(ns.iter().map(|n| n.to_string()).collect())
}

fn pred(l: &str, operator: ComparisionOperator, r: &str) -> Predicate {
    Predicate {
        column_name: l.to_string(),
        operator,
        value: ComparisionValue::Column(r.to_string()),
    }
}

fn row(k: i32, tag: &str) -> Row {
    Row::new(vec![Data::Int32(k), Data::String(tag.to_string())])
}

fn show(r: &Row) -> String {
    format!("{:?}", r.values())
}

fn many(n: i32, modulo: i32, tag: &str) -> Vec<Row> {
    (0..n).map(|i| row(i % modulo, &format!("{tag}{i}"))).collect()
}

fn expected(left: &[Row], right: &[Row], mode: JoinOutputMode) -> Vec<String> {
    let mut out = Vec::new();
    match mode {
        JoinOutputMode::Full => {
            for l in left {
                for r in right {
                    if l.get(0) == r.get(0) {
                        out.push(show(&Row::merge(l, r)));
                    }
                }
            }
        }
        JoinOutputMode::KeepLeft => {
            for l in left {
                if right.iter().any(|r| l.get(0) == r.get(0)) {
                    out.push(show(l));
                }
            }
        }
        JoinOutputMode::KeepRight => {
            for r in right {
                if left.iter().any(|l| l.get(0) == r.get(0)) {
                    out.push(show(r));
                }
            }
        }
    }
    out.sort();
    out
}

fn run_plain(mut op: JoinOperator, left: &[Row], right: &[Row], bench: &mut Bench) -> Vec<String> {
    let mut l = left.iter();
    let mut r = right.iter();
    let mut out = Vec::new();
    loop {
        match op.step(&mut bench.storage).unwrap() {
            JoinStep::NeedAnonStart => bench.storage.init_anon_region(50),
            JoinStep::Pull(Side::Left) => op.feed(Side::Left, l.next().cloned(), &mut bench.storage).unwrap(),
            JoinStep::Pull(Side::Right) => op.feed(Side::Right, r.next().cloned(), &mut bench.storage).unwrap(),
            JoinStep::Need(ranges) => {
                let data = bench.read(&ranges);
                op.supply(data, &bench.storage).unwrap();
            }
            JoinStep::Again => {}
            JoinStep::Row(row) => out.push(show(&row)),
            JoinStep::Done => break,
        }
    }
    out.sort();
    out
}

fn run_adaptive(mut op: AdaptiveEquiJoinOperator, left: &[Row], right: &[Row], bench: &mut Bench) -> Vec<String> {
    let mut l = left.iter();
    let mut r = right.iter();
    let mut out = Vec::new();
    loop {
        match op.step(&mut bench.memory, &mut bench.storage).unwrap() {
            JoinStep::NeedAnonStart => bench.storage.init_anon_region(50),
            JoinStep::Pull(side) => {
                let next = match side {
                    Side::Left => l.next().cloned(),
                    Side::Right => r.next().cloned(),
                };
                op.feed(side, next, &mut bench.memory, &mut bench.storage).unwrap();
            }
            JoinStep::Need(ranges) => {
                let data = bench.read(&ranges);
                op.supply(data, &bench.storage).unwrap();
            }
            JoinStep::Again => {}
            JoinStep::Row(row) => out.push(show(&row)),
            JoinStep::Done => break,
        }
    }
    assert_eq!(bench.memory.used_bytes(), 0);
    out.sort();
    out
}

fn adaptive(op: JoinOperator) -> AdaptiveEquiJoinOperator {
    match op {
        JoinOperator::Adaptive(a) => a,
        _ => panic!("an adaptive join was expected"),
    }
}

#[test]
fn equalities_between_the_sides_are_keys() {
    let l = schema(&["a", "b"]);
    let r = schema(&["c", "d"]);
    let ps = [
        pred("c", ComparisionOperator::EQ, "a"),
        pred("a", ComparisionOperator::EQ, "b"),
        pred("b", ComparisionOperator::LT, "d"),
        pred("b", ComparisionOperator::EQ, "d"),
    ];
    let (lk, rk, extra) = split_join_predicates(&l, &r, &ps);
    assert_eq!((lk, rk), (vec![0, 1], vec![0, 1]));
    assert_eq!(extra.len(), 2);
    assert_eq!(extra[1].column_name, "b");
}

#[test]
fn the_predicates_choose_the_join() {
    let l = schema(&["a"]);
    let r = schema(&["b"]);
    let eq = [pred("a", ComparisionOperator::EQ, "b")];
    let lt = [pred("a", ComparisionOperator::LT, "b")];
    assert!(matches!(build_join(&l, &r, &eq, 1 << 20), Ok(JoinOperator::Hash(_))));
    assert!(matches!(build_join(&l, &r, &lt, 1 << 20), Ok(JoinOperator::Loop(_))));
    assert!(matches!(build_join(&l, &r, &[], 1 << 20), Ok(JoinOperator::Loop(_))));
    let bad = [pred("a", ComparisionOperator::LT, "zz")];
    assert_eq!(
        build_join(&l, &r, &bad, 1 << 20).err(),
        Some(DbError::ColumnNotFound("zz".to_string()))
    );
}

#[test]
fn a_hash_join_gives_the_join_of_its_inputs() {
    let left = many(300, 40, "l");
    let right = many(200, 60, "r");
    let op = build_join(
        &schema(&["a", "s"]),
        &schema(&["b", "t"]),
        &[pred("a", ComparisionOperator::EQ, "b")],
        4096,
    )
    .unwrap();
    let mut bench = Bench::new(1 << 20);
    let got = run_plain(op, &left, &right, &mut bench);
    assert_eq!(got, expected(&left, &right, JoinOutputMode::Full));
    assert!(bench.reads > 0);
}

#[test]
fn a_hash_join_of_one_key_falls_back_to_a_nested_loop() {
    let left = many(120, 1, "l");
    let right = many(9, 1, "r");
    let op = HashJoinOperator::new(
        &schema(&["a", "s"]),
        &schema(&["b", "t"]),
        vec![0],
        vec![0],
        &[],
        512,
    )
    .unwrap();
    assert_eq!(op.schema().len(), 4);
    let mut bench = Bench::new(1 << 20);
    let got = run_plain(JoinOperator::Hash(op), &left, &right, &mut bench);
    assert_eq!(got.len(), 120 * 9);
    assert_eq!(got, expected(&left, &right, JoinOutputMode::Full));
}

#[test]
fn keys_of_different_types_do_not_meet() {
    let left = vec![Row::new(vec![Data::Int32(1)])];
    let right = vec![Row::new(vec![Data::Int64(1)])];
    let op = build_join(&schema(&["a"]), &schema(&["b"]), &[pred("a", ComparisionOperator::EQ, "b")], 4096).unwrap();
    assert!(run_plain(op, &left, &right, &mut Bench::new(1)).is_empty());
}

#[test]
fn conditions_that_are_no_keys_are_tested_too() {
    let left = many(30, 5, "x");
    let right = many(30, 5, "x");
    let op = build_join(
        &schema(&["a", "s"]),
        &schema(&["b", "t"]),
        &[
            pred("a", ComparisionOperator::EQ, "b"),
            pred("s", ComparisionOperator::EQ, "t"),
            pred("s", ComparisionOperator::NE, "t"),
        ],
        4096,
    )
    .unwrap();
    assert!(run_plain(op, &left, &right, &mut Bench::new(1)).is_empty());
}

#[test]
fn a_nested_loop_tests_every_pair() {
    let left = many(50, 50, "l");
    let right = many(40, 40, "r");
    for (lh, rh) in [(1.0f64, 2.0f64), (5.0, 2.0)] {
        let op = BlockNestedLoopJoinOperator::new(
            &schema(&["a", "s"]),
            &schema(&["b", "t"]),
            &[pred("a", ComparisionOperator::GT, "b")],
            Some(lh.to_bits()),
            Some(rh.to_bits()),
            1024,
        )
        .unwrap();
        let got = run_plain(JoinOperator::Loop(op), &left, &right, &mut Bench::new(1));
        let want: usize = (0..50).map(|a: usize| a.min(40)).sum();
        assert_eq!(got.len(), want);
    }
    let cross = build_join_hinted(
        &schema(&["a", "s"]),
        &schema(&["b", "t"]),
        &[],
        3.0f64.to_bits(),
        2.0f64.to_bits(),
        1024,
    )
    .unwrap();
    assert_eq!(run_plain(cross, &left[..7], &right[..5], &mut Bench::new(1)).len(), 35);
}

#[test]
fn rows_of_the_wrong_length_are_turned_down() {
    let mut op = build_join(&schema(&["a"]), &schema(&["b"]), &[], 4096).unwrap();
    let mut bench = Bench::new(1);
    bench.storage.init_anon_region(0);
    let side = match op.step(&mut bench.storage).unwrap() {
        JoinStep::Pull(side) => side,
        _ => panic!("a row should be asked for"),
    };
    assert_eq!(
        op.feed(side, Some(row(1, "x")), &mut bench.storage).err(),
        Some(DbError::RowSchemaMismatch(2, 1))
    );
}

#[test]
fn an_adaptive_join_works_with_any_amount_of_memory() {
    let left = many(300, 45, "l");
    let right = many(260, 70, "r");
    for run_bytes in [1usize << 22, 1 << 16, 4096] {
        let op = build_adaptive_join(
            &schema(&["a", "s"]),
            &schema(&["b", "t"]),
            &[pred("a", ComparisionOperator::EQ, "b")],
            Some(300.0f64.to_bits()),
            Some(260.0f64.to_bits()),
            false,
            JoinOutputMode::Full,
            run_bytes,
        )
        .unwrap();
        let mut bench = Bench::new(1 << 22);
        let got = run_adaptive(adaptive(op), &left, &right, &mut bench);
        assert_eq!(got, expected(&left, &right, JoinOutputMode::Full), "{run_bytes}");
    }
}

fn run_to_error(mut op: AdaptiveEquiJoinOperator, left: &[Row], right: &[Row]) -> Option<DbError> {
    let mut bench = Bench::new(1 << 22);
    let mut l = left.iter();
    let mut r = right.iter();
    loop {
        match op.step(&mut bench.memory, &mut bench.storage) {
            Ok(JoinStep::NeedAnonStart) => bench.storage.init_anon_region(50),
            Ok(JoinStep::Pull(side)) => {
                let next = match side {
                    Side::Left => l.next().cloned(),
                    Side::Right => r.next().cloned(),
                };
                if let Err(e) = op.feed(side, next, &mut bench.memory, &mut bench.storage) {
                    return Some(e);
                }
            }
            Ok(JoinStep::Need(ranges)) => {
                let data = bench.read(&ranges);
                op.supply(data, &bench.storage).unwrap();
            }
            Ok(JoinStep::Done) => return None,
            Ok(_) => {}
            Err(e) => return Some(e),
        }
    }
}

#[test]
fn a_join_in_memory_needs_no_temporary_storage() {
    for (run_bytes, asks) in [(1usize << 22, 0), (4096, 1)] {
        let mut op = adaptive(
            build_adaptive_join(
                &schema(&["a", "s"]),
                &schema(&["b", "t"]),
                &[pred("a", ComparisionOperator::EQ, "b")],
                None,
                None,
                false,
                JoinOutputMode::Full,
                run_bytes,
            )
            .unwrap(),
        );
        let left = many(300, 45, "l");
        let right = many(300, 45, "r");
        let (mut l, mut r) = (left.iter(), right.iter());
        let mut bench = Bench::new(1 << 22);
        let (mut asked, mut rows) = (0, 0);
        loop {
            match op.step(&mut bench.memory, &mut bench.storage).unwrap() {
                JoinStep::NeedAnonStart => {
                    asked += 1;
                    bench.storage.init_anon_region(50);
                }
                JoinStep::Pull(Side::Left) => {
                    op.feed(Side::Left, l.next().cloned(), &mut bench.memory, &mut bench.storage).unwrap()
                }
                JoinStep::Pull(Side::Right) => {
                    op.feed(Side::Right, r.next().cloned(), &mut bench.memory, &mut bench.storage).unwrap()
                }
                JoinStep::Need(ranges) => {
                    let data = bench.read(&ranges);
                    op.supply(data, &bench.storage).unwrap();
                }
                JoinStep::Again => {}
                JoinStep::Row(_) => rows += 1,
                JoinStep::Done => break,
            }
        }
        assert_eq!(asked, asks, "{run_bytes}");
        assert_eq!(rows, expected(&left, &right, JoinOutputMode::Full).len());
    }
}

#[test]
fn only_rows_with_equal_keys_are_tested_by_an_adaptive_join() {
    let tests = [
        pred("a", ComparisionOperator::EQ, "b"),
        pred("s", ComparisionOperator::LT, "b"),
    ];
    for (both_large, run_bytes) in [(false, 1usize << 22), (false, 4096), (true, 4096)] {
        for (shift, want) in [(0, Some(DbError::IncomparableValues)), (1000, None)] {
            let op = build_adaptive_join(
                &schema(&["a", "s"]),
                &schema(&["b", "t"]),
                &tests,
                Some(300.0f64.to_bits()),
                Some(260.0f64.to_bits()),
                both_large,
                JoinOutputMode::Full,
                run_bytes,
            )
            .unwrap();
            let left = many(300, 45, "l");
            let right: Vec<Row> = (0..260).map(|i| row(i % 70 + shift, "r")).collect();
            assert_eq!(run_to_error(adaptive(op), &left, &right), want, "{both_large} {run_bytes}");
        }
    }
}

#[test]
fn a_row_too_large_for_a_page_ends_only_a_join_that_stores_it() {
    for (run_bytes, fits) in [(1usize << 22, true), (4096, false)] {
        let op = build_adaptive_join(
            &schema(&["a", "s"]),
            &schema(&["b", "t"]),
            &[pred("a", ComparisionOperator::EQ, "b")],
            Some(300.0f64.to_bits()),
            Some(400.0f64.to_bits()),
            false,
            JoinOutputMode::Full,
            run_bytes,
        )
        .unwrap();
        let mut left = many(300, 45, "l");
        left.push(row(1, &"x".repeat(2 * SIZE)));
        let right = many(400, 70, "r");
        match run_to_error(adaptive(op), &left, &right) {
            None => assert!(fits),
            Some(e) => assert!(!fits && matches!(e, DbError::RowTooLarge { .. })),
        }
    }
}

#[test]
fn an_adaptive_join_of_large_inputs_merges() {
    let left = many(200, 30, "l");
    let right = many(150, 50, "r");
    let op = build_adaptive_join(
        &schema(&["a", "s"]),
        &schema(&["b", "t"]),
        &[pred("a", ComparisionOperator::EQ, "b")],
        Some(200.0f64.to_bits()),
        Some(150.0f64.to_bits()),
        true,
        JoinOutputMode::Full,
        4096,
    )
    .unwrap();
    let got = run_adaptive(adaptive(op), &left, &right, &mut Bench::new(1 << 22));
    assert_eq!(got, expected(&left, &right, JoinOutputMode::Full));
}

#[test]
fn a_semijoin_keeps_the_rows_of_one_side() {
    let left = many(120, 45, "l");
    let right = many(100, 70, "r");
    for (keep, mode) in [
        (SemijoinKeepSide::Left, JoinOutputMode::KeepLeft),
        (SemijoinKeepSide::Right, JoinOutputMode::KeepRight),
    ] {
        let op = build_semijoin_hinted(
            &schema(&["a", "s"]),
            &schema(&["b", "t"]),
            &[pred("a", ComparisionOperator::EQ, "b")],
            keep,
            120.0f64.to_bits(),
            100.0f64.to_bits(),
            1 << 22,
        )
        .unwrap();
        let got = run_adaptive(adaptive(op), &left, &right, &mut Bench::new(1 << 22));
        assert_eq!(got, expected(&left, &right, mode));
    }
}

#[test]
fn a_join_at_its_end_leaves_no_temporary_files() {
    let left = many(300, 40, "l");
    let right = many(200, 60, "r");
    for operator in [ComparisionOperator::EQ, ComparisionOperator::LT] {
        for run_bytes in [1usize << 20, 4096, 512] {
            let op = build_join(
                &schema(&["a", "s"]),
                &schema(&["b", "t"]),
                &[pred("a", operator, "b")],
                run_bytes,
            )
            .unwrap();
            let mut bench = Bench::new(1 << 22);
            assert!(!run_plain(op, &left, &right, &mut bench).is_empty());
            for f in 0..2000u64 {
                assert!(bench.storage.num_pages(TempFileId(f)).is_err(), "{run_bytes}: {f}");
            }
        }
    }
}

#[test]
fn a_semijoin_keeps_the_same_rows_where_it_spills() {
    let left = many(900, 90, "left-side-row");
    let right = many(700, 150, "right-side-row");
    for run_bytes in [1usize << 14, 4096, 512] {
        for (keep, mode) in [
            (SemijoinKeepSide::Left, JoinOutputMode::KeepLeft),
            (SemijoinKeepSide::Right, JoinOutputMode::KeepRight),
        ] {
            let op = build_semijoin_hinted(
                &schema(&["a", "s"]),
                &schema(&["b", "t"]),
                &[pred("a", ComparisionOperator::EQ, "b")],
                keep,
                900.0f64.to_bits(),
                700.0f64.to_bits(),
                run_bytes,
            )
            .unwrap();
            let got = run_adaptive(adaptive(op), &left, &right, &mut Bench::new(1 << 22));
            assert_eq!(got, expected(&left, &right, mode), "{run_bytes}");
        }
    }
}

#[test]
fn hints_choose_the_build_side() {
    let small = Some(10.0f64.to_bits());
    let large = Some(20.0f64.to_bits());
    assert!(prefer_build_left(JoinOutputMode::Full, small, large));
    assert!(!prefer_build_left(JoinOutputMode::Full, large, small));
    assert!(!prefer_build_left(JoinOutputMode::KeepLeft, small, large));
    assert!(prefer_build_left(JoinOutputMode::KeepRight, large, small));
    assert!(should_use_sort_merge(JoinOutputMode::Full, small, large, true));
    assert!(!should_use_sort_merge(JoinOutputMode::Full, None, large, true));
    assert!(!should_use_sort_merge(JoinOutputMode::KeepLeft, small, large, true));
}

#[test]
fn budgets_are_shares_of_the_memory() {
    let mb = 1usize << 20;
    assert_eq!(choose_num_partitions(4 * mb, 4096), 8);
    assert_eq!(choose_num_partitions(0, 4096), 8);
    assert_eq!(choose_num_partitions(1 << 40, 4096), 32);
    assert!(choose_writer_batch(4 * mb, 4096, 8) >= 1);
    assert!(choose_hash_build_budget_bytes(64 * mb, 4096) >= 4096);
    assert!(choose_bnlj_outer_batch_bytes(64 * mb, 4096) <= 64 * 4096);
    assert!(choose_adaptive_partitions(64 * mb, 4096) >= 4);
    assert!(choose_adaptive_partitions(1 << 40, 4096) <= 20);
    assert!(choose_in_memory_build_budget_bytes(9 * mb, 4096) <= 9 * mb);
    assert!(choose_hybrid_resident_budget_bytes(12 * mb, 4096) <= 12 * mb);
    assert_eq!(sort_merge_threshold_bytes(100, 4096), 4 * 4096);
    assert_eq!(estimated_row_width_bytes(3), 32 + 3 * 24);
}

#[test]
fn key_columns_are_compared_in_order() {
    let a = Row::new(vec![Data::Int32(1), Data::Int32(5)]);
    let b = Row::new(vec![Data::Int32(5), Data::Int32(1)]);
    assert_eq!(compare_join_keys(&a, &b, &[0, 1], &[1, 0]), Comparison::Equal);
    assert_eq!(compare_join_keys(&a, &b, &[0], &[0]), Comparison::Less);
    assert_eq!(compare_same_side_keys(&a, &b, &[1]), Comparison::Greater);
}

use exocore::context::{megabytes, query_budget_for, sort_run_bytes_for};
use exocore::error::DbError;
use exocore::lines::{chars_of, line_bounds, parse_u64, split_bounds, split_words, trim};
use exocore::metrics::{csv_escape, db_mem_metrics_line, disk_metrics_line, fmt_opt_u64, mem_status_of, metrics_header, metrics_row, parse_db_mem_metrics, parse_disk_metrics, parse_status_kb, DbMemMetricsRow, DiskMetricsRow, MetricsError};
use exocore::protocol::{anon_start_block_command, block_size_command, file_num_blocks_command, file_start_block_command, get_anon_start_block, get_block_size, get_blocks_command, get_file_num_blocks, get_file_start_block, get_memory_limit, put_blocks_command, read_size};
use exocore::streaming::StreamingCatalog;
use exocore::validation::{read_command, MonitorCommand, PresortedCheck, SortedCheck, ValidationError};
use exocore::value::Data;

#[test]
fn text_is_trimmed_like_the_standard_library_does() {
    for s in ["", " ", "a", " a b \t\n", "\u{a0}x\u{2003}", "\u{200b}x", "\u{3000}\u{85}y\u{1680}"] {
        assert_eq!(trim(s), s.trim(), "{s:?}");
        let words: Vec<&str> = s.split_whitespace().collect();
        assert_eq!(split_words(s), words, "{s:?}");
    }
}

#[test]
fn lines_are_split_like_the_standard_library_does() {
    for s in ["", "\n", "a", "a\n", "a\r\nb\rc\n\nd\r", "\r\n", "x\r\r\ny"] {
        let chars = chars_of(s);
        let got: Vec<String> = line_bounds(&chars)
            .iter()
            .map(|(a, b)| chars[*a..*b].iter().collect())
            .collect();
        let want: Vec<&str> = s.lines().collect();
        assert_eq!(got, want, "{s:?}");
        let parts: Vec<String> = split_bounds(&chars, 0, chars.len(), '\n')
            .iter()
            .map(|(a, b)| chars[*a..*b].iter().collect())
            .collect();
        let want: Vec<&str> = s.split('\n').collect();
        assert_eq!(parts, want, "{s:?}");
    }
}

#[test]
fn numbers_are_parsed_like_the_standard_library_does() {
    for s in ["", "+", "-1", "0", "007", "+7", "1 ", "18446744073709551615", "18446744073709551616", "99999999999999999999999", "1x"] {
        let chars = chars_of(s);
        assert_eq!(parse_u64(&chars, 0, chars.len()), s.parse::<u64>().ok(), "{s:?}");
    }
}

#[test]
fn the_disk_is_asked_in_its_language() {
    assert_eq!(block_size_command(), "get block-size\n");
    assert_eq!(anon_start_block_command(), "get anon-start-block\n");
    assert_eq!(file_start_block_command("t.bin"), "get file start-block t.bin\n");
    assert_eq!(file_num_blocks_command("t.bin"), "get file num-blocks t.bin\n");
    assert_eq!(get_blocks_command(12, 3), "get block 12 3\n");
    assert_eq!(put_blocks_command(12, 3), "put block 12 3\n");
}

#[test]
fn answers_are_numbers() {
    assert_eq!(get_block_size("4096\n"), Ok(4096));
    assert_eq!(get_file_start_block(" 17 \r\n"), Ok(17));
    assert_eq!(get_file_num_blocks("0\n"), Ok(0));
    assert_eq!(get_anon_start_block("99"), Ok(99));
    assert_eq!(get_memory_limit("64\n"), Ok(64));
    assert_eq!(
        get_memory_limit("4294967296\n"),
        Err(DbError::InvalidAnswer("4294967296\n".to_string()))
    );
    assert_eq!(get_block_size("many\n"), Err(DbError::InvalidAnswer("many\n".to_string())));
    assert_eq!(read_size(3, 4096), Some(12288));
    assert_eq!(read_size(u64::MAX, 4096), None);
}

#[test]
fn commands_of_the_database_are_understood() {
    assert_eq!(read_command("get_memory_limit\n", 17), Some(MonitorCommand::GetMemoryLimit));
    assert_eq!(read_command("  VALIDATE now\n", 16), Some(MonitorCommand::Validate));
    assert_eq!(read_command("Quit\n", 5), Some(MonitorCommand::Unknown("Quit".to_string())));
    assert_eq!(read_command(" \n", 2), None);
    assert_eq!(read_command("", 0), Some(MonitorCommand::Ended));
}

#[test]
fn rows_in_order_are_compared_line_by_line() {
    let mut c = PresortedCheck::new();
    assert_eq!(c.offer("1|a|\n", " 1|a|\r\n"), Ok(false));
    assert_eq!(c.offer("", "!\n"), Ok(true));
    assert_eq!(
        PresortedCheck::new().offer("", "more\n"),
        Err(ValidationError::ExpectedEnd("more\n".to_string()))
    );
    let mut c = PresortedCheck::new();
    assert_eq!(c.offer("1\n", "1\n"), Ok(false));
    assert_eq!(
        c.offer("2\n", "3\n"),
        Err(ValidationError::RowMismatch {
            expected: "2\n".to_string(),
            found: "3\n".to_string(),
            line: Some(2),
        })
    );
}

fn check(expected: &[&str], found: &[&str]) -> Result<(), ValidationError> {
    let mut c = SortedCheck::new();
    for e in expected {
        if !c.expect(e) {
            break;
        }
    }
    for f in found {
        if c.offer(f)? {
            return c.finish();
        }
    }
    panic!("the rows have no end");
}

#[test]
fn rows_in_any_order_are_compared_as_a_whole() {
    assert_eq!(check(&["b\n", "a\n", "a\n", ""], &["a\n", "b\n", "a\n", "!\n"]), Ok(()));
    assert_eq!(
        check(&["b\n", "a\n", "c\n"], &["d\n", "b\n", "a\n", "!\n"]),
        Err(ValidationError::RowMismatch {
            expected: "c".to_string(),
            found: "d".to_string(),
            line: None,
        })
    );
    assert_eq!(
        check(&["a\n", "b\n"], &["a\n", "!\n"]),
        Err(ValidationError::RowCountMismatch { expected_rows: 2, found_rows: 1 })
    );
    assert_eq!(
        check(&["a\n"], &["a\n", "b\n"]),
        Err(ValidationError::AdditionalRow("b\n".to_string()))
    );
    assert_eq!(check(&["a\n"], &["  \n"]), Err(ValidationError::EmptyLine));
}

fn disk_row() -> DiskMetricsRow {
    DiskMetricsRow {
        total_reads: 1,
        total_writes: 20,
        total_blocks_processed: 300,
        total_cylinders_traveled: 4000,
        total_io_time_us: 5,
        total_seek_time_us: u64::MAX,
        total_rotational_latency_us: 0,
        total_transfer_time_us: 8,
    }
}

#[test]
fn disk_metrics_are_read_back() {
    let line = disk_metrics_line(&disk_row());
    assert_eq!(
        line,
        "DISK_IO_METRICS,total_reads=1,total_writes=20,total_blocks_processed=300,total_cylinders_traveled=4000,total_io_time_us=5,total_seek_time_us=18446744073709551615,total_rotational_latency_us=0,total_transfer_time_us=8"
    );
    assert_eq!(parse_disk_metrics(&format!("noise\n{line}\nmore")), Ok(disk_row()));
    assert_eq!(parse_disk_metrics("nothing"), Err(MetricsError::LineMissing));
    assert_eq!(
        parse_disk_metrics("DISK_IO_METRICS,total_reads"),
        Err(MetricsError::InvalidField("total_reads".to_string()))
    );
    assert_eq!(
        parse_disk_metrics("DISK_IO_METRICS,total_reads=x"),
        Err(MetricsError::InvalidValue { key: "total_reads".to_string(), value: "x".to_string() })
    );
    let other = parse_disk_metrics("DISK_IO_METRICS,unknown=5,total_reads=9").unwrap();
    assert_eq!((other.total_reads, other.total_writes), (9, 0));
}

#[test]
fn memory_metrics_are_read_back() {
    let m = DbMemMetricsRow {
        vm_peak_kb: Some(10),
        vm_size_kb: None,
        vm_hwm_kb: Some(0),
        vm_rss_kb: Some(7),
    };
    let line = db_mem_metrics_line(&m);
    assert_eq!(line, "DB_MEM_METRICS,vm_peak_kb=10,vm_size_kb=,vm_hwm_kb=0,vm_rss_kb=7");
    assert_eq!(parse_db_mem_metrics(&format!("{line}\n")), Ok(m));
    let none = parse_db_mem_metrics("nothing").unwrap();
    assert_eq!(none.vm_peak_kb, None);
    assert_eq!(
        parse_db_mem_metrics("DB_MEM_METRICS,vm_rss_kb=-1").err(),
        Some(MetricsError::InvalidValue { key: "vm_rss_kb".to_string(), value: "-1".to_string() })
    );
}

#[test]
fn the_status_of_a_process_tells_its_memory() {
    let text = "Name:\tdb\nVmPeak:\t  1234 kB\nVmSize:\t 1000 kB\nVmHWM:\t oops\nVmRSS:\t 77 kB\nVmRSS:\t 88 kB\n";
    let m = mem_status_of(text);
    assert_eq!(
        (m.vm_peak_kb, m.vm_size_kb, m.vm_hwm_kb, m.vm_rss_kb),
        (Some(1234), Some(1000), None, Some(77))
    );
    assert_eq!(parse_status_kb("VmPeak: 5", "VmPeak:"), Some(5));
    assert_eq!(parse_status_kb("VmPeak:", "VmPeak:"), None);
    assert_eq!(parse_status_kb("VmSize: 5", "VmPeak:"), None);
}

#[test]
fn the_table_of_metrics_has_a_row_for_each_run() {
    let m = DbMemMetricsRow { vm_peak_kb: Some(1), vm_size_kb: None, vm_hwm_kb: Some(3), vm_rss_kb: None };
    assert_eq!(
        metrics_row("a \"b\"", &disk_row(), &m, "12.500"),
        "\"a \"\"b\"\"\",1,20,300,4000,5,18446744073709551615,0,8,1,,3,,12.500"
    );
    assert_eq!(metrics_header().split(',').count(), 14);
    assert_eq!(csv_escape(""), "\"\"");
    assert_eq!(fmt_opt_u64(Some(42)), "42");
    assert_eq!(fmt_opt_u64(None), "");
}

#[test]
fn budgets_come_from_the_memory_limit() {
    assert_eq!(megabytes(64), Some(64 << 20));
    assert_eq!(megabytes(u64::MAX), None);
    assert_eq!(sort_run_bytes_for(64 << 20, 4096), ((64 << 20) - 8192) * 4 / 5);
    assert_eq!(sort_run_bytes_for(0, 4096), 4096);
    assert_eq!(query_budget_for(64 << 20, 4096), (60 << 20) - 8192);
    assert_eq!(query_budget_for(1 << 30, 4096), (1 << 30) - 8192 - (8 << 20));
    assert_eq!(query_budget_for(1 << 20, 4096), 4096);
}

#[test]
fn statistics_follow_the_values() {
    let mut c = StreamingCatalog::new();
    let names = vec!["x".to_string(), "y".to_string()];
    c.init_table("t", &names);
    for v in [3i32, 5, 5] {
        c.observe("t", 0, &Data::Int32(v));
        c.count_row("t");
    }
    for v in [2i32, 9, 4] {
        c.observe("t", 1, &Data::Int32(v));
    }
    c.observe("t", 7, &Data::Int32(0));
    c.observe("u", 0, &Data::Int32(0));
    c.init_table("t", &[]);
    let x = c.get_column("t", "x").unwrap();
    assert!(x.min_val == Some(Data::Int32(3)) && x.max_val == Some(Data::Int32(5)));
    let y = c.get_column("t", "y").unwrap();
    assert!(y.min_val == Some(Data::Int32(2)) && y.max_val == Some(Data::Int32(9)));
    assert_eq!(c.is_ordered("t", "x"), Some(true));
    assert_eq!(c.is_ordered("t", "y"), Some(false));
    assert_eq!(c.is_ordered("t", "z"), None);
    assert_eq!(c.row_count("t"), Some(3));
    assert_eq!(c.row_count("u"), None);
    assert_eq!(c.get_table("t").unwrap().columns.len(), 2);
    c.init_table("v", &names);
    c.count_row("v");
    assert_eq!(c.is_ordered("v", "x"), None);
}

#[test]
fn the_database_runs_with_no_less_than_the_least_memory() {
    assert!(!exocore::validation::memory_limit_suffices(63));
    assert!(exocore::validation::memory_limit_suffices(64));
    assert!(exocore::validation::memory_limit_suffices(u64::MAX));
}

//! What is told of a run: the disk's work, the memory of the database, and the table of both.

use vstd::prelude::*;
use vstd::string::{StrSliceExecFns, StringExecFns};
use crate::lines::{bounds_within, chars_of, find, find_char, is_part, line_bounds, lines_of, parse_u64, parts_of, split_bounds, split_on, split_words, starts_with, u64_of, words};
use crate::text::{append_digits, digits};
use crate::views::texts;

verus! {

/// The work of the disk in a run.
#[derive(Clone, Copy, Debug, PartialEq, Eq, Structural)]
pub struct DiskMetricsRow {
    pub total_reads: u64,
    pub total_writes: u64,
    pub total_blocks_processed: u64,
    pub total_cylinders_traveled: u64,
    pub total_io_time_us: u64,
    pub total_seek_time_us: u64,
    pub total_rotational_latency_us: u64,
    pub total_transfer_time_us: u64,
}

/// The memory that a process used, as far as it is known, in kilobytes.
#[derive(Clone, Copy, Debug, PartialEq, Eq)]
pub struct DbMemMetricsRow {
    pub vm_peak_kb: Option<u64>,
    pub vm_size_kb: Option<u64>,
    pub vm_hwm_kb: Option<u64>,
    pub vm_rss_kb: Option<u64>,
}

/// Why metrics cannot be read.
#[derive(Debug, PartialEq, Eq)]
pub enum MetricsError {
    /// There is no line of metrics.
    LineMissing,
    /// A field without an equals sign.
    InvalidField(String),
    /// A field whose value is no number.
    InvalidValue { key: String, value: String },
}

/// What stands in a `MetricsError`.
pub enum MetricsIssue {
    LineMissing,
    InvalidField(Seq<char>),
    InvalidValue(Seq<char>, Seq<char>),
}

pub open spec fn issue_of(e: MetricsError) -> MetricsIssue {
    match e {
        MetricsError::LineMissing => MetricsIssue::LineMissing,
        MetricsError::InvalidField(f) => MetricsIssue::InvalidField(f@),
        MetricsError::InvalidValue { key, value } => MetricsIssue::InvalidValue(key@, value@),
    }
}

/// The first of some lines that starts with a text.
pub open spec fn first_starting(lines: Seq<Seq<char>>, prefix: Seq<char>) -> Option<Seq<char>>
    decreases lines.len(),
{
    if lines.len() == 0 {
        None
    } else if prefix.is_prefix_of(lines[0]) {
        Some(lines[0])
    } else {
        first_starting(lines.drop_first(), prefix)
    }
}

/// The metrics of no work.
pub open spec fn no_disk_metrics() -> DiskMetricsRow {
    DiskMetricsRow {
        total_reads: 0,
        total_writes: 0,
        total_blocks_processed: 0,
        total_cylinders_traveled: 0,
        total_io_time_us: 0,
        total_seek_time_us: 0,
        total_rotational_latency_us: 0,
        total_transfer_time_us: 0,
    }
}

/// Nothing known of a process's memory.
pub open spec fn no_mem_metrics() -> DbMemMetricsRow {
    DbMemMetricsRow { vm_peak_kb: None, vm_size_kb: None, vm_hwm_kb: None, vm_rss_kb: None }
}

/// Disk metrics with one of them set; other names are passed over.
pub open spec fn with_disk(row: DiskMetricsRow, key: Seq<char>, v: u64) -> DiskMetricsRow {
    if key == "total_reads"@ {
        DiskMetricsRow { total_reads: v, ..row }
    } else if key == "total_writes"@ {
        DiskMetricsRow { total_writes: v, ..row }
    } else if key == "total_blocks_processed"@ {
        DiskMetricsRow { total_blocks_processed: v, ..row }
    } else if key == "total_cylinders_traveled"@ {
        DiskMetricsRow { total_cylinders_traveled: v, ..row }
    } else if key == "total_io_time_us"@ {
        DiskMetricsRow { total_io_time_us: v, ..row }
    } else if key == "total_seek_time_us"@ {
        DiskMetricsRow { total_seek_time_us: v, ..row }
    } else if key == "total_rotational_latency_us"@ {
        DiskMetricsRow { total_rotational_latency_us: v, ..row }
    } else if key == "total_transfer_time_us"@ {
        DiskMetricsRow { total_transfer_time_us: v, ..row }
    } else {
        row
    }
}

/// Memory metrics with one of them set; other names are passed over.
pub open spec fn with_mem(row: DbMemMetricsRow, key: Seq<char>, v: Option<u64>) -> DbMemMetricsRow {
    if key == "vm_peak_kb"@ {
        DbMemMetricsRow { vm_peak_kb: v, ..row }
    } else if key == "vm_size_kb"@ {
        DbMemMetricsRow { vm_size_kb: v, ..row }
    } else if key == "vm_hwm_kb"@ {
        DbMemMetricsRow { vm_hwm_kb: v, ..row }
    } else if key == "vm_rss_kb"@ {
        DbMemMetricsRow { vm_rss_kb: v, ..row }
    } else {
        row
    }
}

/// The name of a field.
pub open spec fn key_of(field: Seq<char>) -> Seq<char> {
    field.take(find(field, '=') as int)
}

/// The value of a field.
pub open spec fn value_of(field: Seq<char>) -> Seq<char> {
    field.skip(find(field, '=') as int + 1)
}

/// An optional number: an empty text is none.
pub open spec fn optional_number(s: Seq<char>) -> Option<Option<u64>> {
    if s.len() == 0 {
        Some(None)
    } else {
        match u64_of(s) {
            Some(v) => Some(Some(v)),
            None => None,
        }
    }
}

/// The disk metrics that fields tell, one after the other.
pub open spec fn disk_row(fields: Seq<Seq<char>>) -> Result<DiskMetricsRow, MetricsIssue>
    decreases fields.len(),
{
    if fields.len() == 0 {
        Ok(no_disk_metrics())
    } else {
        let field = fields.last();
        match disk_row(fields.drop_last()) {
            Err(e) => Err(e),
            Ok(row) => if find(field, '=') >= field.len() {
                Err(MetricsIssue::InvalidField(field))
            } else {
                match u64_of(value_of(field)) {
                    Some(v) => Ok(with_disk(row, key_of(field), v)),
                    None => Err(MetricsIssue::InvalidValue(key_of(field), value_of(field))),
                }
            },
        }
    }
}

/// The memory metrics that fields tell, one after the other.
pub open spec fn mem_row(fields: Seq<Seq<char>>) -> Result<DbMemMetricsRow, MetricsIssue>
    decreases fields.len(),
{
    if fields.len() == 0 {
        Ok(no_mem_metrics())
    } else {
        let field = fields.last();
        match mem_row(fields.drop_last()) {
            Err(e) => Err(e),
            Ok(row) => if find(field, '=') >= field.len() {
                Err(MetricsIssue::InvalidField(field))
            } else {
                match optional_number(value_of(field)) {
                    Some(v) => Ok(with_mem(row, key_of(field), v)),
                    None => Err(MetricsIssue::InvalidValue(key_of(field), value_of(field))),
                }
            },
        }
    }
}

/// The disk metrics that a text tells: those of its first line of disk metrics.
pub open spec fn disk_metrics_in(text: Seq<char>) -> Result<DiskMetricsRow, MetricsIssue> {
    match first_starting(lines_of(text), "DISK_IO_METRICS,"@) {
        None => Err(MetricsIssue::LineMissing),
        Some(line) => disk_row(split_on(line, ',').drop_first()),
    }
}

/// The memory metrics that a text tells: those of its first line of memory metrics, or nothing
/// where it has none.
pub open spec fn mem_metrics_in(text: Seq<char>) -> Result<DbMemMetricsRow, MetricsIssue> {
    match first_starting(lines_of(text), "DB_MEM_METRICS,"@) {
        None => Ok(no_mem_metrics()),
        Some(line) => mem_row(split_on(line, ',').drop_first()),
    }
}

/// Finds the first line that starts with a text.
fn find_line(chars: &[char], prefix: &str) -> (r: Option<(usize, usize)>)
    ensures
        match r {
            Some(b) => b.0 <= b.1 <= chars@.len() && first_starting(lines_of(chars@), prefix@)
                == Some(chars@.subrange(b.0 as int, b.1 as int)),
            None => first_starting(lines_of(chars@), prefix@) is None,
        },
{
    let bounds = line_bounds(chars);
    let ghost lines = lines_of(chars@);
    let mut i: usize = 0;
    assert(lines.skip(0) =~= lines);
    while i < bounds.len()
        invariant
            i <= bounds@.len(),
            bounds_within(bounds@, chars@.len() as int),
            lines == lines_of(chars@),
            lines == parts_of(chars@, bounds@),
            first_starting(lines, prefix@) == first_starting(lines.skip(i as int), prefix@),
        decreases bounds@.len() - i,
    {
        let (a, b) = bounds[i];
        proof {
            assert(lines[i as int] == chars@.subrange(a as int, b as int));
            assert(lines.skip(i as int)[0] == lines[i as int]);
            assert(lines.skip(i as int).drop_first() =~= lines.skip(i + 1));
        }
        if starts_with(chars, a, b, prefix) {
            return Some((a, b));
        }
        i += 1;
    }
    assert(lines.skip(i as int) =~= Seq::<Seq<char>>::empty());
    None
}

fn set_disk(
    row: DiskMetricsRow,
    chars: &[char],
    from: usize,
    to: usize,
    v: u64,
) -> (r: DiskMetricsRow)
    requires
        from <= to <= chars@.len(),
    ensures
        r == with_disk(row, chars@.subrange(from as int, to as int), v),
{
    let mut row = row;
    if is_part(chars, from, to, "total_reads") {
        row.total_reads = v;
    } else if is_part(chars, from, to, "total_writes") {
        row.total_writes = v;
    } else if is_part(chars, from, to, "total_blocks_processed") {
        row.total_blocks_processed = v;
    } else if is_part(chars, from, to, "total_cylinders_traveled") {
        row.total_cylinders_traveled = v;
    } else if is_part(chars, from, to, "total_io_time_us") {
        row.total_io_time_us = v;
    } else if is_part(chars, from, to, "total_seek_time_us") {
        row.total_seek_time_us = v;
    } else if is_part(chars, from, to, "total_rotational_latency_us") {
        row.total_rotational_latency_us = v;
    } else if is_part(chars, from, to, "total_transfer_time_us") {
        row.total_transfer_time_us = v;
    }
    row
}

fn set_mem(
    row: DbMemMetricsRow,
    chars: &[char],
    from: usize,
    to: usize,
    v: Option<u64>,
) -> (r: DbMemMetricsRow)
    requires
        from <= to <= chars@.len(),
    ensures
        r == with_mem(row, chars@.subrange(from as int, to as int), v),
{
    let mut row = row;
    if is_part(chars, from, to, "vm_peak_kb") {
        row.vm_peak_kb = v;
    } else if is_part(chars, from, to, "vm_size_kb") {
        row.vm_size_kb = v;
    } else if is_part(chars, from, to, "vm_hwm_kb") {
        row.vm_hwm_kb = v;
    } else if is_part(chars, from, to, "vm_rss_kb") {
        row.vm_rss_kb = v;
    }
    row
}

/// Reads a part of a text as an optional number.
pub fn parse_optional_u64(chars: &[char], from: usize, to: usize) -> (r: Option<Option<u64>>)
    requires
        from <= to <= chars@.len(),
    ensures
        r == optional_number(chars@.subrange(from as int, to as int)),
{
    if from == to {
        return Some(None);
    }
    match parse_u64(chars, from, to) {
        Some(v) => Some(Some(v)),
        None => None,
    }
}

/// Reads the disk metrics out of what the disk wrote.
pub fn parse_disk_metrics(stderr_text: &str) -> (r: Result<DiskMetricsRow, MetricsError>)
    ensures
        match r {
            Ok(row) => disk_metrics_in(stderr_text@) == Ok::<DiskMetricsRow, MetricsIssue>(row),
            Err(e) => disk_metrics_in(stderr_text@) == Err::<DiskMetricsRow, MetricsIssue>(
                issue_of(e),
            ),
        },
{
    let text = chars_of(stderr_text);
    let chars = text.as_slice();
    let (from, to) = match find_line(chars, "DISK_IO_METRICS,") {
        Some(b) => b,
        None => {
            return Err(MetricsError::LineMissing);
        },
    };
    let bounds = split_bounds(chars, from, to, ',');
    let ghost parts = parts_of(chars@, bounds@);
    let ghost fields = parts.drop_first();
    let mut row = DiskMetricsRow {
        total_reads: 0,
        total_writes: 0,
        total_blocks_processed: 0,
        total_cylinders_traveled: 0,
        total_io_time_us: 0,
        total_seek_time_us: 0,
        total_rotational_latency_us: 0,
        total_transfer_time_us: 0,
    };
    let mut i: usize = 1;
    proof {
        assert(parts.len() > 0);
        assert(fields.take(0) =~= Seq::<Seq<char>>::empty());
    }
    while i < bounds.len()
        invariant
            1 <= i <= bounds@.len(),
            chars@ == stderr_text@,
            bounds_within(bounds@, chars@.len() as int),
            parts == parts_of(chars@, bounds@),
            fields == parts.drop_first(),
            disk_metrics_in(stderr_text@) == disk_row(fields),
            disk_row(fields.take(i - 1)) == Ok::<DiskMetricsRow, MetricsIssue>(row),
        decreases bounds@.len() - i,
    {
        let (a, b) = bounds[i];
        let ghost field = chars@.subrange(a as int, b as int);
        let eq: usize = find_char(chars, a, b, '=');
        proof {
            assert(fields[i - 1] == field);
            assert(fields.take(i as int).drop_last() =~= fields.take(i - 1));
            assert(fields.take(i as int).last() == field);
            assert(key_of(field) =~= chars@.subrange(a as int, eq as int));
        }
        if eq >= b {
            proof {
                lemma_disk_fails(fields, i as int);
            }
            return Err(MetricsError::InvalidField(stderr_text.substring_char(a, b).to_owned()));
        }
        assert(value_of(field) =~= chars@.subrange(eq + 1, b as int));
        match parse_u64(chars, eq + 1, b) {
            Some(v) => {
                row = set_disk(row, chars, a, eq, v);
            },
            None => {
                proof {
                    lemma_disk_fails(fields, i as int);
                }
                return Err(
                    MetricsError::InvalidValue {
                        key: stderr_text.substring_char(a, eq).to_owned(),
                        value: stderr_text.substring_char(eq + 1, b).to_owned(),
                    },
                );
            },
        }
        i += 1;
    }
    assert(fields.take(i - 1) =~= fields);
    Ok(row)
}

proof fn lemma_disk_fails(fields: Seq<Seq<char>>, n: int)
    requires
        0 <= n <= fields.len(),
        disk_row(fields.take(n)) is Err,
    ensures
        disk_row(fields) == disk_row(fields.take(n)),
    decreases fields.len(),
{
    if n < fields.len() {
        assert(fields.drop_last().take(n) =~= fields.take(n));
        lemma_disk_fails(fields.drop_last(), n);
    } else {
        assert(fields.take(n) =~= fields);
    }
}

proof fn lemma_mem_fails(fields: Seq<Seq<char>>, n: int)
    requires
        0 <= n <= fields.len(),
        mem_row(fields.take(n)) is Err,
    ensures
        mem_row(fields) == mem_row(fields.take(n)),
    decreases fields.len(),
{
    if n < fields.len() {
        assert(fields.drop_last().take(n) =~= fields.take(n));
        lemma_mem_fails(fields.drop_last(), n);
    } else {
        assert(fields.take(n) =~= fields);
    }
}

/// Reads the memory metrics out of what the database wrote.
pub fn parse_db_mem_metrics(stderr_text: &str) -> (r: Result<DbMemMetricsRow, MetricsError>)
    ensures
        match r {
            Ok(row) => mem_metrics_in(stderr_text@) == Ok::<DbMemMetricsRow, MetricsIssue>(row),
            Err(e) => mem_metrics_in(stderr_text@) == Err::<DbMemMetricsRow, MetricsIssue>(
                issue_of(e),
            ),
        },
{
    let text = chars_of(stderr_text);
    let chars = text.as_slice();
    let mut row = DbMemMetricsRow {
        vm_peak_kb: None,
        vm_size_kb: None,
        vm_hwm_kb: None,
        vm_rss_kb: None,
    };
    let (from, to) = match find_line(chars, "DB_MEM_METRICS,") {
        Some(b) => b,
        None => {
            return Ok(row);
        },
    };
    let bounds = split_bounds(chars, from, to, ',');
    let ghost parts = parts_of(chars@, bounds@);
    let ghost fields = parts.drop_first();
    let mut i: usize = 1;
    proof {
        assert(parts.len() > 0);
        assert(fields.take(0) =~= Seq::<Seq<char>>::empty());
    }
    while i < bounds.len()
        invariant
            1 <= i <= bounds@.len(),
            chars@ == stderr_text@,
            bounds_within(bounds@, chars@.len() as int),
            parts == parts_of(chars@, bounds@),
            fields == parts.drop_first(),
            mem_metrics_in(stderr_text@) == mem_row(fields),
            mem_row(fields.take(i - 1)) == Ok::<DbMemMetricsRow, MetricsIssue>(row),
        decreases bounds@.len() - i,
    {
        let (a, b) = bounds[i];
        let ghost field = chars@.subrange(a as int, b as int);
        let eq: usize = find_char(chars, a, b, '=');
        proof {
            assert(fields[i - 1] == field);
            assert(fields.take(i as int).drop_last() =~= fields.take(i - 1));
            assert(fields.take(i as int).last() == field);
            assert(key_of(field) =~= chars@.subrange(a as int, eq as int));
        }
        if eq >= b {
            proof {
                lemma_mem_fails(fields, i as int);
            }
            return Err(MetricsError::InvalidField(stderr_text.substring_char(a, b).to_owned()));
        }
        assert(value_of(field) =~= chars@.subrange(eq + 1, b as int));
        match parse_optional_u64(chars, eq + 1, b) {
            Some(v) => {
                row = set_mem(row, chars, a, eq, v);
            },
            None => {
                proof {
                    lemma_mem_fails(fields, i as int);
                }
                return Err(
                    MetricsError::InvalidValue {
                        key: stderr_text.substring_char(a, eq).to_owned(),
                        value: stderr_text.substring_char(eq + 1, b).to_owned(),
                    },
                );
            },
        }
        i += 1;
    }
    assert(fields.take(i - 1) =~= fields);
    Ok(row)
}

/// What a line of a process's status tells for a key: the number behind its first word.
pub open spec fn status_kb(line: Seq<char>, key: Seq<char>) -> Option<u64> {
    if key.is_prefix_of(line) && words(line).len() >= 2 {
        u64_of(words(line)[1])
    } else {
        None
    }
}

/// The first number that some lines tell for a key.
pub open spec fn first_status(lines: Seq<Seq<char>>, key: Seq<char>) -> Option<u64>
    decreases lines.len(),
{
    if lines.len() == 0 {
        None
    } else {
        match first_status(lines.drop_last(), key) {
            Some(v) => Some(v),
            None => status_kb(lines.last(), key),
        }
    }
}

/// Reads the number that a line of a process's status tells for a key.
pub fn parse_status_kb(line: &str, key: &str) -> (r: Option<u64>)
    ensures
        r == status_kb(line@, key@),
{
    let text = chars_of(line);
    assert(text@.subrange(0, text@.len() as int) =~= line@);
    if !starts_with(text.as_slice(), 0, text.len(), key) {
        return None;
    }
    let parts = split_words(line);
    if parts.len() < 2 {
        return None;
    }
    let value = chars_of(parts[1].as_str());
    proof {
        assert(texts(parts@)[1] == parts@[1]@);
        assert(value@.subrange(0, value@.len() as int) =~= value@);
    }
    parse_u64(value.as_slice(), 0, value.len())
}

/// Reads the memory of a process out of its status.
pub fn mem_status_of(text: &str) -> (r: DbMemMetricsRow)
    ensures
        r.vm_peak_kb == first_status(lines_of(text@), "VmPeak:"@),
        r.vm_size_kb == first_status(lines_of(text@), "VmSize:"@),
        r.vm_hwm_kb == first_status(lines_of(text@), "VmHWM:"@),
        r.vm_rss_kb == first_status(lines_of(text@), "VmRSS:"@),
{
    let chars = chars_of(text);
    let bounds = line_bounds(chars.as_slice());
    let ghost lines = lines_of(text@);
    let mut out = DbMemMetricsRow {
        vm_peak_kb: None,
        vm_size_kb: None,
        vm_hwm_kb: None,
        vm_rss_kb: None,
    };
    let mut i: usize = 0;
    assert(lines.take(0) =~= Seq::<Seq<char>>::empty());
    while i < bounds.len()
        invariant
            i <= bounds@.len(),
            bounds_within(bounds@, text@.len() as int),
            lines == lines_of(text@),
            lines == parts_of(text@, bounds@),
            out.vm_peak_kb == first_status(lines.take(i as int), "VmPeak:"@),
            out.vm_size_kb == first_status(lines.take(i as int), "VmSize:"@),
            out.vm_hwm_kb == first_status(lines.take(i as int), "VmHWM:"@),
            out.vm_rss_kb == first_status(lines.take(i as int), "VmRSS:"@),
        decreases bounds@.len() - i,
    {
        let (a, b) = bounds[i];
        let line = text.substring_char(a, b);
        proof {
            assert(lines[i as int] == line@);
            assert(lines.take(i + 1).drop_last() =~= lines.take(i as int));
            assert(lines.take(i + 1).last() == line@);
        }
        if out.vm_peak_kb.is_none() {
            out.vm_peak_kb = parse_status_kb(line, "VmPeak:");
        }
        if out.vm_size_kb.is_none() {
            out.vm_size_kb = parse_status_kb(line, "VmSize:");
        }
        if out.vm_hwm_kb.is_none() {
            out.vm_hwm_kb = parse_status_kb(line, "VmHWM:");
        }
        if out.vm_rss_kb.is_none() {
            out.vm_rss_kb = parse_status_kb(line, "VmRSS:");
        }
        i += 1;
    }
    assert(lines.take(i as int) =~= lines);
    out
}

/// The decimal notation of a number; nothing for none.
pub open spec fn optional_digits(v: Option<u64>) -> Seq<char> {
    match v {
        Some(n) => digits(n as nat),
        None => Seq::empty(),
    }
}

/// Appends the decimal notation of a number that may be missing.
fn append_opt_u64(out: &mut String, v: Option<u64>)
    ensures
        final(out)@ == old(out)@ + optional_digits(v),
{
    let ghost before = out@;
    match v {
        Some(n) => {
            append_digits(out, n);
        },
        None => {
            assert(out@ =~= before + optional_digits(v));
        },
    }
}

/// The decimal notation of a number that may be missing.
pub fn fmt_opt_u64(v: Option<u64>) -> (r: String)
    ensures
        r@ == optional_digits(v),
{
    let mut out = String::new();
    append_opt_u64(&mut out, v);
    assert(out@ =~= optional_digits(v));
    out
}

/// Texts with commas between them.
pub open spec fn joined(parts: Seq<Seq<char>>) -> Seq<char>
    decreases parts.len(),
{
    if parts.len() == 0 {
        Seq::empty()
    } else if parts.len() == 1 {
        parts[0]
    } else {
        joined(parts.drop_last()).push(',') + parts.last()
    }
}

/// A name and its value.
pub open spec fn field_text(key: Seq<char>, value: Seq<char>) -> Seq<char> {
    key.push('=') + value
}

/// The parts of a line of disk metrics.
pub open spec fn disk_parts(m: DiskMetricsRow) -> Seq<Seq<char>> {
    seq![
        "DISK_IO_METRICS"@,
        field_text("total_reads"@, digits(m.total_reads as nat)),
        field_text("total_writes"@, digits(m.total_writes as nat)),
        field_text("total_blocks_processed"@, digits(m.total_blocks_processed as nat)),
        field_text("total_cylinders_traveled"@, digits(m.total_cylinders_traveled as nat)),
        field_text("total_io_time_us"@, digits(m.total_io_time_us as nat)),
        field_text("total_seek_time_us"@, digits(m.total_seek_time_us as nat)),
        field_text("total_rotational_latency_us"@, digits(m.total_rotational_latency_us as nat)),
        field_text("total_transfer_time_us"@, digits(m.total_transfer_time_us as nat)),
    ]
}

/// The parts of a line of memory metrics.
pub open spec fn mem_parts(m: DbMemMetricsRow) -> Seq<Seq<char>> {
    seq![
        "DB_MEM_METRICS"@,
        field_text("vm_peak_kb"@, optional_digits(m.vm_peak_kb)),
        field_text("vm_size_kb"@, optional_digits(m.vm_size_kb)),
        field_text("vm_hwm_kb"@, optional_digits(m.vm_hwm_kb)),
        field_text("vm_rss_kb"@, optional_digits(m.vm_rss_kb)),
    ]
}

/// Appends a comma, a name and a number that may be missing.
fn append_field(out: &mut String, key: &str, v: Option<u64>, Ghost(parts): Ghost<Seq<Seq<char>>>)
    requires
        old(out)@ == joined(parts),
        parts.len() > 0,
    ensures
        final(out)@ == joined(parts.push(field_text(key@, optional_digits(v)))),
{
    proof {
        reveal_strlit(",");
        reveal_strlit("=");
    }
    let ghost before = out@;
    let ghost more = parts.push(field_text(key@, optional_digits(v)));
    out.append(",");
    out.append(key);
    out.append("=");
    append_opt_u64(out, v);
    proof {
        assert(more.drop_last() =~= parts);
        assert(out@ =~= before.push(',') + field_text(key@, optional_digits(v)));
    }
}

/// The line that tells the disk's work.
pub fn disk_metrics_line(m: &DiskMetricsRow) -> (r: String)
    ensures
        r@ == joined(disk_parts(*m)),
{
    let mut out = String::new();
    out.append("DISK_IO_METRICS");
    let ghost p = disk_parts(*m);
    proof {
        assert(out@ =~= "DISK_IO_METRICS"@);
        assert(p.take(1) =~= seq!["DISK_IO_METRICS"@]);
        assert(forall|i: int| 0 <= i < p.len() ==> p.take(i + 1) =~= #[trigger] p.take(i).push(p[i]));
        assert(p.take(9) =~= p);
    }
    append_field(&mut out, "total_reads", Some(m.total_reads), Ghost(p.take(1)));
    append_field(&mut out, "total_writes", Some(m.total_writes), Ghost(p.take(2)));
    append_field(
        &mut out,
        "total_blocks_processed",
        Some(m.total_blocks_processed),
        Ghost(p.take(3)),
    );
    append_field(
        &mut out,
        "total_cylinders_traveled",
        Some(m.total_cylinders_traveled),
        Ghost(p.take(4)),
    );
    append_field(&mut out, "total_io_time_us", Some(m.total_io_time_us), Ghost(p.take(5)));
    append_field(&mut out, "total_seek_time_us", Some(m.total_seek_time_us), Ghost(p.take(6)));
    append_field(
        &mut out,
        "total_rotational_latency_us",
        Some(m.total_rotational_latency_us),
        Ghost(p.take(7)),
    );
    append_field(
        &mut out,
        "total_transfer_time_us",
        Some(m.total_transfer_time_us),
        Ghost(p.take(8)),
    );
    out
}

/// The line that tells the memory of the database.
pub fn db_mem_metrics_line(m: &DbMemMetricsRow) -> (r: String)
    ensures
        r@ == joined(mem_parts(*m)),
{
    let mut out = String::new();
    out.append("DB_MEM_METRICS");
    let ghost p = mem_parts(*m);
    proof {
        assert(out@ =~= "DB_MEM_METRICS"@);
        assert(p.take(1) =~= seq!["DB_MEM_METRICS"@]);
        assert(forall|i: int| 0 <= i < p.len() ==> p.take(i + 1) =~= #[trigger] p.take(i).push(p[i]));
        assert(p.take(5) =~= p);
    }
    append_field(&mut out, "vm_peak_kb", m.vm_peak_kb, Ghost(p.take(1)));
    append_field(&mut out, "vm_size_kb", m.vm_size_kb, Ghost(p.take(2)));
    append_field(&mut out, "vm_hwm_kb", m.vm_hwm_kb, Ghost(p.take(3)));
    append_field(&mut out, "vm_rss_kb", m.vm_rss_kb, Ghost(p.take(4)));
    out
}

/// A text with every quotation mark doubled.
pub open spec fn quotes_doubled(s: Seq<char>) -> Seq<char>
    decreases s.len(),
{
    if s.len() == 0 {
        Seq::empty()
    } else if s.last() == '"' {
        quotes_doubled(s.drop_last()) + seq!['"', '"']
    } else {
        quotes_doubled(s.drop_last()).push(s.last())
    }
}

/// A text as a quoted cell of a table.
pub open spec fn quoted(s: Seq<char>) -> Seq<char> {
    seq!['"'] + quotes_doubled(s) + seq!['"']
}

/// Quotes a text for a cell of a table.
pub fn csv_escape(value: &str) -> (r: String)
    ensures
        r@ == quoted(value@),
{
    proof {
        reveal_strlit("\"");
        reveal_strlit("\"\"");
    }
    let n: usize = value.unicode_len();
    let mut out = String::new();
    out.append("\"");
    let mut i: usize = 0;
    proof {
        assert(value@.take(0) =~= Seq::<char>::empty());
        assert(out@ =~= seq!['"'] + quotes_doubled(value@.take(0)));
    }
    while i < n
        invariant
            i <= n == value@.len(),
            out@ == seq!['"'] + quotes_doubled(value@.take(i as int)),
            "\""@ =~= seq!['"'],
            "\"\""@ =~= seq!['"', '"'],
        decreases n - i,
    {
        let ghost before = out@;
        let c: char = value.get_char(i);
        proof {
            assert(value@.take(i + 1).drop_last() =~= value@.take(i as int));
            assert(value@.take(i + 1).last() == c);
            assert(value@.subrange(i as int, i + 1) =~= seq![c]);
        }
        if c == '"' {
            out.append("\"\"");
        } else {
            out.append(value.substring_char(i, i + 1));
        }
        assert(out@ =~= seq!['"'] + quotes_doubled(value@.take(i + 1)));
        i += 1;
    }
    assert(value@.take(i as int) =~= value@);
    out.append("\"");
    assert(out@ =~= quoted(value@));
    out
}

/// The first line of the table of metrics.
pub fn metrics_header() -> (r: String)
    ensures
        r@
            == "execution_name,total_reads,total_writes,total_blocks_processed,total_cylinders_traveled,total_io_time_us,total_seek_time_us,total_rotational_latency_us,total_transfer_time_us,db_vm_peak_kb,db_vm_size_kb,db_vm_hwm_kb,db_vm_rss_kb,db_vm_peak_pct_of_limit"@,
{
    "execution_name,total_reads,total_writes,total_blocks_processed,total_cylinders_traveled,total_io_time_us,total_seek_time_us,total_rotational_latency_us,total_transfer_time_us,db_vm_peak_kb,db_vm_size_kb,db_vm_hwm_kb,db_vm_rss_kb,db_vm_peak_pct_of_limit".to_owned()
}

/// The cells of a row of the table of metrics.
pub open spec fn metrics_cells(
    execution_name: Seq<char>,
    metrics: DiskMetricsRow,
    db_mem: DbMemMetricsRow,
    peak_pct: Seq<char>,
) -> Seq<Seq<char>> {
    seq![
        quoted(execution_name),
        digits(metrics.total_reads as nat),
        digits(metrics.total_writes as nat),
        digits(metrics.total_blocks_processed as nat),
        digits(metrics.total_cylinders_traveled as nat),
        digits(metrics.total_io_time_us as nat),
        digits(metrics.total_seek_time_us as nat),
        digits(metrics.total_rotational_latency_us as nat),
        digits(metrics.total_transfer_time_us as nat),
        optional_digits(db_mem.vm_peak_kb),
        optional_digits(db_mem.vm_size_kb),
        optional_digits(db_mem.vm_hwm_kb),
        optional_digits(db_mem.vm_rss_kb),
        peak_pct,
    ]
}

fn append_cell(out: &mut String, v: Option<u64>, Ghost(cells): Ghost<Seq<Seq<char>>>)
    requires
        old(out)@ == joined(cells),
        cells.len() > 0,
    ensures
        final(out)@ == joined(cells.push(optional_digits(v))),
{
    proof {
        reveal_strlit(",");
    }
    let ghost before = out@;
    out.append(",");
    append_opt_u64(out, v);
    proof {
        assert(cells.push(optional_digits(v)).drop_last() =~= cells);
        assert(out@ =~= before.push(',') + optional_digits(v));
    }
}

/// A row of the table of metrics. The share of the memory limit comes as text.
pub fn metrics_row(
    execution_name: &str,
    metrics: &DiskMetricsRow,
    db_mem: &DbMemMetricsRow,
    peak_pct: &str,
) -> (r: String)
    ensures
        r@ == joined(metrics_cells(execution_name@, *metrics, *db_mem, peak_pct@)),
{
    let mut out = csv_escape(execution_name);
    let ghost p = metrics_cells(execution_name@, *metrics, *db_mem, peak_pct@);
    proof {
        reveal_strlit(",");
        assert(p.take(1) =~= seq![quoted(execution_name@)]);
        assert(forall|i: int| 0 <= i < p.len() ==> p.take(i + 1) =~= #[trigger] p.take(i).push(p[i]));
        assert(p.take(14) =~= p);
    }
    append_cell(&mut out, Some(metrics.total_reads), Ghost(p.take(1)));
    append_cell(&mut out, Some(metrics.total_writes), Ghost(p.take(2)));
    append_cell(&mut out, Some(metrics.total_blocks_processed), Ghost(p.take(3)));
    append_cell(&mut out, Some(metrics.total_cylinders_traveled), Ghost(p.take(4)));
    append_cell(&mut out, Some(metrics.total_io_time_us), Ghost(p.take(5)));
    append_cell(&mut out, Some(metrics.total_seek_time_us), Ghost(p.take(6)));
    append_cell(&mut out, Some(metrics.total_rotational_latency_us), Ghost(p.take(7)));
    append_cell(&mut out, Some(metrics.total_transfer_time_us), Ghost(p.take(8)));
    append_cell(&mut out, db_mem.vm_peak_kb, Ghost(p.take(9)));
    append_cell(&mut out, db_mem.vm_size_kb, Ghost(p.take(10)));
    append_cell(&mut out, db_mem.vm_hwm_kb, Ghost(p.take(11)));
    append_cell(&mut out, db_mem.vm_rss_kb, Ghost(p.take(12)));
    let ghost before = out@;
    out.append(",");
    out.append(peak_pct);
    proof {
        assert(p.drop_last() =~= p.take(13));
        assert(out@ =~= before.push(',') + peak_pct@);
    }
    out
}

} // verus!

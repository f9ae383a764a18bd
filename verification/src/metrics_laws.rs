//! What is told of a run is read back.

use vstd::prelude::*;
use crate::lines::{find, find_is_first, lemma_digits_are_digits, lemma_find_pair, lemma_one_line, lemma_split_front, lemma_split_whole, printed_number_is_read_back, split_on, u64_of};
use crate::metrics::{DbMemMetricsRow, DiskMetricsRow, MetricsIssue, disk_metrics_in, disk_parts, disk_row, field_text, first_starting, joined, key_of, mem_metrics_in, mem_parts, mem_row, optional_digits, optional_number, value_of, with_disk, with_mem};
use crate::text::digits;

verus! {

/// Whether a text has none of the characters that part lines and fields.
spec fn plain(s: Seq<char>) -> bool {
    forall|i: int|
        0 <= i < s.len() ==> #[trigger] s[i] != ',' && s[i] != '=' && s[i] != '\n' && s[i] != '\r'
}

/// Whether a text can be a part of a line of fields.
spec fn is_cell(s: Seq<char>) -> bool {
    forall|i: int| 0 <= i < s.len() ==> #[trigger] s[i] != ',' && s[i] != '\n' && s[i] != '\r'
}

proof fn lemma_split_back(x: Seq<char>, b: Seq<char>)
    requires
        !b.contains(','),
    ensures
        split_on(x.push(',') + b, ',') == split_on(x, ',').push(b),
    decreases x.len(),
{
    let n = find(x, ',') as int;
    find_is_first(x, ',');
    if n >= x.len() {
        assert(!x.contains(','));
        lemma_split_front(x, ',', b);
        lemma_split_whole(b, ',');
        lemma_split_whole(x, ',');
        assert(seq![x] + seq![b] =~= seq![x].push(b));
    } else {
        let head = x.take(n);
        let rest = x.skip(n + 1);
        assert(x =~= head.push(',') + rest);
        assert(!head.contains(','));
        lemma_split_back(rest, b);
        assert(x.push(',') + b =~= head.push(',') + (rest.push(',') + b));
        lemma_split_front(head, ',', rest.push(',') + b);
        assert(seq![head] + split_on(rest, ',').push(b) =~= (seq![head] + split_on(
            rest,
            ',',
        )).push(b));
    }
}

proof fn lemma_joined(parts: Seq<Seq<char>>)
    requires
        parts.len() > 0,
        forall|i: int| 0 <= i < parts.len() ==> is_cell(#[trigger] parts[i]),
    ensures
        split_on(joined(parts), ',') == parts,
        !joined(parts).contains('\n'),
        !joined(parts).contains('\r'),
        parts.len() > 1 ==> parts[0].push(',').is_prefix_of(joined(parts)),
    decreases parts.len(),
{
    let last = parts.last();
    assert(is_cell(parts[parts.len() - 1]));
    assert(!last.contains(','));
    if parts.len() == 1 {
        lemma_split_whole(last, ',');
        assert(parts =~= seq![last]);
    } else {
        let rest = parts.drop_last();
        assert forall|i: int| 0 <= i < rest.len() implies is_cell(#[trigger] rest[i]) by {
            assert(rest[i] == parts[i]);
        }
        lemma_joined(rest);
        lemma_split_back(joined(rest), last);
        assert(rest.push(last) =~= parts);
        let s = joined(parts);
        let r = joined(rest);
        assert(s == r.push(',') + last);
        assert forall|i: int| 0 <= i < s.len() implies #[trigger] s[i] != '\n' && s[i]
            != '\r' by {
            if i < r.len() {
                assert(s[i] == r[i]);
                assert(r.contains(r[i]));
            } else if i > r.len() {
                assert(s[i] == last[i - r.len() - 1]);
            }
        }
        if rest.len() == 1 {
            assert(r == parts[0]);
            assert(s.subrange(0, r.len() as int + 1) =~= r.push(','));
        } else {
            let p = parts[0].push(',');
            assert(rest[0] == parts[0]);
            assert(p == r.subrange(0, p.len() as int));
            assert(s.subrange(0, p.len() as int) =~= r.subrange(0, p.len() as int));
        }
    }
}

proof fn lemma_field(key: Seq<char>, value: Seq<char>)
    requires
        plain(key),
        plain(value),
    ensures
        is_cell(field_text(key, value)),
        find(field_text(key, value), '=') < field_text(key, value).len(),
        key_of(field_text(key, value)) == key,
        value_of(field_text(key, value)) == value,
{
    let f = field_text(key, value);
    assert(!key.contains('='));
    lemma_find_pair(key, value);
    assert forall|i: int| 0 <= i < f.len() implies #[trigger] f[i] != ',' && f[i] != '\n' && f[i]
        != '\r' by {
        if i < key.len() {
            assert(f[i] == key[i]);
        } else if i > key.len() {
            assert(f[i] == value[i - key.len() - 1]);
        }
    }
}

proof fn lemma_value(v: Option<u64>)
    ensures
        plain(optional_digits(v)),
        optional_number(optional_digits(v)) == Some(v),
        v matches Some(n) ==> u64_of(digits(n as nat)) == Some(n),
{
    if let Some(n) = v {
        lemma_digits_are_digits(n as nat);
        printed_number_is_read_back(n as nat);
        assert(digits(n as nat).len() > 0);
    }
}

proof fn lemma_disk_field(fields: Seq<Seq<char>>, n: int, key: Seq<char>, v: u64)
    requires
        0 <= n < fields.len(),
        fields[n] == field_text(key, digits(v as nat)),
        plain(key),
        disk_row(fields.take(n)) is Ok,
    ensures
        disk_row(fields.take(n + 1)) == Ok::<DiskMetricsRow, MetricsIssue>(
            with_disk(disk_row(fields.take(n))->Ok_0, key, v),
        ),
{
    lemma_value(Some(v));
    lemma_field(key, digits(v as nat));
    assert(fields.take(n + 1).drop_last() =~= fields.take(n));
    assert(fields.take(n + 1).last() == fields[n]);
}

proof fn lemma_mem_field(fields: Seq<Seq<char>>, n: int, key: Seq<char>, v: Option<u64>)
    requires
        0 <= n < fields.len(),
        fields[n] == field_text(key, optional_digits(v)),
        plain(key),
        mem_row(fields.take(n)) is Ok,
    ensures
        mem_row(fields.take(n + 1)) == Ok::<DbMemMetricsRow, MetricsIssue>(
            with_mem(mem_row(fields.take(n))->Ok_0, key, v),
        ),
{
    lemma_value(v);
    lemma_field(key, optional_digits(v));
    assert(fields.take(n + 1).drop_last() =~= fields.take(n));
    assert(fields.take(n + 1).last() == fields[n]);
}

proof fn lemma_disk_keys()
    ensures
        plain("total_reads"@),
        plain("total_writes"@),
        plain("total_blocks_processed"@),
        plain("total_cylinders_traveled"@),
        plain("total_io_time_us"@),
        plain("total_seek_time_us"@),
        plain("total_rotational_latency_us"@),
        plain("total_transfer_time_us"@),
        "total_reads"@ != "total_writes"@,
        "total_reads"@ != "total_blocks_processed"@,
        "total_reads"@ != "total_cylinders_traveled"@,
        "total_reads"@ != "total_io_time_us"@,
        "total_reads"@ != "total_seek_time_us"@,
        "total_reads"@ != "total_rotational_latency_us"@,
        "total_reads"@ != "total_transfer_time_us"@,
        "total_writes"@ != "total_blocks_processed"@,
        "total_writes"@ != "total_cylinders_traveled"@,
        "total_writes"@ != "total_io_time_us"@,
        "total_writes"@ != "total_seek_time_us"@,
        "total_writes"@ != "total_rotational_latency_us"@,
        "total_writes"@ != "total_transfer_time_us"@,
        "total_blocks_processed"@ != "total_cylinders_traveled"@,
        "total_blocks_processed"@ != "total_io_time_us"@,
        "total_blocks_processed"@ != "total_seek_time_us"@,
        "total_blocks_processed"@ != "total_rotational_latency_us"@,
        "total_blocks_processed"@ != "total_transfer_time_us"@,
        "total_cylinders_traveled"@ != "total_io_time_us"@,
        "total_cylinders_traveled"@ != "total_seek_time_us"@,
        "total_cylinders_traveled"@ != "total_rotational_latency_us"@,
        "total_cylinders_traveled"@ != "total_transfer_time_us"@,
        "total_io_time_us"@ != "total_seek_time_us"@,
        "total_io_time_us"@ != "total_rotational_latency_us"@,
        "total_io_time_us"@ != "total_transfer_time_us"@,
        "total_seek_time_us"@ != "total_rotational_latency_us"@,
        "total_seek_time_us"@ != "total_transfer_time_us"@,
        "total_rotational_latency_us"@ != "total_transfer_time_us"@,
{
    reveal_strlit("total_reads");
    assert("total_reads"@ =~= seq!['t', 'o', 't', 'a', 'l', '_', 'r', 'e', 'a', 'd', 's']);
    reveal_strlit("total_writes");
    assert("total_writes"@ =~= seq!['t', 'o', 't', 'a', 'l', '_', 'w', 'r', 'i', 't', 'e', 's']);
    reveal_strlit("total_blocks_processed");
    assert("total_blocks_processed"@ =~= seq!['t', 'o', 't', 'a', 'l', '_', 'b', 'l', 'o', 'c', 'k', 's', '_', 'p', 'r', 'o', 'c', 'e', 's', 's', 'e', 'd']);
    reveal_strlit("total_cylinders_traveled");
    assert("total_cylinders_traveled"@ =~= seq!['t', 'o', 't', 'a', 'l', '_', 'c', 'y', 'l', 'i', 'n', 'd', 'e', 'r', 's', '_', 't', 'r', 'a', 'v', 'e', 'l', 'e', 'd']);
    reveal_strlit("total_io_time_us");
    assert("total_io_time_us"@ =~= seq!['t', 'o', 't', 'a', 'l', '_', 'i', 'o', '_', 't', 'i', 'm', 'e', '_', 'u', 's']);
    reveal_strlit("total_seek_time_us");
    assert("total_seek_time_us"@ =~= seq!['t', 'o', 't', 'a', 'l', '_', 's', 'e', 'e', 'k', '_', 't', 'i', 'm', 'e', '_', 'u', 's']);
    reveal_strlit("total_rotational_latency_us");
    assert("total_rotational_latency_us"@ =~= seq!['t', 'o', 't', 'a', 'l', '_', 'r', 'o', 't', 'a', 't', 'i', 'o', 'n', 'a', 'l', '_', 'l', 'a', 't', 'e', 'n', 'c', 'y', '_', 'u', 's']);
    reveal_strlit("total_transfer_time_us");
    assert("total_transfer_time_us"@ =~= seq!['t', 'o', 't', 'a', 'l', '_', 't', 'r', 'a', 'n', 's', 'f', 'e', 'r', '_', 't', 'i', 'm', 'e', '_', 'u', 's']);
    assert("total_blocks_processed"@[6] != "total_transfer_time_us"@[6]);
}

proof fn lemma_mem_keys()
    ensures
        plain("vm_peak_kb"@),
        plain("vm_size_kb"@),
        plain("vm_hwm_kb"@),
        plain("vm_rss_kb"@),
        "vm_peak_kb"@ != "vm_size_kb"@,
        "vm_peak_kb"@ != "vm_hwm_kb"@,
        "vm_peak_kb"@ != "vm_rss_kb"@,
        "vm_size_kb"@ != "vm_hwm_kb"@,
        "vm_size_kb"@ != "vm_rss_kb"@,
        "vm_hwm_kb"@ != "vm_rss_kb"@,
{
    reveal_strlit("vm_peak_kb");
    assert("vm_peak_kb"@ =~= seq!['v', 'm', '_', 'p', 'e', 'a', 'k', '_', 'k', 'b']);
    reveal_strlit("vm_size_kb");
    assert("vm_size_kb"@ =~= seq!['v', 'm', '_', 's', 'i', 'z', 'e', '_', 'k', 'b']);
    reveal_strlit("vm_hwm_kb");
    assert("vm_hwm_kb"@ =~= seq!['v', 'm', '_', 'h', 'w', 'm', '_', 'k', 'b']);
    reveal_strlit("vm_rss_kb");
    assert("vm_rss_kb"@ =~= seq!['v', 'm', '_', 'r', 's', 's', '_', 'k', 'b']);
    assert("vm_peak_kb"@[3] != "vm_size_kb"@[3]);
    assert("vm_hwm_kb"@[3] != "vm_rss_kb"@[3]);
}

proof fn lemma_disk_parts(m: DiskMetricsRow)
    ensures
        disk_row(disk_parts(m).drop_first()) == Ok::<DiskMetricsRow, MetricsIssue>(m),
        forall|i: int| 0 <= i < disk_parts(m).len() ==> is_cell(#[trigger] disk_parts(m)[i]),
{
    let parts = disk_parts(m);
    let fields = parts.drop_first();
    lemma_disk_keys();
    reveal_strlit("DISK_IO_METRICS");
    assert("DISK_IO_METRICS"@ =~= seq!['D', 'I', 'S', 'K', '_', 'I', 'O', '_', 'M', 'E', 'T', 'R', 'I', 'C', 'S']);
    assert(fields.take(0) =~= Seq::<Seq<char>>::empty());
    lemma_disk_field(fields, 0, "total_reads"@, m.total_reads);
    lemma_disk_field(fields, 1, "total_writes"@, m.total_writes);
    lemma_disk_field(fields, 2, "total_blocks_processed"@, m.total_blocks_processed);
    lemma_disk_field(fields, 3, "total_cylinders_traveled"@, m.total_cylinders_traveled);
    lemma_disk_field(fields, 4, "total_io_time_us"@, m.total_io_time_us);
    lemma_disk_field(fields, 5, "total_seek_time_us"@, m.total_seek_time_us);
    lemma_disk_field(fields, 6, "total_rotational_latency_us"@, m.total_rotational_latency_us);
    lemma_disk_field(fields, 7, "total_transfer_time_us"@, m.total_transfer_time_us);
    assert(fields.take(8) =~= fields);
    lemma_value(Some(m.total_reads));
    lemma_field("total_reads"@, digits(m.total_reads as nat));
    lemma_value(Some(m.total_writes));
    lemma_field("total_writes"@, digits(m.total_writes as nat));
    lemma_value(Some(m.total_blocks_processed));
    lemma_field("total_blocks_processed"@, digits(m.total_blocks_processed as nat));
    lemma_value(Some(m.total_cylinders_traveled));
    lemma_field("total_cylinders_traveled"@, digits(m.total_cylinders_traveled as nat));
    lemma_value(Some(m.total_io_time_us));
    lemma_field("total_io_time_us"@, digits(m.total_io_time_us as nat));
    lemma_value(Some(m.total_seek_time_us));
    lemma_field("total_seek_time_us"@, digits(m.total_seek_time_us as nat));
    lemma_value(Some(m.total_rotational_latency_us));
    lemma_field("total_rotational_latency_us"@, digits(m.total_rotational_latency_us as nat));
    lemma_value(Some(m.total_transfer_time_us));
    lemma_field("total_transfer_time_us"@, digits(m.total_transfer_time_us as nat));
    assert forall|i: int| 0 <= i < parts.len() implies is_cell(#[trigger] parts[i]) by {
        if i == 0 {
            assert(is_cell("DISK_IO_METRICS"@));
        }
    }
}

proof fn lemma_mem_parts(m: DbMemMetricsRow)
    ensures
        mem_row(mem_parts(m).drop_first()) == Ok::<DbMemMetricsRow, MetricsIssue>(m),
        forall|i: int| 0 <= i < mem_parts(m).len() ==> is_cell(#[trigger] mem_parts(m)[i]),
{
    let parts = mem_parts(m);
    let fields = parts.drop_first();
    lemma_mem_keys();
    reveal_strlit("DB_MEM_METRICS");
    assert("DB_MEM_METRICS"@ =~= seq!['D', 'B', '_', 'M', 'E', 'M', '_', 'M', 'E', 'T', 'R', 'I', 'C', 'S']);
    assert(fields.take(0) =~= Seq::<Seq<char>>::empty());
    lemma_mem_field(fields, 0, "vm_peak_kb"@, m.vm_peak_kb);
    lemma_mem_field(fields, 1, "vm_size_kb"@, m.vm_size_kb);
    lemma_mem_field(fields, 2, "vm_hwm_kb"@, m.vm_hwm_kb);
    lemma_mem_field(fields, 3, "vm_rss_kb"@, m.vm_rss_kb);
    assert(fields.take(4) =~= fields);
    lemma_value(m.vm_peak_kb);
    lemma_field("vm_peak_kb"@, optional_digits(m.vm_peak_kb));
    lemma_value(m.vm_size_kb);
    lemma_field("vm_size_kb"@, optional_digits(m.vm_size_kb));
    lemma_value(m.vm_hwm_kb);
    lemma_field("vm_hwm_kb"@, optional_digits(m.vm_hwm_kb));
    lemma_value(m.vm_rss_kb);
    lemma_field("vm_rss_kb"@, optional_digits(m.vm_rss_kb));
    assert forall|i: int| 0 <= i < parts.len() implies is_cell(#[trigger] parts[i]) by {
        if i == 0 {
            assert(is_cell("DB_MEM_METRICS"@));
        }
    }
}

/// The disk metrics that a line tells are read back from it.
pub proof fn told_disk_metrics_are_read_back(m: DiskMetricsRow)
    ensures
        disk_metrics_in(joined(disk_parts(m)).push('\n')) == Ok::<DiskMetricsRow, MetricsIssue>(m),
{
    let parts = disk_parts(m);
    let line = joined(parts);
    lemma_disk_parts(m);
    lemma_joined(parts);
    reveal_strlit("DISK_IO_METRICS");
    reveal_strlit("DISK_IO_METRICS,");
    assert("DISK_IO_METRICS,"@ =~= "DISK_IO_METRICS"@.push(','));
    assert("DISK_IO_METRICS,"@.is_prefix_of(line));
    assert(line.len() > 0);
    assert(line.contains(line.last()));
    lemma_one_line(line);
    assert(first_starting(seq![line], "DISK_IO_METRICS,"@) == Some(line));
}

/// The memory metrics that a line tells are read back from it, missing ones as missing.
pub proof fn told_memory_metrics_are_read_back(m: DbMemMetricsRow)
    ensures
        mem_metrics_in(joined(mem_parts(m)).push('\n')) == Ok::<DbMemMetricsRow, MetricsIssue>(m),
{
    let parts = mem_parts(m);
    let line = joined(parts);
    lemma_mem_parts(m);
    lemma_joined(parts);
    reveal_strlit("DB_MEM_METRICS");
    reveal_strlit("DB_MEM_METRICS,");
    assert("DB_MEM_METRICS,"@ =~= "DB_MEM_METRICS"@.push(','));
    assert("DB_MEM_METRICS,"@.is_prefix_of(line));
    assert(line.len() > 0);
    assert(line.contains(line.last()));
    lemma_one_line(line);
    assert(first_starting(seq![line], "DB_MEM_METRICS,"@) == Some(line));
}

/// A field of the disk metrics sets the metric that it names and no other, whichever fields come
/// before it.
pub proof fn disk_fields_set_their_metric(fields: Seq<Seq<char>>, row: DiskMetricsRow, v: u64)
    requires
        disk_row(fields) == Ok::<DiskMetricsRow, MetricsIssue>(row),
    ensures
        disk_row(fields.push(field_text("total_reads"@, digits(v as nat)))) == Ok::<
            DiskMetricsRow,
            MetricsIssue,
        >(DiskMetricsRow { total_reads: v, ..row }),
        disk_row(fields.push(field_text("total_writes"@, digits(v as nat)))) == Ok::<
            DiskMetricsRow,
            MetricsIssue,
        >(DiskMetricsRow { total_writes: v, ..row }),
        disk_row(fields.push(field_text("total_blocks_processed"@, digits(v as nat)))) == Ok::<
            DiskMetricsRow,
            MetricsIssue,
        >(DiskMetricsRow { total_blocks_processed: v, ..row }),
        disk_row(fields.push(field_text("total_cylinders_traveled"@, digits(v as nat)))) == Ok::<
            DiskMetricsRow,
            MetricsIssue,
        >(DiskMetricsRow { total_cylinders_traveled: v, ..row }),
        disk_row(fields.push(field_text("total_io_time_us"@, digits(v as nat)))) == Ok::<
            DiskMetricsRow,
            MetricsIssue,
        >(DiskMetricsRow { total_io_time_us: v, ..row }),
        disk_row(fields.push(field_text("total_seek_time_us"@, digits(v as nat)))) == Ok::<
            DiskMetricsRow,
            MetricsIssue,
        >(DiskMetricsRow { total_seek_time_us: v, ..row }),
        disk_row(fields.push(field_text("total_rotational_latency_us"@, digits(v as nat)))) == Ok::<
            DiskMetricsRow,
            MetricsIssue,
        >(DiskMetricsRow { total_rotational_latency_us: v, ..row }),
        disk_row(fields.push(field_text("total_transfer_time_us"@, digits(v as nat)))) == Ok::<
            DiskMetricsRow,
            MetricsIssue,
        >(DiskMetricsRow { total_transfer_time_us: v, ..row }),
{
    lemma_disk_keys();
    lemma_one_disk_field(fields, "total_reads"@, v);
    lemma_one_disk_field(fields, "total_writes"@, v);
    lemma_one_disk_field(fields, "total_blocks_processed"@, v);
    lemma_one_disk_field(fields, "total_cylinders_traveled"@, v);
    lemma_one_disk_field(fields, "total_io_time_us"@, v);
    lemma_one_disk_field(fields, "total_seek_time_us"@, v);
    lemma_one_disk_field(fields, "total_rotational_latency_us"@, v);
    lemma_one_disk_field(fields, "total_transfer_time_us"@, v);
}

proof fn lemma_one_disk_field(fields: Seq<Seq<char>>, key: Seq<char>, v: u64)
    requires
        plain(key),
        disk_row(fields) is Ok,
    ensures
        disk_row(fields.push(field_text(key, digits(v as nat)))) == Ok::<
            DiskMetricsRow,
            MetricsIssue,
        >(with_disk(disk_row(fields)->Ok_0, key, v)),
{
    let all = fields.push(field_text(key, digits(v as nat)));
    let n = fields.len() as int;
    assert(all.take(n) =~= fields);
    assert(all.take(n + 1) =~= all);
    lemma_disk_field(all, n, key, v);
}

/// A field of the memory metrics sets the metric that it names and no other, whichever fields come
/// before it.
pub proof fn memory_fields_set_their_metric(
    fields: Seq<Seq<char>>,
    row: DbMemMetricsRow,
    v: Option<u64>,
)
    requires
        mem_row(fields) == Ok::<DbMemMetricsRow, MetricsIssue>(row),
    ensures
        mem_row(fields.push(field_text("vm_peak_kb"@, optional_digits(v)))) == Ok::<
            DbMemMetricsRow,
            MetricsIssue,
        >(DbMemMetricsRow { vm_peak_kb: v, ..row }),
        mem_row(fields.push(field_text("vm_size_kb"@, optional_digits(v)))) == Ok::<
            DbMemMetricsRow,
            MetricsIssue,
        >(DbMemMetricsRow { vm_size_kb: v, ..row }),
        mem_row(fields.push(field_text("vm_hwm_kb"@, optional_digits(v)))) == Ok::<
            DbMemMetricsRow,
            MetricsIssue,
        >(DbMemMetricsRow { vm_hwm_kb: v, ..row }),
        mem_row(fields.push(field_text("vm_rss_kb"@, optional_digits(v)))) == Ok::<
            DbMemMetricsRow,
            MetricsIssue,
        >(DbMemMetricsRow { vm_rss_kb: v, ..row }),
{
    lemma_mem_keys();
    lemma_one_mem_field(fields, "vm_peak_kb"@, v);
    lemma_one_mem_field(fields, "vm_size_kb"@, v);
    lemma_one_mem_field(fields, "vm_hwm_kb"@, v);
    lemma_one_mem_field(fields, "vm_rss_kb"@, v);
}

proof fn lemma_one_mem_field(fields: Seq<Seq<char>>, key: Seq<char>, v: Option<u64>)
    requires
        plain(key),
        mem_row(fields) is Ok,
    ensures
        mem_row(fields.push(field_text(key, optional_digits(v)))) == Ok::<
            DbMemMetricsRow,
            MetricsIssue,
        >(with_mem(mem_row(fields)->Ok_0, key, v)),
{
    let all = fields.push(field_text(key, optional_digits(v)));
    let n = fields.len() as int;
    assert(all.take(n) =~= fields);
    assert(all.take(n + 1) =~= all);
    lemma_mem_field(all, n, key, v);
}

/// Without a field nothing is known: the disk metrics are zero, and the memory metrics missing.
pub proof fn no_field_sets_no_metric()
    ensures
        ({
            let none = Seq::<Seq<char>>::empty();
            let row = disk_row(none)->Ok_0;
            &&& disk_row(none) is Ok
            &&& row.total_reads == 0 && row.total_writes == 0 && row.total_blocks_processed == 0
            &&& row.total_cylinders_traveled == 0 && row.total_io_time_us == 0
            &&& row.total_seek_time_us == 0 && row.total_rotational_latency_us == 0
            &&& row.total_transfer_time_us == 0
        }),
        ({
            let none = Seq::<Seq<char>>::empty();
            let row = mem_row(none)->Ok_0;
            &&& mem_row(none) is Ok
            &&& row.vm_peak_kb is None && row.vm_size_kb is None
            &&& row.vm_hwm_kb is None && row.vm_rss_kb is None
        }),
{
}

/// A field without an equals sign is turned down, and so is one whose value is no number; both are
/// told as they are. A key that is not known changes nothing.
pub proof fn bad_fields_are_told(
    fields: Seq<Seq<char>>,
    field: Seq<char>,
    key: Seq<char>,
    value: Seq<char>,
)
    requires
        disk_row(fields) is Ok,
        !field.contains('='),
        !key.contains('='),
    ensures
        disk_row(fields.push(field)) == Err::<DiskMetricsRow, MetricsIssue>(
            MetricsIssue::InvalidField(field),
        ),
        u64_of(value) is None ==> disk_row(fields.push(field_text(key, value))) == Err::<
            DiskMetricsRow,
            MetricsIssue,
        >(MetricsIssue::InvalidValue(key, value)),
        u64_of(value) is Some && key != "total_reads"@ && key != "total_writes"@ && key
            != "total_blocks_processed"@ && key != "total_cylinders_traveled"@ && key
            != "total_io_time_us"@ && key != "total_seek_time_us"@ && key
            != "total_rotational_latency_us"@ && key != "total_transfer_time_us"@ ==> disk_row(
            fields.push(field_text(key, value)),
        ) == disk_row(fields),
{
    assert(fields.push(field).drop_last() =~= fields);
    lemma_split_whole(field, '=');
    let f = field_text(key, value);
    lemma_find_pair(key, value);
    assert(fields.push(f).drop_last() =~= fields);
}

/// The same of a field of the memory metrics, whose value may be missing.
pub proof fn bad_memory_fields_are_told(
    fields: Seq<Seq<char>>,
    field: Seq<char>,
    key: Seq<char>,
    value: Seq<char>,
)
    requires
        mem_row(fields) is Ok,
        !field.contains('='),
        !key.contains('='),
    ensures
        mem_row(fields.push(field)) == Err::<DbMemMetricsRow, MetricsIssue>(
            MetricsIssue::InvalidField(field),
        ),
        value.len() > 0 && u64_of(value) is None ==> mem_row(fields.push(field_text(key, value)))
            == Err::<DbMemMetricsRow, MetricsIssue>(MetricsIssue::InvalidValue(key, value)),
{
    assert(fields.push(field).drop_last() =~= fields);
    lemma_split_whole(field, '=');
    let f = field_text(key, value);
    lemma_find_pair(key, value);
    assert(fields.push(f).drop_last() =~= fields);
}

/// Cells that hold no comma are found again between the commas of their line.
pub proof fn cells_are_found_between_commas(parts: Seq<Seq<char>>)
    requires
        parts.len() > 0,
        forall|i: int| 0 <= i < parts.len() ==> !(#[trigger] parts[i]).contains(','),
    ensures
        split_on(joined(parts), ',') == parts,
    decreases parts.len(),
{
    if parts.len() == 1 {
        lemma_split_whole(parts[0], ',');
        assert(seq![parts[0]] =~= parts);
    } else {
        let init = parts.drop_last();
        assert forall|i: int| 0 <= i < init.len() implies !(#[trigger] init[i]).contains(',') by {
            assert(init[i] == parts[i]);
        }
        cells_are_found_between_commas(init);
        assert(!parts[parts.len() - 1].contains(','));
        lemma_split_back(joined(init), parts.last());
        assert(init.push(parts.last()) =~= parts);
    }
}

} // verus!

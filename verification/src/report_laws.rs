//! What is told of a run: commands of the monitor, validation, and metrics in tables.

use vstd::prelude::*;
use crate::line_laws::{is_blank, is_word, numbers_are_read_from_digits, words_stand_between_white_space};
use crate::lines::{is_space, number_of, printed_number_is_read_back, words};
use crate::metrics::{DbMemMetricsRow, DiskMetricsRow, first_starting, first_status, metrics_cells, optional_digits, quoted, quotes_doubled, status_kb};
use crate::text::digits;
use crate::text_laws::digits_stand_for_the_number;
use crate::validation::{MonitorCommand, asks_for, first_difference, lines_sorted, small, text_not_after};
use crate::value_laws::{comes_before, texts_compare_by_their_bytes};

verus! {

/// The first difference of two lists is where they stop to agree.
pub proof fn lists_agree_up_to_their_first_difference(a: Seq<Seq<char>>, b: Seq<Seq<char>>)
    ensures
        first_difference(a, b) <= a.len(),
        first_difference(a, b) <= b.len(),
        forall|i: int| 0 <= i < first_difference(a, b) ==> #[trigger] a[i] == b[i],
        first_difference(a, b) < a.len() && first_difference(a, b) < b.len()
            ==> a[first_difference(a, b) as int] != b[first_difference(a, b) as int],
    decreases a.len(),
{
    if a.len() > 0 && b.len() > 0 && a[0] == b[0] {
        let x = a.drop_first();
        let y = b.drop_first();
        lists_agree_up_to_their_first_difference(x, y);
        assert forall|i: int| 0 <= i < first_difference(a, b) implies #[trigger] a[i] == b[i] by {
            if i > 0 {
                assert(x[i - 1] == y[i - 1]);
            }
        }
    }
}

/// Lines are put in the order of their bytes: none comes before an earlier one.
pub proof fn sorted_lines_follow_their_bytes(lines: Seq<Seq<char>>, i: int, j: int)
    requires
        lines_sorted(lines),
        0 <= i < j < lines.len(),
    ensures
        !comes_before(vstd::utf8::encode_utf8(lines[j]), vstd::utf8::encode_utf8(lines[i])),
{
    assert(text_not_after(lines[i], lines[j]));
    texts_compare_by_their_bytes(lines[i], lines[j]);
    reveal_with_fuel(crate::ordering::row_order, 2);
    let keys = crate::validation::line_keys();
    assert(keys[0].idx == 0 && keys[0].ascending);
}

/// A capital letter becomes the small letter at the same place of the alphabet; all else stays.
pub proof fn capitals_become_small(c: char)
    ensures
        'A' <= c <= 'Z' ==> 'a' <= small(c) <= 'z' && small(c) as u32 - 'a' as u32 == c as u32
            - 'A' as u32,
        !('A' <= c <= 'Z') ==> small(c) == c,
        small(small(c)) == small(c),
{
    if 'A' <= c <= 'Z' {
        assert(small(c) as u32 == c as u32 + 32);
    }
}

/// A command is known by its first word, in capitals or not, and what is behind that word does not
/// matter. Any other word is told as it is.
pub proof fn commands_are_known_by_their_first_word(
    word: Seq<char>,
    more: Seq<Seq<char>>,
    c: MonitorCommand,
)
    requires
        asks_for(seq![word] + more, c),
    ensures
        c is GetMemoryLimit <==> word.map_values(|x: char| small(x)) == "get_memory_limit"@,
        c is Validate <==> word.map_values(|x: char| small(x)) == "validate"@,
        c matches MonitorCommand::Unknown(w) ==> w@ == word,
        !(c is Ended),
{
    reveal_strlit("get_memory_limit");
    reveal_strlit("validate");
    assert((seq![word] + more)[0] == word);
    assert("get_memory_limit"@.len() != "validate"@.len());
}

/// Nothing is asked where there is no word.
pub proof fn no_word_ends_the_commands(c: MonitorCommand)
    requires
        asks_for(Seq::empty(), c),
    ensures
        c is Ended,
{
}

/// A text with one quote in place of each two.
pub open spec fn quotes_halved(s: Seq<char>) -> Seq<char>
    decreases s.len(),
{
    if s.len() == 0 {
        Seq::empty()
    } else if s.last() == '"' {
        if s.len() == 1 {
            s
        } else {
            quotes_halved(s.take(s.len() - 2)).push('"')
        }
    } else {
        quotes_halved(s.drop_last()).push(s.last())
    }
}

/// A quoted cell stands between quotes, and its text is found again by halving those within.
pub proof fn quoted_cells_are_read_back(s: Seq<char>)
    ensures
        quoted(s).len() >= 2,
        quoted(s)[0] == '"',
        quoted(s).last() == '"',
        quotes_halved(quoted(s).subrange(1, quoted(s).len() - 1)) == s,
{
    lemma_halved(s);
    assert(quoted(s).subrange(1, quoted(s).len() - 1) =~= quotes_doubled(s));
}

proof fn lemma_halved(s: Seq<char>)
    ensures
        quotes_halved(quotes_doubled(s)) == s,
    decreases s.len(),
{
    if s.len() > 0 {
        let init = s.drop_last();
        let front = quotes_doubled(init);
        let all = quotes_doubled(s);
        lemma_halved(init);
        assert(s =~= init.push(s.last()));
        if s.last() == '"' {
            assert(all == front + seq!['"', '"']);
            assert(all.take(all.len() - 2) =~= front);
            assert(all.last() == '"');
        } else {
            assert(all.drop_last() =~= front);
        }
    } else {
        assert(quotes_halved(quotes_doubled(s)) =~= s);
    }
}

/// Whether a cell tells an optional number: it is empty, or the number is read from it.
pub open spec fn tells(cell: Seq<char>, v: Option<u64>) -> bool {
    match v {
        Some(n) => number_of(cell) == Some(n as nat),
        None => cell.len() == 0,
    }
}

proof fn lemma_tells(v: Option<u64>)
    ensures
        tells(optional_digits(v), v),
{
    if let Some(n) = v {
        printed_number_is_read_back(n as nat);
    }
}

/// The cells of a row of the table of metrics tell the metrics, each in its column.
pub proof fn cells_tell_the_metrics(
    name: Seq<char>,
    disk: DiskMetricsRow,
    mem: DbMemMetricsRow,
    peak_pct: Seq<char>,
)
    ensures
        ({
            let cells = metrics_cells(name, disk, mem, peak_pct);
            &&& cells.len() == 14
            &&& quotes_halved(cells[0].subrange(1, cells[0].len() - 1)) == name
            &&& tells(cells[1], Some(disk.total_reads))
            &&& tells(cells[2], Some(disk.total_writes))
            &&& tells(cells[3], Some(disk.total_blocks_processed))
            &&& tells(cells[4], Some(disk.total_cylinders_traveled))
            &&& tells(cells[5], Some(disk.total_io_time_us))
            &&& tells(cells[6], Some(disk.total_seek_time_us))
            &&& tells(cells[7], Some(disk.total_rotational_latency_us))
            &&& tells(cells[8], Some(disk.total_transfer_time_us))
            &&& tells(cells[9], mem.vm_peak_kb)
            &&& tells(cells[10], mem.vm_size_kb)
            &&& tells(cells[11], mem.vm_hwm_kb)
            &&& tells(cells[12], mem.vm_rss_kb)
            &&& cells[13] == peak_pct
        }),
{
    quoted_cells_are_read_back(name);
    lemma_tells(Some(disk.total_reads));
    lemma_tells(Some(disk.total_writes));
    lemma_tells(Some(disk.total_blocks_processed));
    lemma_tells(Some(disk.total_cylinders_traveled));
    lemma_tells(Some(disk.total_io_time_us));
    lemma_tells(Some(disk.total_seek_time_us));
    lemma_tells(Some(disk.total_rotational_latency_us));
    lemma_tells(Some(disk.total_transfer_time_us));
    lemma_tells(mem.vm_peak_kb);
    lemma_tells(mem.vm_size_kb);
    lemma_tells(mem.vm_hwm_kb);
    lemma_tells(mem.vm_rss_kb);
}

proof fn lemma_words_behind_blanks(blank: Seq<char>, s: Seq<char>)
    requires
        is_blank(blank),
    ensures
        words(blank + s) == words(s),
    decreases blank.len(),
{
    if blank.len() == 0 {
        assert(blank + s =~= s);
    } else {
        let rest = blank.drop_first();
        assert forall|i: int| 0 <= i < rest.len() implies is_space(#[trigger] rest[i]) by {
            assert(rest[i] == blank[i + 1]);
        }
        lemma_words_behind_blanks(rest, s);
        assert(blank + s =~= seq![blank[0]] + (rest + s));
        words_stand_between_white_space(seq!['x'], blank[0], rest + s);
    }
}

/// A line of the status of a process that starts with a key and has a number as its next word tells
/// that number of that key.
pub proof fn status_lines_tell_their_number(
    key: Seq<char>,
    blank: Seq<char>,
    n: u64,
    rest: Seq<char>,
)
    requires
        is_word(key),
        is_blank(blank),
        blank.len() > 0,
        rest.len() > 0 ==> is_space(rest[0]),
    ensures
        status_kb(key + blank + digits(n as nat) + rest, key) == Some(n),
{
    let d = digits(n as nat);
    digits_stand_for_the_number(n as nat);
    numbers_are_read_from_digits(d, n);
    let line = key + blank + d + rest;
    let tail = d + rest;
    let c = blank[0];
    let gap = blank.drop_first();
    assert forall|i: int| 0 <= i < d.len() implies !is_space(#[trigger] d[i]) by {
        assert('0' <= d[i] <= '9');
    }
    assert(is_word(d));
    assert(line =~= key + seq![c] + (gap + tail));
    words_stand_between_white_space(key, c, gap + tail);
    assert(seq![c] + (gap + tail) =~= blank + tail);
    lemma_words_behind_blanks(blank, tail);
    if rest.len() == 0 {
        assert(tail =~= d);
        words_stand_between_white_space(d, c, rest);
    } else {
        assert(tail =~= d + seq![rest[0]] + rest.drop_first());
        words_stand_between_white_space(d, rest[0], rest.drop_first());
    }
    assert(words(tail)[0] == d);
    assert(words(line)[1] == d);
    assert(key.is_prefix_of(line));
}

/// The line that is looked for is the first one with its start.
pub proof fn first_line_with_a_start_is_found(lines: Seq<Seq<char>>, prefix: Seq<char>, k: int)
    requires
        0 <= k < lines.len(),
        prefix.is_prefix_of(lines[k]),
        forall|i: int| 0 <= i < k ==> !prefix.is_prefix_of(#[trigger] lines[i]),
    ensures
        first_starting(lines, prefix) == Some(lines[k]),
    decreases k,
{
    if k > 0 {
        let rest = lines.drop_first();
        assert(!prefix.is_prefix_of(lines[0]));
        assert forall|i: int| 0 <= i < k - 1 implies !prefix.is_prefix_of(#[trigger] rest[i]) by {
            assert(rest[i] == lines[i + 1]);
        }
        first_line_with_a_start_is_found(rest, prefix, k - 1);
    }
}

/// No line is found where none has the start.
pub proof fn no_line_with_a_start_is_found(lines: Seq<Seq<char>>, prefix: Seq<char>)
    requires
        forall|i: int| 0 <= i < lines.len() ==> !prefix.is_prefix_of(#[trigger] lines[i]),
    ensures
        first_starting(lines, prefix) is None,
    decreases lines.len(),
{
    if lines.len() > 0 {
        let rest = lines.drop_first();
        assert(!prefix.is_prefix_of(lines[0]));
        assert forall|i: int| 0 <= i < rest.len() implies !prefix.is_prefix_of(
            #[trigger] rest[i],
        ) by {
            assert(rest[i] == lines[i + 1]);
        }
        no_line_with_a_start_is_found(rest, prefix);
    }
}

/// What the status of a process tells of a key is what the first line tells that tells anything of
/// it.
pub proof fn first_status_line_counts(lines: Seq<Seq<char>>, key: Seq<char>)
    ensures
        match first_status(lines, key) {
            Some(v) => exists|k: int|
                0 <= k < lines.len() && status_kb(#[trigger] lines[k], key) == Some(v) && forall|
                    i: int,
                |
                    0 <= i < k ==> status_kb(#[trigger] lines[i], key) is None,
            None => forall|i: int|
                0 <= i < lines.len() ==> status_kb(#[trigger] lines[i], key) is None,
        },
    decreases lines.len(),
{
    if lines.len() > 0 {
        let init = lines.drop_last();
        let last = lines.len() - 1;
        first_status_line_counts(init, key);
        if first_status(init, key) is Some {
            let v = first_status(init, key)->0;
            let k = choose|k: int|
                0 <= k < init.len() && status_kb(#[trigger] init[k], key) == Some(v) && forall|
                    i: int,
                |
                    0 <= i < k ==> status_kb(#[trigger] init[i], key) is None;
            assert(lines[k] == init[k]);
            assert forall|i: int| 0 <= i < k implies status_kb(#[trigger] lines[i], key) is None by {
                assert(lines[i] == init[i]);
            }
        } else {
            assert forall|i: int| 0 <= i < last implies status_kb(
                #[trigger] lines[i],
                key,
            ) is None by {
                assert(lines[i] == init[i]);
            }
            assert(lines[last] == lines.last());
        }
    }
}

} // verus!

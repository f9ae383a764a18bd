//! Holding what the database gives out against what is expected of it.

use std::collections::VecDeque;
use vstd::prelude::*;
use crate::floats::Comparison;
use crate::join_table::all_len;
use crate::lines::{chars_of, split_words, trim, trimmed, words};
use crate::ordering::{SortKey, all_typed, keys_within, not_after, row_order, row_order_flips, row_typed, sortable, sorted};
use crate::row::Row;
use crate::row_sort::sort_rows;
use crate::text::same_text;
use crate::value::{Data, DataType, Value, equal_strings_are_the_same};
use crate::views::{rows_of, texts};

verus! {

/// What the monitor finds wrong.
#[derive(Debug, PartialEq, Eq)]
pub enum ValidationError {
    /// Another number of rows than expected.
    RowCountMismatch { expected_rows: usize, found_rows: usize },
    /// A row behind the last one that was expected.
    AdditionalRow(String),
    /// An empty line among the rows.
    EmptyLine,
    /// Another row than expected; where rows come in order, with the number of the line.
    RowMismatch { expected: String, found: String, line: Option<u64> },
    /// Something else than the end of the rows.
    ExpectedEnd(String),
}

/// A line as a row of one text.
pub open spec fn line_row(line: Seq<char>) -> Seq<Value> {
    seq![Value::Str(line)]
}

/// Lines as rows of one text.
pub open spec fn line_rows(lines: Seq<Seq<char>>) -> Seq<Seq<Value>> {
    lines.map_values(|l: Seq<char>| line_row(l))
}

/// The order of lines: that of their text.
pub open spec fn line_keys() -> Seq<SortKey> {
    seq![SortKey { idx: 0, ascending: true }]
}

/// Whether a text does not come after another one.
pub open spec fn text_not_after(a: Seq<char>, b: Seq<char>) -> bool {
    not_after(line_keys(), line_row(a), line_row(b))
}

/// Whether lines are in order.
pub open spec fn lines_sorted(lines: Seq<Seq<char>>) -> bool {
    forall|i: int, j: int|
        0 <= i < j < lines.len() ==> text_not_after(#[trigger] lines[i], #[trigger] lines[j])
}

/// Where two lists of lines first differ.
pub open spec fn first_difference(a: Seq<Seq<char>>, b: Seq<Seq<char>>) -> nat
    decreases a.len(),
{
    if a.len() == 0 || b.len() == 0 || a[0] != b[0] {
        0
    } else {
        1 + first_difference(a.drop_first(), b.drop_first())
    }
}

proof fn lemma_first_difference(a: Seq<Seq<char>>, b: Seq<Seq<char>>, n: int)
    requires
        0 <= n < a.len(),
        a.len() == b.len(),
        forall|i: int| 0 <= i < n ==> #[trigger] a[i] == b[i],
        a[n] != b[n],
    ensures
        first_difference(a, b) == n,
    decreases a.len(),
{
    if n > 0 {
        assert(a[0] == b[0]);
        let ra = a.drop_first();
        let rb = b.drop_first();
        assert forall|i: int| 0 <= i < n - 1 implies #[trigger] ra[i] == rb[i] by {
            assert(a[i + 1] == b[i + 1]);
        }
        lemma_first_difference(ra, rb, n - 1);
    }
}

/// Of two texts, neither of which comes after the other, both are the same.
pub proof fn text_order_is_antisymmetric(a: Seq<char>, b: Seq<char>)
    requires
        text_not_after(a, b),
        text_not_after(b, a),
    ensures
        a == b,
{
    let keys = line_keys();
    row_order_flips(keys, line_row(a), line_row(b));
    assert(row_order(keys, line_row(a), line_row(b)) == Comparison::Equal);
    reveal_with_fuel(row_order, 2);
    assert(keys[0].idx == 0);
    equal_strings_are_the_same(a, b);
}

/// Lines can be put in order in one way only.
pub proof fn sorted_lines_are_unique(a: Seq<Seq<char>>, b: Seq<Seq<char>>)
    requires
        lines_sorted(a),
        lines_sorted(b),
        a.to_multiset() == b.to_multiset(),
    ensures
        a == b,
    decreases a.len(),
{
    broadcast use vstd::seq_lib::group_to_multiset_ensures;

    assert(a.len() == a.to_multiset().len());
    assert(b.len() == b.to_multiset().len());
    if a.len() == 0 {
        assert(a =~= b);
    } else {
        let x = a.last();
        let y = b.last();
        assert(a.contains(x) && b.contains(y));
        assert(a.to_multiset().count(x) > 0);
        assert(b.contains(x));
        assert(b.to_multiset().count(y) > 0);
        assert(a.contains(y));
        let i = choose|i: int| 0 <= i < b.len() && b[i] == x;
        let j = choose|j: int| 0 <= j < a.len() && a[j] == y;
        if i < b.len() - 1 && j < a.len() - 1 {
            assert(text_not_after(b[i], b[b.len() - 1]));
            assert(text_not_after(a[j], a[a.len() - 1]));
            text_order_is_antisymmetric(x, y);
        }
        assert(x == y);
        assert(a =~= a.drop_last().push(x));
        assert(b =~= b.drop_last().push(x));
        assert(a.drop_last().to_multiset() =~= a.to_multiset().remove(x));
        assert(b.drop_last().to_multiset() =~= b.to_multiset().remove(x));
        sorted_lines_are_unique(a.drop_last(), b.drop_last());
    }
}

proof fn lemma_line_rows_multiset(a: Seq<Seq<char>>, b: Seq<Seq<char>>)
    ensures
        line_rows(a).to_multiset() == line_rows(b).to_multiset() <==> a.to_multiset()
            == b.to_multiset(),
{
    let f = |l: Seq<char>| line_row(l);
    assert forall|x: Seq<char>, y: Seq<char>| #[trigger] f(x) == #[trigger] f(y) implies x == y by {
        assert(f(x)[0] == f(y)[0]);
    }
    if a.to_multiset() == b.to_multiset() {
        lemma_map_counts(a, b);
    }
    if line_rows(a).to_multiset() == line_rows(b).to_multiset() {
        assert forall|v: Seq<char>| #[trigger]
            a.to_multiset().count(v) == b.to_multiset().count(v) by {
            lemma_row_count(a, v);
            lemma_row_count(b, v);
        }
        assert(a.to_multiset() =~= b.to_multiset());
    }
}

proof fn lemma_row_count(a: Seq<Seq<char>>, v: Seq<char>)
    ensures
        line_rows(a).to_multiset().count(line_row(v)) == a.to_multiset().count(v),
    decreases a.len(),
{
    broadcast use vstd::seq_lib::group_to_multiset_ensures;

    if a.len() == 0 {
        assert(line_rows(a) =~= Seq::<Seq<Value>>::empty());
    } else {
        let rest = a.drop_last();
        let x = a.last();
        lemma_row_count(rest, v);
        assert(a =~= rest.push(x));
        assert(line_rows(a) =~= line_rows(rest).push(line_row(x)));
        assert(line_row(x)[0] == Value::Str(x));
        assert(line_row(v)[0] == Value::Str(v));
        assert(line_row(x) == line_row(v) <==> x == v);
    }
}

proof fn lemma_map_counts(a: Seq<Seq<char>>, b: Seq<Seq<char>>)
    requires
        a.to_multiset() == b.to_multiset(),
    ensures
        line_rows(a).to_multiset() == line_rows(b).to_multiset(),
    decreases a.len(),
{
    broadcast use vstd::seq_lib::group_to_multiset_ensures;

    assert(a.len() == a.to_multiset().len());
    assert(b.len() == b.to_multiset().len());
    if a.len() == 0 {
        assert(a =~= b);
    } else {
        let x = a.last();
        assert(a.contains(x));
        assert(a.to_multiset().count(x) > 0);
        assert(b.contains(x));
        let i = choose|i: int| 0 <= i < b.len() && b[i] == x;
        let ra = a.drop_last();
        let rb = b.remove(i);
        assert(a =~= ra.push(x));
        assert(ra.to_multiset() =~= a.to_multiset().remove(x));
        vstd::seq_lib::to_multiset_remove(b, i);
        assert(rb.to_multiset() =~= ra.to_multiset());
        lemma_map_counts(ra, rb);
        assert(line_rows(a) =~= line_rows(ra).push(line_row(x)));
        vstd::seq_lib::to_multiset_remove(line_rows(b), i);
        assert(line_rows(b).remove(i) =~= line_rows(rb));
        assert(line_rows(b).contains(line_rows(b)[i]));
        assert(line_rows(b).to_multiset().count(line_row(x)) > 0);
        assert(line_rows(b).to_multiset() =~= line_rows(rb).to_multiset().insert(line_row(x)));
    }
}

/// Compares rows that may come in any order.
pub struct SortedCheck {
    expected: VecDeque<Row>,
    found: VecDeque<Row>,
}

spec fn is_line(row: Seq<Value>) -> bool {
    row.len() == 1 && row[0] is Str
}

spec fn lines_of_rows(rows: Seq<Seq<Value>>) -> Seq<Seq<char>> {
    rows.map_values(|r: Seq<Value>| r[0]->Str_0)
}

spec fn are_lines(rows: Seq<Seq<Value>>) -> bool {
    forall|i: int| 0 <= i < rows.len() ==> is_line(#[trigger] rows[i])
}

proof fn lemma_rows_of_lines(rows: Seq<Seq<Value>>)
    requires
        are_lines(rows),
    ensures
        line_rows(lines_of_rows(rows)) == rows,
{
    let ls = lines_of_rows(rows);
    assert forall|i: int| 0 <= i < rows.len() implies #[trigger] line_rows(ls)[i] == rows[i] by {
        assert(is_line(rows[i]));
        assert(line_rows(ls)[i] =~= rows[i]);
    }
    assert(line_rows(ls) =~= rows);
}

fn row_of_line(line: &str) -> (r: Row)
    ensures
        r@ == line_row(line@),
{
    let mut values: Vec<Data> = Vec::new();
    values.push(Data::String(line.to_owned()));
    let row = Row::new(values);
    assert(row@ =~= line_row(line@));
    row
}

fn line_of_row(row: &Row) -> (r: String)
    requires
        is_line(row@),
    ensures
        r@ == row@[0]->Str_0,
{
    match row.get(0) {
        Some(Data::String(s)) => s.clone(),
        _ => String::new(),
    }
}

impl SortedCheck {
    /// The rows that are expected.
    pub closed spec fn expected(&self) -> Seq<Seq<char>> {
        lines_of_rows(rows_of(self.expected@))
    }

    /// The rows that came.
    pub closed spec fn found(&self) -> Seq<Seq<char>> {
        lines_of_rows(rows_of(self.found@))
    }

    pub closed spec fn inv(&self) -> bool {
        are_lines(rows_of(self.expected@)) && are_lines(rows_of(self.found@))
    }

    pub fn new() -> (r: SortedCheck)
        ensures
            r.inv(),
            r.expected().len() == 0,
            r.found().len() == 0,
    {
        SortedCheck { expected: VecDeque::new(), found: VecDeque::new() }
    }

    /// Takes a line of what is expected; tells whether more may come. The first empty line ends
    /// the rows.
    pub fn expect(&mut self, line: &str) -> (r: bool)
        requires
            old(self).inv(),
        ensures
            final(self).inv(),
            final(self).found() == old(self).found(),
            r == (trimmed(line@).len() > 0),
            final(self).expected() == if r {
                old(self).expected().push(trimmed(line@))
            } else {
                old(self).expected()
            },
    {
        let t = trim(line);
        if t.is_empty() {
            return false;
        }
        let ghost before = rows_of(self.expected@);
        self.expected.push_back(row_of_line(t));
        proof {
            assert(rows_of(self.expected@) =~= before.push(line_row(t@)));
            assert(self.expected() =~= old(self).expected().push(t@));
        }
        true
    }

    /// Takes a line of the database; tells whether it is the end of the rows.
    pub fn offer(&mut self, line: &str) -> (r: Result<bool, ValidationError>)
        requires
            old(self).inv(),
        ensures
            final(self).inv(),
            final(self).expected() == old(self).expected(),
            ({
                let t = trimmed(line@);
                let e = old(self).expected().len();
                let f = old(self).found().len();
                if t == "!"@ {
                    &&& final(self).found() == old(self).found()
                    &&& e == f ==> r == Ok::<bool, ValidationError>(true)
                    &&& e != f ==> (r matches Err(
                        ValidationError::RowCountMismatch { expected_rows, found_rows },
                    ) && expected_rows == e && found_rows == f)
                } else if e == f {
                    &&& final(self).found() == old(self).found()
                    &&& r matches Err(ValidationError::AdditionalRow(l)) && l@ == line@
                } else if t.len() == 0 {
                    &&& final(self).found() == old(self).found()
                    &&& r == Err::<bool, ValidationError>(ValidationError::EmptyLine)
                } else {
                    &&& final(self).found() == old(self).found().push(t)
                    &&& r == Ok::<bool, ValidationError>(false)
                }
            }),
    {
        let t = trim(line);
        if same_text(t, "!") {
            if self.found.len() != self.expected.len() {
                return Err(
                    ValidationError::RowCountMismatch {
                        expected_rows: self.expected.len(),
                        found_rows: self.found.len(),
                    },
                );
            }
            return Ok(true);
        }
        if self.found.len() == self.expected.len() {
            return Err(ValidationError::AdditionalRow(line.to_owned()));
        }
        if t.is_empty() {
            return Err(ValidationError::EmptyLine);
        }
        let ghost before = rows_of(self.found@);
        self.found.push_back(row_of_line(t));
        proof {
            assert(rows_of(self.found@) =~= before.push(line_row(t@)));
            assert(self.found() =~= old(self).found().push(t@));
        }
        Ok(false)
    }

    /// Compares the rows that came with those that were expected, whatever their order. Where
    /// they differ, the first pair is told that differs once both are put in order.
    pub fn finish(self) -> (r: Result<(), ValidationError>)
        requires
            self.inv(),
            self.expected().len() == self.found().len(),
        ensures
            r is Ok <==> self.expected().to_multiset() == self.found().to_multiset(),
            r matches Err(e) ==> exists|a: Seq<Seq<char>>, b: Seq<Seq<char>>|
                {
                    &&& #[trigger] lines_sorted(a)
                    &&& #[trigger] lines_sorted(b)
                    &&& a.to_multiset() == self.expected().to_multiset()
                    &&& b.to_multiset() == self.found().to_multiset()
                    &&& first_difference(a, b) < a.len()
                    &&& e matches ValidationError::RowMismatch { expected, found, line }
                        && expected@ == a[first_difference(a, b) as int] && found@
                        == b[first_difference(a, b) as int] && line is None
                },
    {
        let mut keys: Vec<SortKey> = Vec::new();
        keys.push(SortKey { idx: 0, ascending: true });
        let ghost before_e = rows_of(self.expected@);
        let ghost before_f = rows_of(self.found@);
        proof {
            assert(keys@ =~= line_keys());
            lemma_lines_sortable(before_e);
            lemma_lines_sortable(before_f);
        }
        let expected = sort_rows(self.expected, keys.as_slice());
        let found = sort_rows(self.found, keys.as_slice());
        let ghost re = rows_of(expected@);
        let ghost rf = rows_of(found@);
        let ghost a = lines_of_rows(re);
        let ghost b = lines_of_rows(rf);
        proof {
            broadcast use vstd::seq_lib::group_to_multiset_ensures;

            lemma_lines_permuted(before_e, re);
            lemma_lines_permuted(before_f, rf);
            lemma_sorted_lines(re);
            lemma_sorted_lines(rf);
            assert(re.len() == re.to_multiset().len());
            assert(rf.len() == rf.to_multiset().len());
            assert(before_e.len() == before_e.to_multiset().len());
            assert(before_f.len() == before_f.to_multiset().len());
            assert(a.len() == b.len());
        }
        let mut i: usize = 0;
        while i < expected.len() && i < found.len()
            invariant
                i <= expected@.len() == found@.len(),
                are_lines(rows_of(expected@)),
                are_lines(rows_of(found@)),
                a == lines_of_rows(rows_of(expected@)),
                b == lines_of_rows(rows_of(found@)),
                lines_sorted(a),
                lines_sorted(b),
                a.to_multiset() == self.expected().to_multiset(),
                b.to_multiset() == self.found().to_multiset(),
                forall|k: int| 0 <= k < i ==> #[trigger] a[k] == b[k],
            decreases expected@.len() - i,
        {
            proof {
                assert(is_line(rows_of(expected@)[i as int]));
                assert(is_line(rows_of(found@)[i as int]));
            }
            let x = line_of_row(&expected[i]);
            let y = line_of_row(&found[i]);
            proof {
                assert(a[i as int] == x@);
                assert(b[i as int] == y@);
            }
            if !same_text(x.as_str(), y.as_str()) {
                proof {
                    lemma_first_difference(a, b, i as int);
                    if self.expected().to_multiset() == self.found().to_multiset() {
                        sorted_lines_are_unique(a, b);
                    }
                    assert(lines_sorted(a) && lines_sorted(b));
                }
                return Err(ValidationError::RowMismatch { expected: x, found: y, line: None });
            }
            i += 1;
        }
        proof {
            assert(a =~= b);
        }
        Ok(())
    }
}

proof fn lemma_lines_sortable(rows: Seq<Seq<Value>>)
    requires
        are_lines(rows),
    ensures
        all_len(rows, 1),
        keys_within(line_keys(), 1),
        sortable(line_keys(), rows),
{
    let types = seq![DataType::String];
    assert forall|i: int| 0 <= i < rows.len() implies row_typed(
        line_keys(),
        types,
        #[trigger] rows[i],
    ) by {
        assert(is_line(rows[i]));
        equal_strings_are_the_same(rows[i][0]->Str_0, rows[i][0]->Str_0);
    }
    assert forall|i: int| 0 <= i < rows.len() implies (#[trigger] rows[i]).len() == 1 by {
        assert(is_line(rows[i]));
    }
    assert(all_typed(line_keys(), types, rows));
}

proof fn lemma_lines_permuted(a: Seq<Seq<Value>>, b: Seq<Seq<Value>>)
    requires
        are_lines(a),
        a.to_multiset() == b.to_multiset(),
    ensures
        are_lines(b),
        lines_of_rows(a).to_multiset() == lines_of_rows(b).to_multiset(),
{
    broadcast use vstd::seq_lib::group_to_multiset_ensures;

    assert forall|i: int| 0 <= i < b.len() implies is_line(#[trigger] b[i]) by {
        assert(b.contains(b[i]));
        assert(b.to_multiset().count(b[i]) > 0);
        assert(a.contains(b[i]));
    }
    lemma_rows_of_lines(a);
    lemma_rows_of_lines(b);
    lemma_line_rows_multiset(lines_of_rows(a), lines_of_rows(b));
}

proof fn lemma_sorted_lines(rows: Seq<Seq<Value>>)
    requires
        are_lines(rows),
        sorted(line_keys(), rows),
    ensures
        lines_sorted(lines_of_rows(rows)),
{
    let ls = lines_of_rows(rows);
    lemma_rows_of_lines(rows);
    assert forall|i: int, j: int| 0 <= i < j < ls.len() implies text_not_after(
        #[trigger] ls[i],
        #[trigger] ls[j],
    ) by {
        assert(line_rows(ls)[i] == line_row(ls[i]));
        assert(line_rows(ls)[j] == line_row(ls[j]));
        assert(not_after(line_keys(), rows[i], rows[j]));
    }
}

/// Compares rows that come in the order that is expected.
pub struct PresortedCheck {
    line_count: u64,
    matched: Ghost<Seq<Seq<char>>>,
}

impl PresortedCheck {
    /// How many lines were compared; the count stops at the largest number.
    pub closed spec fn lines(&self) -> int {
        self.line_count as int
    }

    /// The rows that came as expected.
    pub closed spec fn matched(&self) -> Seq<Seq<char>> {
        self.matched@
    }

    pub fn new() -> (r: PresortedCheck)
        ensures
            r.lines() == 0,
            r.matched().len() == 0,
    {
        PresortedCheck { line_count: 0, matched: Ghost(Seq::empty()) }
    }

    /// Takes the next line of what is expected and of the database; tells whether it is the end
    /// of the rows. An empty line ends what is expected.
    pub fn offer(&mut self, expected_line: &str, db_line: &str) -> (r: Result<bool, ValidationError>)
        ensures
            final(self).lines() == if old(self).lines() < u64::MAX {
                old(self).lines() + 1
            } else {
                old(self).lines()
            },
            ({
                let e = trimmed(expected_line@);
                let d = trimmed(db_line@);
                if e.len() == 0 && d == "!"@ {
                    &&& r == Ok::<bool, ValidationError>(true)
                    &&& final(self).matched() == old(self).matched()
                } else if e.len() == 0 {
                    &&& r matches Err(ValidationError::ExpectedEnd(l)) && l@ == db_line@
                    &&& final(self).matched() == old(self).matched()
                } else if e == d {
                    &&& r == Ok::<bool, ValidationError>(false)
                    &&& final(self).matched() == old(self).matched().push(e)
                } else {
                    &&& r matches Err(ValidationError::RowMismatch { expected, found, line })
                        && expected@ == expected_line@ && found@ == db_line@ && (line matches Some(
                        n,
                    ) && n == final(self).lines())
                    &&& final(self).matched() == old(self).matched()
                }
            }),
    {
        if self.line_count < u64::MAX {
            self.line_count += 1;
        }
        let e = trim(expected_line);
        let d = trim(db_line);
        if e.is_empty() {
            if same_text(d, "!") {
                return Ok(true);
            }
            return Err(ValidationError::ExpectedEnd(db_line.to_owned()));
        }
        if !same_text(e, d) {
            return Err(
                ValidationError::RowMismatch {
                    expected: expected_line.to_owned(),
                    found: db_line.to_owned(),
                    line: Some(self.line_count),
                },
            );
        }
        proof {
            self.matched@ = self.matched@.push(e@);
        }
        Ok(false)
    }
}

/// The least memory limit that the database is run with, in megabytes.
pub const MIN_MEMORY_LIMIT_MB: u64 = 64;

/// Whether the database can be run with a memory limit, given in megabytes.
pub fn memory_limit_suffices(mb: u64) -> (r: bool)
    ensures
        r == (mb >= MIN_MEMORY_LIMIT_MB),
{
    mb >= MIN_MEMORY_LIMIT_MB
}

/// The longest command that the monitor reads, in bytes.
pub const MAX_COMMAND_LENGTH: u64 = 1024;

/// What the database asks of the monitor.
#[derive(Debug, PartialEq, Eq)]
pub enum MonitorCommand {
    /// It asks for the memory limit.
    GetMemoryLimit,
    /// Its rows follow.
    Validate,
    /// A word that the monitor does not know.
    Unknown(String),
    /// It went away without giving out its rows.
    Ended,
}

/// The small letter of a capital one; other characters stay.
pub open spec fn small(c: char) -> char {
    if 'A' <= c <= 'Z' {
        (c as u32 + 32) as char
    } else {
        c
    }
}

/// Whether two texts are the same but for capital letters in the first.
pub open spec fn same_but_case(a: Seq<char>, b: Seq<char>) -> bool {
    a.map_values(|c: char| small(c)) == b
}

fn small_letter(c: char) -> (r: char)
    ensures
        r == small(c),
{
    if c == 'A' {
        'a'
    } else if c == 'B' {
        'b'
    } else if c == 'C' {
        'c'
    } else if c == 'D' {
        'd'
    } else if c == 'E' {
        'e'
    } else if c == 'F' {
        'f'
    } else if c == 'G' {
        'g'
    } else if c == 'H' {
        'h'
    } else if c == 'I' {
        'i'
    } else if c == 'J' {
        'j'
    } else if c == 'K' {
        'k'
    } else if c == 'L' {
        'l'
    } else if c == 'M' {
        'm'
    } else if c == 'N' {
        'n'
    } else if c == 'O' {
        'o'
    } else if c == 'P' {
        'p'
    } else if c == 'Q' {
        'q'
    } else if c == 'R' {
        'r'
    } else if c == 'S' {
        's'
    } else if c == 'T' {
        't'
    } else if c == 'U' {
        'u'
    } else if c == 'V' {
        'v'
    } else if c == 'W' {
        'w'
    } else if c == 'X' {
        'x'
    } else if c == 'Y' {
        'y'
    } else if c == 'Z' {
        'z'
    } else {
        c
    }
}

fn is_word(word: &str, name: &str) -> (r: bool)
    ensures
        r == same_but_case(word@, name@),
{
    let a = chars_of(word);
    let b = chars_of(name);
    let ghost lower = word@.map_values(|c: char| small(c));
    if a.len() != b.len() {
        return false;
    }
    let mut i: usize = 0;
    while i < a.len()
        invariant
            i <= a@.len() == b@.len(),
            a@ == word@,
            b@ == name@,
            lower == word@.map_values(|c: char| small(c)),
            forall|k: int| 0 <= k < i ==> #[trigger] lower[k] == b@[k],
        decreases a@.len() - i,
    {
        assert(lower[i as int] == small(a@[i as int]));
        if small_letter(a[i]) != b[i] {
            return false;
        }
        i += 1;
    }
    assert(lower =~= b@);
    true
}

/// What the words of a line ask.
pub open spec fn asks_for(line_words: Seq<Seq<char>>, c: MonitorCommand) -> bool {
    if line_words.len() == 0 {
        c is Ended
    } else if same_but_case(line_words[0], "get_memory_limit"@) {
        c is GetMemoryLimit
    } else if same_but_case(line_words[0], "validate"@) {
        c is Validate
    } else {
        c matches MonitorCommand::Unknown(w) && w@ == line_words[0]
    }
}

/// Reads a command out of a line of the database. A line without words is passed over, unless
/// nothing was read at all: the database has then gone away.
pub fn read_command(line: &str, read_length: u64) -> (r: Option<MonitorCommand>)
    ensures
        match r {
            Some(c) => (words(line@).len() > 0 || read_length == 0) && asks_for(words(line@), c),
            None => words(line@).len() == 0 && read_length != 0,
        },
{
    let parts = split_words(line);
    assert(texts(parts@).len() == parts@.len());
    if parts.len() == 0 {
        if read_length == 0 {
            return Some(MonitorCommand::Ended);
        }
        return None;
    }
    let word = parts[0].as_str();
    assert(texts(parts@)[0] == word@);
    if is_word(word, "get_memory_limit") {
        Some(MonitorCommand::GetMemoryLimit)
    } else if is_word(word, "validate") {
        Some(MonitorCommand::Validate)
    } else {
        Some(MonitorCommand::Unknown(word.to_owned()))
    }
}

} // verus!

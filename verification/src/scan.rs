//! Reading a table.

use std::collections::VecDeque;
use vstd::prelude::*;
use crate::block_decode::{block_rows, decode_block_into_rows_maybe_filtered, filter_view, keep_view, kept_count, lemma_row_lengths};
use crate::block_search::{BlockSearch, OrderedScanBounds, after_bound, before_bound, ends_of_block, is_strictly_after_bound, is_strictly_before_bound, ordered_column_min_max_in_block, restricted_range};
use crate::bloom::RuntimeMembershipFilter;
use crate::catalog::{TableSpec, types_of};
use crate::error::DbError;
use crate::filter::{ResolvedPredicate, Test, all_read_within, first_missing_column, resolve_predicates, resolved, tests};
use crate::memory::{MemoryAccount, QueryMemoryManager};
use crate::query::{Condition, Predicate, conditions};
use crate::progress::{nearer, nearer_at};
use crate::row::{Row, RowSchema, heap_size, string_lengths};
use crate::value::{DataType, Value};
use crate::views::rows_of;
use crate::join_table::all_len;

verus! {

/// The largest number of blocks that a scan asks for at a time.
pub const SCAN_PREFETCH_BLOCKS: usize = 512;

/// What a scan asks for or gives.
#[derive(Debug)]
pub enum ScanStep {
    /// The place and the size of the table's file are to be told.
    AskFile,
    /// These blocks are to be read and supplied.
    Need { start: u64, count: u64 },
    /// Work was done; another step is to be made.
    Again,
    /// A row of the table.
    Row(Row),
    /// There are no more rows.
    Done,
}

struct Batch {
    rows: VecDeque<Row>,
    bytes: usize,
}

struct Search {
    file_start: u64,
    file_blocks: u64,
    start_idx: u64,
    search: BlockSearch,
    asked: Option<u64>,
}

struct Reading {
    start: u64,
    num_blocks: u64,
    offset: u64,
    asked: u64,
}

enum ScanState {
    NotStarted,
    Lower(Search),
    Upper(Search),
    Reading(Reading),
    Failed,
}

/// Reads the rows of a table, block by block.
pub struct ScanOperator {
    table_id: String,
    schema: RowSchema,
    keep_columns: Option<Vec<bool>>,
    scan_filter: Vec<ResolvedPredicate>,
    ordered_bounds: Option<OrderedScanBounds>,
    runtime_filter: Option<RuntimeMembershipFilter>,
    state: ScanState,
    ready: VecDeque<Batch>,
    read: Ghost<Seq<Seq<u8>>>,
    emitted: Ghost<Seq<Seq<Value>>>,
    file: Ghost<(int, int)>,
    lower_seen: Ghost<Map<int, Seq<u8>>>,
    upper_seen: Ghost<Map<int, Seq<u8>>>,
    ends: Ghost<(int, int)>,
}

/// Whether a block lies before the place that is sought: for the lower end of a range, all its
/// values come before the bound; for the upper end, some value does not come after it.
pub open spec fn lies_before(
    data: Seq<u8>,
    upper: bool,
    bounds: OrderedScanBounds,
    types: Seq<DataType>,
) -> bool {
    let ends = (ends_of_block(data, types, bounds.ordered_col_idx as int)->Ok_0)->0;
    if upper {
        !after_bound(ends.0, bounds.upper->0)->0
    } else {
        before_bound(ends.1, bounds.lower->0)->0
    }
}

/// Whether a block can hold values within the bounds of a scan.
pub open spec fn may_hold(
    data: Seq<u8>,
    bounds: OrderedScanBounds,
    types: Seq<DataType>,
) -> bool {
    &&& bounds.lower is Some ==> !lies_before(data, false, bounds, types)
    &&& bounds.upper is Some ==> lies_before(data, true, bounds, types)
}

/// Whether the blocks of a file that lie before a place come first.
pub open spec fn is_parted(
    file: Seq<Seq<u8>>,
    upper: bool,
    bounds: OrderedScanBounds,
    types: Seq<DataType>,
) -> bool {
    forall|i: int, j: int|
        0 <= i <= j < file.len() && #[trigger] lies_before(file[j], upper, bounds, types)
            ==> #[trigger] lies_before(file[i], upper, bounds, types)
}

/// Whether what was seen of a file is what it holds.
pub open spec fn was_seen(seen: Map<int, Seq<u8>>, file: Seq<Seq<u8>>) -> bool {
    forall|i: int| #[trigger] seen.dom().contains(i) && 0 <= i < file.len() ==> seen[i] == file[i]
}

spec fn answered(
    answers: Map<int, bool>,
    seen: Map<int, Seq<u8>>,
    upper: bool,
    bounds: OrderedScanBounds,
    types: Seq<DataType>,
) -> bool {
    &&& answers.dom() == seen.dom()
    &&& forall|i: int| #[trigger]
        answers.dom().contains(i) ==> answers[i] == lies_before(seen[i], upper, bounds, types)
}

spec fn is_boundary(
    at: int,
    size: int,
    seen: Map<int, Seq<u8>>,
    upper: bool,
    bounds: OrderedScanBounds,
    types: Seq<DataType>,
) -> bool {
    &&& 0 <= at <= size
    &&& at > 0 ==> seen.dom().contains(at - 1) && lies_before(seen[at - 1], upper, bounds, types)
    &&& at < size ==> seen.dom().contains(at) && !lies_before(seen[at], upper, bounds, types)
}

proof fn lemma_search_ended(
    search: BlockSearch,
    seen: Map<int, Seq<u8>>,
    upper: bool,
    bounds: OrderedScanBounds,
    types: Seq<DataType>,
)
    requires
        search.inv(),
        search.asks() is None,
        answered(search.answers(), seen, upper, bounds, types),
    ensures
        is_boundary(search.found(), search.size(), seen, upper, bounds, types),
{
    search.lemma_boundary_was_asked();
}

/// The rows that some blocks hold, one block after the other.
pub open spec fn rows_of_blocks(
    blocks: Seq<Seq<u8>>,
    types: Seq<DataType>,
    keep: Option<Seq<bool>>,
    scan_filter: Option<Seq<Test>>,
    runtime: Option<RuntimeMembershipFilter>,
) -> Seq<Seq<Value>>
    decreases blocks.len(),
{
    if blocks.len() == 0 {
        Seq::empty()
    } else {
        rows_of_blocks(blocks.drop_last(), types, keep, scan_filter, runtime) + block_rows(
            blocks.last(),
            types,
            keep,
            scan_filter,
            runtime,
        )->Ok_0
    }
}

/// The rows of batches.
spec fn batch_rows(batches: Seq<Batch>) -> Seq<Seq<Value>>
    decreases batches.len(),
{
    if batches.len() == 0 {
        Seq::empty()
    } else {
        batch_rows(batches.drop_last()) + rows_of(batches.last().rows@)
    }
}

spec fn batch_bytes(batches: Seq<Batch>) -> nat
    decreases batches.len(),
{
    if batches.len() == 0 {
        0
    } else {
        batch_bytes(batches.drop_last()) + batches.last().bytes as nat
    }
}

proof fn lemma_batches_push(batches: Seq<Batch>, b: Batch)
    ensures
        batch_rows(batches.push(b)) == batch_rows(batches) + rows_of(b.rows@),
        batch_bytes(batches.push(b)) == batch_bytes(batches) + b.bytes,
{
    assert(batches.push(b).drop_last() =~= batches);
}

proof fn lemma_batches_front(batches: Seq<Batch>)
    requires
        batches.len() > 0,
    ensures
        batch_rows(batches) == rows_of(batches[0].rows@) + batch_rows(batches.drop_first()),
        batch_bytes(batches) == batches[0].bytes + batch_bytes(batches.drop_first()),
    decreases batches.len(),
{
    let rest = batches.drop_first();
    if batches.len() == 1 {
        assert(batches.drop_last() =~= Seq::<Batch>::empty());
        assert(rest =~= Seq::<Batch>::empty());
        assert(batches.last() == batches[0]);
        reveal_with_fuel(batch_rows, 2);
        reveal_with_fuel(batch_bytes, 2);
        assert(batch_rows(batches) =~= rows_of(batches[0].rows@));
        assert(rows_of(batches[0].rows@) + batch_rows(rest) =~= rows_of(batches[0].rows@));
    } else {
        lemma_batches_front(batches.drop_last());
        assert(rest.drop_last() =~= batches.drop_last().drop_first());
        assert(rest.last() == batches.last());
        assert(batch_rows(batches) =~= rows_of(batches[0].rows@) + batch_rows(rest));
    }
}

proof fn lemma_len_of_tail(row: Seq<Value>, rows: Seq<Seq<Value>>, len: nat)
    requires
        all_len(Seq::empty().push(row) + rows, len),
    ensures
        row.len() == len,
        all_len(rows, len),
{
    let all = Seq::empty().push(row) + rows;
    assert(all[0] == row);
    assert forall|i: int| 0 <= i < rows.len() implies (#[trigger] rows[i]).len() == len by {
        assert(all[i + 1] == rows[i]);
    }
}

/// The files of tables on a disk, by the tables' positions.
pub struct TableFiles {
    /// What each block of the disk holds.
    pub disk: spec_fn(int) -> Seq<u8>,
    /// Where each table's file starts.
    pub start: spec_fn(int) -> int,
    /// How many blocks each table's file has.
    pub count: spec_fn(int) -> nat,
}

impl TableFiles {
    /// The blocks of the file of a table.
    pub open spec fn content(self, table: int) -> Seq<Seq<u8>> {
        Seq::new((self.count)(table), |i: int| (self.disk)((self.start)(table) + i))
    }

    /// Whether the file of a table has this place and size.
    pub open spec fn lies_at(self, table: int, start: u64, count: u64) -> bool {
        (self.start)(table) == start && (self.count)(table) == count
    }

    /// Whether some bytes are what a run of blocks holds.
    pub open spec fn holds(self, blocks: (int, nat), data: Seq<u8>, block_size: int) -> bool {
        forall|i: int|
            0 <= i < blocks.1 ==> #[trigger] blocks_in(data, block_size, blocks.1)[i]
                == (self.disk)(blocks.0 + i)
    }
}

/// Whether blocks hold rows of columns of some types, and the tests on them can be decided.
#[verifier::opaque]
pub open spec fn all_decode(
    blocks: Seq<Seq<u8>>,
    types: Seq<DataType>,
    keep: Option<Seq<bool>>,
    filter: Option<Seq<Test>>,
    runtime: Option<RuntimeMembershipFilter>,
) -> bool {
    forall|i: int|
        0 <= i < blocks.len() ==> block_rows(#[trigger] blocks[i], types, keep, filter, runtime)
            is Ok
}

impl ScanOperator {
    pub closed spec fn table(&self) -> Seq<char> {
        self.table_id@
    }

    pub closed spec fn schema_view(&self) -> Seq<Seq<char>> {
        self.schema@
    }

    pub closed spec fn keep(&self) -> Option<Seq<bool>> {
        match self.keep_columns {
            Some(k) => Some(k@),
            None => None,
        }
    }

    pub closed spec fn tests(&self) -> Seq<Test> {
        tests(self.scan_filter@)
    }

    pub open spec fn filter(&self) -> Option<Seq<Test>> {
        if self.tests().len() == 0 {
            None
        } else {
            Some(self.tests())
        }
    }

    pub closed spec fn runtime(&self) -> Option<RuntimeMembershipFilter> {
        self.runtime_filter
    }

    pub closed spec fn bounds(&self) -> Option<OrderedScanBounds> {
        self.ordered_bounds
    }

    /// The blocks that were read.
    pub closed spec fn blocks_read(&self) -> Seq<Seq<u8>> {
        self.read@
    }

    /// The rows that were given out.
    pub closed spec fn emitted(&self) -> Seq<Seq<Value>> {
        self.emitted@
    }

    /// The bytes that are reserved for rows that wait.
    pub closed spec fn reserved(&self) -> nat {
        batch_bytes(self.ready@)
    }

    pub closed spec fn started(&self) -> bool {
        !(self.state is NotStarted)
    }

    pub closed spec fn failed(&self) -> bool {
        self.state is Failed
    }

    /// The range of blocks that is read, once it is known.
    pub closed spec fn range(&self) -> Option<(int, int)> {
        match self.state {
            ScanState::Reading(r) => Some((r.start as int, r.num_blocks as int)),
            _ => None,
        }
    }

    /// Whether all blocks were read and all rows given out.
    pub closed spec fn ended(&self) -> bool {
        match self.state {
            ScanState::Reading(r) => r.offset == r.num_blocks && self.ready@.len() == 0,
            _ => false,
        }
    }

    /// How many blocks were read whose rows are not all given out.
    pub closed spec fn held(&self) -> nat {
        self.ready@.len()
    }

    /// How many stages are to come.
    spec fn stages(&self) -> nat {
        match self.state {
            ScanState::NotStarted => 3,
            ScanState::Lower(_) => 2,
            ScanState::Upper(_) => 1,
            _ => 0,
        }
    }

    /// How many blocks are left in the search, or to be read.
    spec fn ahead(&self) -> nat {
        match self.state {
            ScanState::Lower(s) => s.search.left(),
            ScanState::Upper(s) => s.search.left(),
            ScanState::Reading(r) => (r.num_blocks - r.offset) as nat,
            _ => 0,
        }
    }

    /// How much is left to do: the stages, of the search or of the blocks, the blocks that were
    /// read, and their rows.
    #[verifier::opaque]
    pub closed spec fn left_to_do(&self) -> Seq<nat> {
        seq![self.stages(), self.ahead(), self.ready@.len(), batch_rows(self.ready@).len()]
    }

    /// A later stage, or less ahead in it, is nearer to the end.
    proof fn state_nearer(&self, before: &ScanOperator)
        requires
            self.stages() < before.stages() || (self.stages() == before.stages() && self.ahead()
                < before.ahead()),
        ensures
            nearer(self.left_to_do(), before.left_to_do()),
    {
        reveal(ScanOperator::left_to_do);
        if self.stages() < before.stages() {
            nearer_at(self.left_to_do(), before.left_to_do(), 0);
        } else {
            nearer_at(self.left_to_do(), before.left_to_do(), 1);
        }
    }

    /// Rows and blocks that were given out are done.
    proof fn ready_nearer(&self, before: &ScanOperator)
        requires
            self.state == before.state,
            self.ready@.len() < before.ready@.len() || (self.ready@.len() == before.ready@.len()
                && batch_rows(self.ready@).len() < batch_rows(before.ready@).len()),
        ensures
            nearer(self.left_to_do(), before.left_to_do()),
    {
        reveal(ScanOperator::left_to_do);
        if self.ready@.len() < before.ready@.len() {
            nearer_at(self.left_to_do(), before.left_to_do(), 2);
        } else {
            nearer_at(self.left_to_do(), before.left_to_do(), 3);
        }
    }

    /// To ask for blocks changes nothing.
    proof fn same_left(&self, before: &ScanOperator)
        requires
            self.stages() == before.stages(),
            self.ahead() == before.ahead(),
            self.ready == before.ready,
        ensures
            self.left_to_do() == before.left_to_do(),
    {
        reveal(ScanOperator::left_to_do);
    }

    /// How many blocks are asked for.
    pub closed spec fn asked(&self) -> nat {
        match self.state {
            ScanState::Lower(s) => if s.asked is Some {
                1
            } else {
                0
            },
            ScanState::Upper(s) => if s.asked is Some {
                1
            } else {
                0
            },
            ScanState::Reading(r) => r.asked as nat,
            _ => 0,
        }
    }

    /// Where the table's file starts, and how many blocks it has.
    pub closed spec fn file(&self) -> (int, int) {
        self.file@
    }

    /// The blocks of the file that were looked at for one end of the range.
    pub closed spec fn seen(&self, upper: bool) -> Map<int, Seq<u8>> {
        if upper {
            self.upper_seen@
        } else {
            self.lower_seen@
        }
    }

    /// The block that was asked for to find an end of the range.
    pub closed spec fn probe(&self) -> Option<(bool, int)> {
        match self.state {
            ScanState::Lower(s) => match s.asked {
                Some(m) => Some((false, m as int)),
                None => None,
            },
            ScanState::Upper(s) => match s.asked {
                Some(m) => Some((true, m as int)),
                None => None,
            },
            _ => None,
        }
    }

    /// Whether the scan reads a table with these columns.
    pub open spec fn fits(&self, table: TableSpec) -> bool {
        let n = table.column_specs@.len();
        &&& self.keep() matches Some(k) ==> k.len() == n
        &&& self.schema_view().len() == kept_count(self.keep(), n)
    }

    /// Whether blocks hold rows of the table, and the tests on them can be decided.
    pub open spec fn decodes(&self, blocks: Seq<Seq<u8>>, table: TableSpec) -> bool {
        all_decode(
            blocks,
            types_of(table.column_specs@),
            self.keep(),
            self.filter(),
            self.runtime(),
        )
    }

    /// The blocks that are asked for: the first one, and how many.
    pub open spec fn wanted(&self) -> (int, nat) {
        match self.range() {
            Some(range) => (range.0 + self.blocks_read().len(), self.asked()),
            None => match self.probe() {
                Some(p) => (self.file().0 + p.1, 1),
                None => (0, 0),
            },
        }
    }

    /// Whether the scan was told where the file of its table lies, and has read what its blocks
    /// hold.
    pub open spec fn reads_from(&self, files: TableFiles, table: int) -> bool {
        &&& self.started() ==> self.file() == ((files.start)(table), (files.count)(table) as int)
        &&& self.range() matches Some(range) ==> forall|i: int|
            0 <= i < self.blocks_read().len() ==> #[trigger] self.blocks_read()[i] == (files.disk)(
                range.0 + i,
            )
    }

    /// Whether an answer is what the scan can go on with: for a search, a block whose ends compare
    /// with the bound; else as many blocks as were asked for, all with rows of the table.
    pub open spec fn accepts(&self, data: Seq<u8>, block_size: int, table: TableSpec) -> bool {
        match self.probe() {
            Some(p) => {
                let b = self.bounds()->0;
                &&& ends_of_block(
                    data,
                    types_of(table.column_specs@),
                    b.ordered_col_idx as int,
                ) matches Ok(Some(e))
                &&& if p.0 {
                    after_bound(e.0, b.upper->0) is Some
                } else {
                    before_bound(e.1, b.lower->0) is Some
                }
            },
            None => {
                &&& data.len() == self.asked() * block_size
                &&& self.decodes(blocks_in(data, block_size, self.asked()), table)
            },
        }
    }

    /// The rows that the scan makes of some blocks.
    pub open spec fn rows_in(&self, blocks: Seq<Seq<u8>>, table: TableSpec) -> Seq<Seq<Value>> {
        rows_of_blocks(
            blocks,
            types_of(table.column_specs@),
            self.keep(),
            self.filter(),
            self.runtime(),
        )
    }

    /// Whether the rows of some blocks have no strings, and there is memory for them.
    pub open spec fn has_memory(
        &self,
        blocks: Seq<Seq<u8>>,
        table: TableSpec,
        memory: MemoryAccount,
    ) -> bool {
        &&& no_strings(self.rows_in(blocks, table))
        &&& memory.used + plain_bytes(self.rows_in(blocks, table)) <= memory.budget
        &&& memory.budget <= usize::MAX
    }

    /// Whether an answer needs no memory, or has rows without strings and there is memory for
    /// them. What strings take is for the allocator to say.
    pub open spec fn affords(
        &self,
        data: Seq<u8>,
        block_size: int,
        table: TableSpec,
        memory: MemoryAccount,
    ) -> bool {
        self.probe() is Some || self.has_memory(
            blocks_in(data, block_size, self.asked()),
            table,
            memory,
        )
    }

    /// The rows of the blocks that were read.
    pub open spec fn rows_read(&self, table: TableSpec) -> Seq<Seq<Value>> {
        rows_of_blocks(
            self.blocks_read(),
            types_of(table.column_specs@),
            self.keep(),
            self.filter(),
            self.runtime(),
        )
    }

    spec fn lower_found(&self, at: int, table: TableSpec) -> bool {
        match self.ordered_bounds {
            Some(b) if b.lower is Some => is_boundary(
                at,
                self.file@.1,
                self.lower_seen@,
                false,
                b,
                types_of(table.column_specs@),
            ),
            _ => at == 0,
        }
    }

    spec fn upper_found(&self, at: int, table: TableSpec) -> bool {
        match self.ordered_bounds {
            Some(b) if b.upper is Some => is_boundary(
                at,
                self.file@.1,
                self.upper_seen@,
                true,
                b,
                types_of(table.column_specs@),
            ),
            _ => at == self.file@.1,
        }
    }

    spec fn search_ok(&self, s: Search) -> bool {
        &&& self.file@ == (s.file_start as int, s.file_blocks as int)
        &&& s.search.inv()
        &&& s.search.size() == s.file_blocks
        &&& s.start_idx <= s.file_blocks
        &&& s.asked matches Some(m) ==> s.search.asks() == Some(m as int)
    }

    pub closed spec fn inv(&self, table: TableSpec) -> bool {
        &&& all_read_within(self.tests(), self.schema@.len() as int)
        &&& self.runtime_filter matches Some(f) ==> f.inv()
        &&& !self.failed() ==> self.emitted@ + batch_rows(self.ready@) == self.rows_read(table)
        &&& all_len(batch_rows(self.ready@), self.schema@.len())
        &&& match self.state {
            ScanState::NotStarted => self.read@.len() == 0 && self.ready@.len() == 0
                && self.lower_seen@ == Map::<int, Seq<u8>>::empty() && self.upper_seen@ == Map::<
                int,
                Seq<u8>,
            >::empty(),
            ScanState::Lower(s) => self.search_ok(s) && self.ordered_bounds is Some
                && self.ordered_bounds->0.lower is Some && self.read@.len() == 0
                && self.ready@.len() == 0 && s.start_idx == 0 && answered(
                s.search.answers(),
                self.lower_seen@,
                false,
                self.ordered_bounds->0,
                types_of(table.column_specs@),
            ) && self.upper_seen@ == Map::<int, Seq<u8>>::empty(),
            ScanState::Upper(s) => self.search_ok(s) && self.ordered_bounds is Some
                && self.ordered_bounds->0.upper is Some && self.read@.len() == 0
                && self.ready@.len() == 0 && self.lower_found(s.start_idx as int, table)
                && answered(
                s.search.answers(),
                self.upper_seen@,
                true,
                self.ordered_bounds->0,
                types_of(table.column_specs@),
            ),
            ScanState::Reading(r) => {
                &&& self.lower_found(self.ends@.0, table)
                &&& self.upper_found(self.ends@.1, table)
                &&& (r.start as int, r.num_blocks as int) == if self.ends@.0 >= self.ends@.1 {
                    (self.file@.0, 0)
                } else {
                    (self.file@.0 + self.ends@.0, self.ends@.1 - self.ends@.0)
                }
                &&& r.offset <= r.num_blocks
                &&& r.asked <= r.num_blocks - r.offset
                &&& r.start + r.num_blocks <= u64::MAX
                &&& self.read@.len() == r.offset
            },
            ScanState::Failed => true,
        }
    }

    /// A scan that came to its end has read every block of its range and given out their rows, in
    /// order.
    pub proof fn scan_is_complete(&self, table: TableSpec)
        requires
            self.inv(table),
            self.ended(),
        ensures
            self.range() is Some,
            self.blocks_read().len() == (self.range()->0).1,
            self.emitted() == self.rows_read(table),
    {
        assert(batch_rows(self.ready@) =~= Seq::<Seq<Value>>::empty());
        assert(self.emitted@ + batch_rows(self.ready@) =~= self.emitted@);
    }

    /// In an ordered file, a scan with bounds reads exactly those blocks that can hold values
    /// within its bounds.
    pub proof fn scan_reads_what_may_match(&self, table: TableSpec, blocks: Seq<Seq<u8>>, i: int)
        requires
            self.inv(table),
            self.range() is Some,
            self.bounds() is Some,
            blocks.len() == self.file().1,
            was_seen(self.seen(false), blocks),
            was_seen(self.seen(true), blocks),
            self.bounds()->0.lower is Some ==> is_parted(
                blocks,
                false,
                self.bounds()->0,
                types_of(table.column_specs@),
            ),
            self.bounds()->0.upper is Some ==> is_parted(
                blocks,
                true,
                self.bounds()->0,
                types_of(table.column_specs@),
            ),
            0 <= i < blocks.len(),
        ensures
            may_hold(blocks[i], self.bounds()->0, types_of(table.column_specs@)) <==> (
            self.range()->0).0 <= self.file().0 + i < (self.range()->0).0 + (self.range()->0).1,
    {
        let b = self.bounds()->0;
        let types = types_of(table.column_specs@);
        let (lo, hi) = self.ends@;
        if b.lower is Some {
            if lo > 0 {
                assert(self.seen(false).dom().contains(lo - 1));
                assert(lies_before(blocks[lo - 1], false, b, types));
            }
            if lo < blocks.len() {
                assert(self.seen(false).dom().contains(lo));
                assert(!lies_before(blocks[lo], false, b, types));
            }
            assert(lies_before(blocks[i], false, b, types) <==> i < lo);
        }
        if b.upper is Some {
            if hi > 0 {
                assert(self.seen(true).dom().contains(hi - 1));
                assert(lies_before(blocks[hi - 1], true, b, types));
            }
            if hi < blocks.len() {
                assert(self.seen(true).dom().contains(hi));
                assert(!lies_before(blocks[hi], true, b, types));
            }
            assert(lies_before(blocks[i], true, b, types) <==> i < hi);
        }
    }

    /// A scan without bounds reads the whole file.
    pub proof fn scan_without_bounds_reads_all(&self, table: TableSpec)
        requires
            self.inv(table),
            self.bounds() is None,
            self.range() is Some,
            self.file().1 >= 0,
        ensures
            self.range()->0 == self.file(),
    {
    }

    /// A scan without bounds that came to its end has read its whole file.
    pub proof fn ended_scan_read_its_file(&self, table: TableSpec, files: TableFiles, at: int)
        requires
            self.inv(table),
            self.ended(),
            self.bounds() is None,
            self.reads_from(files, at),
        ensures
            self.blocks_read() == files.content(at),
    {
        self.scan_is_complete(table);
        self.scan_without_bounds_reads_all(table);
        assert(self.blocks_read() =~= files.content(at));
    }

    /// A scan that does not know its range has read nothing.
    pub proof fn lemma_unread(&self, table: TableSpec)
        requires
            self.inv(table),
            !self.failed(),
        ensures
            self.range() is None ==> self.blocks_read().len() == 0,
    {
    }

    /// A scan that has not started has given out nothing.
    pub proof fn lemma_not_started(&self, table: TableSpec)
        requires
            self.inv(table),
            !self.started(),
        ensures
            self.emitted().len() == 0,
            !self.failed(),
            !self.ended(),
            self.asked() == 0,
            self.range() is None,
    {
        assert(self.rows_read(table) =~= Seq::<Seq<Value>>::empty());
        assert((self.emitted@ + batch_rows(self.ready@)).len() == self.emitted@.len() + batch_rows(
            self.ready@,
        ).len());
    }

    /// A scan that fails has not come to its end, and waits for nothing.
    pub proof fn lemma_ended(&self)
        ensures
            self.ended() ==> self.started() && !self.failed(),
            self.asked() > 0 ==> self.started() && !self.failed(),
    {
    }

    /// A scan that waits for blocks has not come to its end.
    pub proof fn lemma_waiting(&self, table: TableSpec)
        requires
            self.inv(table),
            self.asked() > 0,
        ensures
            !self.ended(),
    {
    }

    /// Makes a scan of all columns of a table.
    pub fn new(table_id: String, schema: RowSchema) -> (r: ScanOperator)
        ensures
            r.table() == table_id@,
            r.schema_view() == schema@,
            r.keep() is None,
            r.tests().len() == 0,
            r.runtime() is None,
            r.bounds() is None,
            r.blocks_read().len() == 0,
            r.emitted().len() == 0,
            r.reserved() == 0,
            !r.started(),
            !r.failed(),
            forall|t: TableSpec| #[trigger] r.inv(t),
    {
        let r = ScanOperator {
            table_id,
            schema,
            keep_columns: None,
            scan_filter: Vec::new(),
            ordered_bounds: None,
            runtime_filter: None,
            state: ScanState::NotStarted,
            ready: VecDeque::new(),
            read: Ghost(Seq::empty()),
            emitted: Ghost(Seq::empty()),
            file: Ghost((0, 0)),
            lower_seen: Ghost(Map::empty()),
            upper_seen: Ghost(Map::empty()),
            ends: Ghost((0, 0)),
        };
        proof {
            let none = Seq::<Seq<Value>>::empty();
            assert(none + none =~= none);
        }
        r
    }

    /// Restricts the scan to some columns.
    pub fn with_needed_columns(self, needed: Vec<usize>, total_columns: usize) -> (r: ScanOperator)
        requires
            forall|t: TableSpec| #[trigger] self.inv(t),
            !self.started(),
            self.emitted().len() == 0,
            forall|i: int| 0 <= i < needed@.len() ==> #[trigger] needed@[i] < total_columns,
        ensures
            r.keep() matches Some(k) && k.len() == total_columns && forall|i: int|
                0 <= i < total_columns ==> #[trigger] k[i] == needed@.contains(i as usize),
            r.table() == self.table(),
            r.schema_view() == self.schema_view(),
            r.tests() == self.tests(),
            r.runtime() == self.runtime(),
            r.bounds() == self.bounds(),
            r.emitted().len() == 0,
            !r.started(),
            r.reserved() == self.reserved(),
            forall|t: TableSpec| #[trigger] r.inv(t),
    {
        let mut keep: Vec<bool> = Vec::new();
        let mut i: usize = 0;
        while i < total_columns
            invariant
                i <= total_columns,
                keep@.len() == i,
                forall|j: int| 0 <= j < i ==> !(#[trigger] keep@[j]),
            decreases total_columns - i,
        {
            keep.push(false);
            i += 1;
        }
        let mut k: usize = 0;
        while k < needed.len()
            invariant
                k <= needed@.len(),
                keep@.len() == total_columns,
                forall|i: int| 0 <= i < needed@.len() ==> #[trigger] needed@[i] < total_columns,
                forall|j: int|
                    0 <= j < total_columns ==> #[trigger] keep@[j] == needed@.take(
                        k as int,
                    ).contains(j as usize),
            decreases needed@.len() - k,
        {
            let at: usize = needed[k];
            let ghost before = needed@.take(k as int);
            keep.set(at, true);
            k += 1;
            proof {
                let after = needed@.take(k as int);
                assert(after =~= before.push(at));
                assert forall|j: int| 0 <= j < total_columns implies #[trigger] keep@[j]
                    == after.contains(j as usize) by {
                    if before.contains(j as usize) {
                        let m = choose|m: int| 0 <= m < before.len() && before[m] == j as usize;
                        assert(after[m] == j as usize);
                    }
                    if j == at {
                        assert(after[k - 1] == j as usize);
                    }
                }
            }
        }
        proof {
            assert(needed@.take(k as int) =~= needed@);
            let t = arbitrary::<TableSpec>();
            assert(self.inv(t));
        }
        let mut r = self;
        r.keep_columns = Some(keep);
        proof {
            let none = Seq::<Seq<Value>>::empty();
            assert(r.emitted@ =~= none);
            assert(batch_rows(r.ready@) =~= none);
            assert(none + none =~= none);
        }
        r
    }

    /// Tests predicates while rows are decoded.
    pub fn with_scan_filter_predicates(self, predicates: &[Predicate]) -> (r: Result<
        ScanOperator,
        DbError,
    >)
        requires
            forall|t: TableSpec| #[trigger] self.inv(t),
            !self.started(),
            self.emitted().len() == 0,
        ensures
            ({
                let cs = conditions(predicates@);
                let missing = first_missing_column(self.schema_view(), cs);
                match r {
                    Ok(s) => {
                        &&& missing is None
                        &&& s.tests() == cs.map_values(
                            |c: Condition| resolved(self.schema_view(), c),
                        )
                        &&& s.table() == self.table()
                        &&& s.schema_view() == self.schema_view()
                        &&& s.keep() == self.keep()
                        &&& s.runtime() == self.runtime()
                        &&& s.bounds() == self.bounds()
                        &&& s.emitted().len() == 0
                        &&& !s.started()
                        &&& s.reserved() == self.reserved()
                        &&& forall|t: TableSpec| #[trigger] s.inv(t)
                    },
                    Err(e) => e matches DbError::ColumnNotFound(c) && Some(c@) == missing,
                }
            }),
    {
        let preds = match resolve_predicates(&self.schema, predicates) {
            Ok(p) => p,
            Err(e) => {
                return Err(e);
            },
        };
        proof {
            let t = arbitrary::<TableSpec>();
            assert(self.inv(t));
        }
        let mut r = self;
        r.scan_filter = preds;
        proof {
            let none = Seq::<Seq<Value>>::empty();
            assert(r.emitted@ =~= none);
            assert(batch_rows(r.ready@) =~= none);
            assert(none + none =~= none);
        }
        Ok(r)
    }

    /// Restricts the scan to the blocks that a range of an ordered column lies in.
    pub fn with_ordered_bounds(self, bounds: OrderedScanBounds) -> (r: ScanOperator)
        requires
            forall|t: TableSpec| #[trigger] self.inv(t),
            !self.started(),
        ensures
            r.bounds() == Some(bounds),
            r.table() == self.table(),
            r.schema_view() == self.schema_view(),
            r.keep() == self.keep(),
            r.tests() == self.tests(),
            r.runtime() == self.runtime(),
            r.emitted() == self.emitted(),
            !r.started(),
            r.reserved() == self.reserved(),
            forall|t: TableSpec| #[trigger] r.inv(t),
    {
        let mut r = self;
        r.ordered_bounds = Some(bounds);
        proof {
            assert forall|t: TableSpec| #[trigger] r.inv(t) by {
                assert(self.inv(t));
            }
        }
        r
    }

    /// Turns rows down by a filter on one of the table's columns.
    pub fn with_runtime_membership_filter(self, filter: RuntimeMembershipFilter) -> (r: ScanOperator)
        requires
            forall|t: TableSpec| #[trigger] self.inv(t),
            !self.started(),
            self.emitted().len() == 0,
            filter.inv(),
        ensures
            r.runtime() == Some(filter),
            r.table() == self.table(),
            r.schema_view() == self.schema_view(),
            r.keep() == self.keep(),
            r.tests() == self.tests(),
            r.bounds() == self.bounds(),
            r.emitted().len() == 0,
            !r.started(),
            r.reserved() == self.reserved(),
            forall|t: TableSpec| #[trigger] r.inv(t),
    {
        proof {
            let t = arbitrary::<TableSpec>();
            assert(self.inv(t));
        }
        let mut r = self;
        r.runtime_filter = Some(filter);
        proof {
            let none = Seq::<Seq<Value>>::empty();
            assert(r.emitted@ =~= none);
            assert(batch_rows(r.ready@) =~= none);
            assert(none + none =~= none);
        }
        r
    }

    pub fn schema(&self) -> (r: &RowSchema)
        ensures
            r@ == self.schema_view(),
    {
        &self.schema
    }

    pub fn table_id(&self) -> (r: &str)
        ensures
            r@ == self.table(),
    {
        self.table_id.as_str()
    }
}

/// How many blocks a scan asks for: what is left, but no more than it may prefetch, and no more
/// than half of what memory is left for; at least one.
pub open spec fn batch_size(remaining: int, available: int, block_size: int) -> int {
    let unit = 2 * if block_size >= 1 {
        block_size
    } else {
        1
    };
    let by_memory = if available / unit >= 1 {
        available / unit
    } else {
        1
    };
    let most = if by_memory <= SCAN_PREFETCH_BLOCKS {
        by_memory
    } else {
        SCAN_PREFETCH_BLOCKS as int
    };
    if remaining <= most {
        remaining
    } else {
        most
    }
}

/// Chooses how many blocks to ask for.
pub fn choose_scan_batch(remaining: u64, available: usize, block_size: usize) -> (r: u64)
    ensures
        r == batch_size(remaining as int, available as int, block_size as int),
        r <= remaining,
        r <= SCAN_PREFETCH_BLOCKS,
        remaining > 0 ==> r > 0,
{
    let size: usize = if block_size >= 1 {
        block_size
    } else {
        1
    };
    let by_memory: usize = match size.checked_mul(2) {
        Some(unit) => if available / unit >= 1 {
            available / unit
        } else {
            1
        },
        None => {
            proof {
                assert(available as int / (2 * size as int) == 0) by (nonlinear_arith)
                    requires
                        0 <= available < 2 * size,
                ;
            }
            1
        },
    };
    let most: usize = if by_memory <= SCAN_PREFETCH_BLOCKS {
        by_memory
    } else {
        SCAN_PREFETCH_BLOCKS
    };
    if remaining <= most as u64 {
        remaining
    } else {
        most as u64
    }
}

impl ScanOperator {
    spec fn same_scan(&self, other: &ScanOperator) -> bool {
        &&& self.table_id == other.table_id
        &&& self.schema == other.schema
        &&& self.keep_columns == other.keep_columns
        &&& self.scan_filter == other.scan_filter
        &&& self.ordered_bounds == other.ordered_bounds
        &&& self.runtime_filter == other.runtime_filter
    }

    /// What stays the same while a scan runs.
    pub open spec fn is_still(&self, other: &ScanOperator) -> bool {
        &&& self.table() == other.table()
        &&& self.schema_view() == other.schema_view()
        &&& self.keep() == other.keep()
        &&& self.tests() == other.tests()
        &&& self.runtime() == other.runtime()
        &&& self.bounds() == other.bounds()
    }

    /// Gives out a row of the blocks that were read, or lets go of a block that is used up.
    #[verifier::rlimit(80)]
    fn give_ready(&mut self, memory: &mut QueryMemoryManager, Ghost(table): Ghost<TableSpec>) -> (r:
        ScanStep)
        requires
            old(self).inv(table),
            !old(self).failed(),
            old(self).ready@.len() > 0,
            old(memory)@.inv(),
            old(self).reserved() <= old(memory)@.used,
        ensures
            final(self).same_scan(old(self)),
            final(self).state == old(self).state,
            final(self).read == old(self).read,
            final(self).file == old(self).file,
            final(self).lower_seen == old(self).lower_seen,
            final(self).upper_seen == old(self).upper_seen,
            final(self).ends == old(self).ends,
            final(self).inv(table),
            final(memory)@.inv(),
            final(memory)@.used + old(self).reserved() == old(memory)@.used + final(
                self).reserved(),
            final(self).emitted() == match r {
                ScanStep::Row(row) => old(self).emitted().push(row@),
                _ => old(self).emitted(),
            },
            r is Row || r is Again,
            r matches ScanStep::Row(row) ==> row@.len() == old(self).schema_view().len(),
            nearer(final(self).left_to_do(), old(self).left_to_do()),
    {
        let ghost me = *self;
        if let Some(batch) = self.ready.pop_front() {
            let mut batch = batch;
            let ghost was = batch;
            proof {
                lemma_batches_front(me.ready@);
                assert(self.ready@ =~= me.ready@.drop_first());
            }
            match batch.rows.pop_front() {
                Some(row) => {
                    proof {
                        self.emitted@ = self.emitted@.push(row@);
                        assert(rows_of(was.rows@) =~= Seq::empty().push(row@) + rows_of(
                            batch.rows@,
                        ));
                    }
                    let ghost rest = self.ready@;
                    self.ready.push_front(batch);
                    proof {
                        assert(self.ready@.drop_first() =~= rest);
                        assert(self.ready@[0] == batch);
                        lemma_batches_front(self.ready@);
                        assert(self.emitted@ + batch_rows(self.ready@) =~= me.emitted@
                            + batch_rows(me.ready@));
                        assert(batch_rows(self.ready@).len() < batch_rows(me.ready@).len());
                        assert(batch_rows(me.ready@) =~= Seq::empty().push(row@) + batch_rows(
                            self.ready@,
                        ));
                        lemma_len_of_tail(row@, batch_rows(self.ready@), self.schema@.len());
                        self.ready_nearer(&me);
                    }
                    return ScanStep::Row(row);
                },
                None => {
                    memory.release(batch.bytes);
                    proof {
                        assert(rows_of(was.rows@) =~= Seq::<Seq<Value>>::empty());
                        assert(batch_rows(me.ready@) =~= batch_rows(self.ready@));
                        self.ready_nearer(&me);
                    }
                    return ScanStep::Again;
                },
            }
        }
        ScanStep::Again
    }

    /// Does the next piece of work: asks for the file or for blocks, or gives a row out.
    #[verifier::rlimit(60)]
    pub fn step(
        &mut self,
        block_size: usize,
        memory: &mut QueryMemoryManager,
        table_spec: &TableSpec,
    ) -> (r: Result<ScanStep, DbError>)
        requires
            old(self).inv(*table_spec),
            !old(self).failed(),
            old(memory)@.inv(),
            old(self).reserved() <= old(memory)@.used,
        ensures
            final(self).is_still(old(self)),
            final(self).file() == old(self).file(),
            forall|upper: bool| #[trigger] final(self).seen(upper) == old(self).seen(upper),
            final(memory)@.inv(),
            final(self).inv(*table_spec),
            final(self).blocks_read() == old(self).blocks_read(),
            final(memory)@.used + old(self).reserved() == old(memory)@.used + final(
                self).reserved(),
            final(self).emitted() == match r {
                Ok(ScanStep::Row(row)) => old(self).emitted().push(row@),
                _ => old(self).emitted(),
            },
            r is Ok ==> !final(self).failed(),
            old(self).range() is Some ==> r is Err || final(self).range() == old(self).range(),
            match r {
                Ok(ScanStep::AskFile) => !final(self).started(),
                Ok(ScanStep::Need { start, count }) => {
                    &&& final(self).asked() == count
                    &&& final(self).started()
                    &&& count > 0
                    &&& final(self).range() matches Some(range) ==> {
                        &&& start == range.0 + final(self).blocks_read().len()
                        &&& count == batch_size(
                            range.1 - final(self).blocks_read().len(),
                            old(memory)@.budget - old(memory)@.used,
                            block_size as int,
                        )
                    }
                    &&& final(self).range() is None ==> count == 1 && (final(
                        self).probe() matches Some(p) && start == final(self).file().0 + p.1)
                },
                Ok(ScanStep::Done) => final(self).ended(),
                Ok(ScanStep::Row(row)) => !final(self).failed() && row@.len()
                    == old(self).schema_view().len(),
                Ok(_) => !final(self).failed(),
                Err(e) => e == DbError::BlockIdOverflow && final(self).failed(),
            },
            r is Ok ==> final(self).started() == old(self).started(),
            match r {
                Ok(ScanStep::Again) | Ok(ScanStep::Row(_)) => nearer(
                    final(self).left_to_do(),
                    old(self).left_to_do(),
                ),
                Ok(_) => final(self).left_to_do() == old(self).left_to_do(),
                Err(_) => true,
            },
            old(self).held() > 0 ==> r is Ok && (r->Ok_0 is Row || r->Ok_0 is Again),
            old(self).range() is Some && old(self).held() == 0 && !old(self).ended()
                ==> r is Ok && r->Ok_0 is Need,
            old(self).ended() ==> r == Ok::<ScanStep, DbError>(ScanStep::Done),
            !old(self).started() ==> r == Ok::<ScanStep, DbError>(ScanStep::AskFile),
            old(self).file().0 + old(self).file().1 <= u64::MAX ==> r is Ok,
    {
        let ghost me = *self;
        let ghost table = *table_spec;
        if self.ready.len() > 0 {
            let given = self.give_ready(memory, Ghost(table));
            return Ok(given);
        }
        let mut state = ScanState::Failed;
        core::mem::swap(&mut self.state, &mut state);
        match state {
            ScanState::NotStarted => {
                self.state = ScanState::NotStarted;
                Ok(ScanStep::AskFile)
            },
            ScanState::Lower(s) => {
                let mut s = s;
                match s.search.next() {
                    Some(m) => match s.file_start.checked_add(m) {
                        Some(start) => {
                            s.asked = Some(m);
                            self.state = ScanState::Lower(s);
                            proof {
                                self.same_left(&me);
                            }
                            Ok(ScanStep::Need { start, count: 1 })
                        },
                        None => Err(DbError::BlockIdOverflow),
                    },
                    None => {
                        let start_idx: u64 = s.search.result();
                        proof {
                            lemma_search_ended(
                                s.search,
                                self.lower_seen@,
                                false,
                                self.ordered_bounds->0,
                                types_of(table.column_specs@),
                            );
                        }
                        let r = self.begin_upper(
                            s.file_start,
                            s.file_blocks,
                            start_idx,
                            Ghost(table),
                        );
                        proof {
                            if r is Ok {
                                self.state_nearer(&me);
                            }
                        }
                        r
                    },
                }
            },
            ScanState::Upper(s) => {
                let mut s = s;
                match s.search.next() {
                    Some(m) => match s.file_start.checked_add(m) {
                        Some(start) => {
                            s.asked = Some(m);
                            self.state = ScanState::Upper(s);
                            proof {
                                self.same_left(&me);
                            }
                            Ok(ScanStep::Need { start, count: 1 })
                        },
                        None => Err(DbError::BlockIdOverflow),
                    },
                    None => {
                        let end_idx: u64 = s.search.result();
                        proof {
                            lemma_search_ended(
                                s.search,
                                self.upper_seen@,
                                true,
                                self.ordered_bounds->0,
                                types_of(table.column_specs@),
                            );
                        }
                        let r = self.begin_reading(
                            s.file_start,
                            s.start_idx,
                            end_idx,
                            Ghost(table),
                        );
                        proof {
                            if r is Ok {
                                self.state_nearer(&me);
                            }
                        }
                        r
                    },
                }
            },
            ScanState::Reading(reading) => {
                let mut reading = reading;
                if reading.offset >= reading.num_blocks {
                    self.state = ScanState::Reading(reading);
                    return Ok(ScanStep::Done);
                }
                let count: u64 = choose_scan_batch(
                    reading.num_blocks - reading.offset,
                    memory.available_bytes(),
                    block_size,
                );
                let start: u64 = reading.start + reading.offset;
                reading.asked = count;
                self.state = ScanState::Reading(reading);
                proof {
                    self.same_left(&me);
                }
                Ok(ScanStep::Need { start, count })
            },
            ScanState::Failed => Err(DbError::BlockIdOverflow),
        }
    }

    /// Goes on to the upper end of the range, or to reading.
    fn begin_upper(
        &mut self,
        file_start: u64,
        file_blocks: u64,
        start_idx: u64,
        Ghost(table): Ghost<TableSpec>,
    ) -> (r: Result<ScanStep, DbError>)
        requires
            old(self).state is Failed,
            old(self).ready@.len() == 0,
            old(self).read@.len() == 0,
            old(self).emitted@.len() == 0,
            all_read_within(old(self).tests(), old(self).schema@.len() as int),
            old(self).runtime_filter matches Some(f) ==> f.inv(),
            old(self).file@ == (file_start as int, file_blocks as int),
            old(self).lower_found(start_idx as int, table),
            old(self).upper_seen@ == Map::<int, Seq<u8>>::empty(),
            start_idx <= file_blocks,
        ensures
            final(self).same_scan(old(self)),
            final(self).inv(table),
            final(self).ready == old(self).ready,
            final(self).read == old(self).read,
            final(self).emitted == old(self).emitted,
            final(self).file == old(self).file,
            final(self).lower_seen == old(self).lower_seen,
            final(self).upper_seen == old(self).upper_seen,
            old(self).ordered_bounds is None ==> (r is Err <==> start_idx < file_blocks
                && file_start + file_blocks > u64::MAX) && (r is Ok ==> final(self).range() == Some(
                if start_idx >= file_blocks {
                    (file_start as int, 0int)
                } else {
                    (file_start + start_idx, file_blocks - start_idx)
                },
            )),
            r matches Ok(s) ==> s is Again && !final(self).failed() && final(self).started()
                && final(self).asked() == 0 && final(self).stages() < 2,
            r matches Err(e) ==> e == DbError::BlockIdOverflow && final(self).failed(),
            file_start + file_blocks <= u64::MAX ==> r is Ok,
    {
        let has_upper = match &self.ordered_bounds {
            Some(b) => b.upper.is_some(),
            None => false,
        };
        if has_upper {
            let search = BlockSearch::new(file_blocks);
            self.state = ScanState::Upper(
                Search { file_start, file_blocks, start_idx, search, asked: None },
            );
            proof {
                let none = Seq::<Seq<Value>>::empty();
                assert(self.emitted@ =~= none);
                assert(batch_rows(self.ready@) =~= none);
                assert(none + none =~= none);
            }
            Ok(ScanStep::Again)
        } else {
            self.begin_reading(file_start, start_idx, file_blocks, Ghost(table))
        }
    }

    /// Goes on to reading a range.
    fn begin_reading(
        &mut self,
        file_start: u64,
        start_idx: u64,
        end_idx: u64,
        Ghost(table): Ghost<TableSpec>,
    ) -> (r: Result<ScanStep, DbError>)
        requires
            old(self).state is Failed,
            old(self).ready@.len() == 0,
            old(self).read@.len() == 0,
            old(self).emitted@.len() == 0,
            all_read_within(old(self).tests(), old(self).schema@.len() as int),
            old(self).runtime_filter matches Some(f) ==> f.inv(),
            old(self).file@.0 == file_start,
            old(self).lower_found(start_idx as int, table),
            old(self).upper_found(end_idx as int, table),
        ensures
            final(self).same_scan(old(self)),
            final(self).inv(table),
            final(self).ready == old(self).ready,
            final(self).read == old(self).read,
            final(self).emitted == old(self).emitted,
            final(self).file == old(self).file,
            final(self).lower_seen == old(self).lower_seen,
            final(self).upper_seen == old(self).upper_seen,
            r matches Ok(s) ==> {
                &&& s is Again
                &&& !final(self).failed()
                &&& final(self).started()
                &&& final(self).asked() == 0
                &&& final(self).stages() == 0
                &&& final(self).range() == Some(
                    if start_idx >= end_idx {
                        (file_start as int, 0int)
                    } else {
                        (file_start + start_idx, end_idx - start_idx)
                    },
                )
            },
            r matches Err(e) ==> e == DbError::BlockIdOverflow && final(self).failed(),
            r is Err <==> start_idx < end_idx && file_start + end_idx > u64::MAX,
    {
        let (start, num_blocks) = match restricted_range(file_start, start_idx, end_idx) {
            Ok(p) => p,
            Err(e) => {
                return Err(e);
            },
        };
        if start.checked_add(num_blocks).is_none() {
            return Err(DbError::BlockIdOverflow);
        }
        self.state = ScanState::Reading(Reading { start, num_blocks, offset: 0, asked: 0 });
        proof {
            self.ends@ = (start_idx as int, end_idx as int);
            let none = Seq::<Seq<Value>>::empty();
            assert(self.emitted@ =~= none);
            assert(batch_rows(self.ready@) =~= none);
            assert(none + none =~= none);
        }
        Ok(ScanStep::Again)
    }
}

/// The blocks that some bytes make.
pub open spec fn blocks_in(data: Seq<u8>, block_size: int, n: nat) -> Seq<Seq<u8>> {
    Seq::new(n, |i: int| data.subrange(i * block_size, (i + 1) * block_size))
}

/// Whether no row has strings.
pub open spec fn no_strings(rows: Seq<Seq<Value>>) -> bool {
    forall|i: int| 0 <= i < rows.len() ==> string_lengths(#[trigger] rows[i]).len() == 0
}

/// The memory that rows without strings take: each row's own size and its place in the list.
pub open spec fn plain_bytes(rows: Seq<Seq<Value>>) -> nat
    decreases rows.len(),
{
    if rows.len() == 0 {
        0
    } else {
        let unit = vstd::layout::size_of::<Row>();
        plain_bytes(rows.drop_last()) + heap_size(rows.last().len(), Seq::empty()) + if unit >= 1 {
            unit
        } else {
            1
        }
    }
}

proof fn lemma_plain_bytes_sum(a: Seq<Seq<Value>>, b: Seq<Seq<Value>>)
    ensures
        plain_bytes(a + b) == plain_bytes(a) + plain_bytes(b),
    decreases b.len(),
{
    if b.len() == 0 {
        assert(a + b =~= a);
    } else {
        lemma_plain_bytes_sum(a, b.drop_last());
        assert((a + b).drop_last() =~= a + b.drop_last());
        assert((a + b).last() == b.last());
    }
}

/// Estimates the memory that rows take: each row's own estimate and its place in the list.
fn estimate_buffered_batch_bytes(rows: &Vec<Row>) -> (r: usize)
    ensures
        r >= rows@.len() || r == usize::MAX,
        no_strings(rows_of(rows@)) ==> r == (if plain_bytes(rows_of(rows@)) > usize::MAX {
            usize::MAX as nat
        } else {
            plain_bytes(rows_of(rows@))
        }),
{
    let ghost all = rows_of(rows@);
    let mut total: usize = 0;
    let mut i: usize = 0;
    let unit: usize = core::mem::size_of::<Row>();
    let each: usize = if unit >= 1 {
        unit
    } else {
        1
    };
    assert(all.take(0) =~= Seq::<Seq<Value>>::empty());
    while i < rows.len()
        invariant
            i <= rows@.len(),
            each >= 1,
            unit as nat == vstd::layout::size_of::<Row>(),
            each == (if unit >= 1 {
                unit
            } else {
                1
            }),
            all == rows_of(rows@),
            total >= i || total == usize::MAX,
            no_strings(all) ==> total == (if plain_bytes(all.take(i as int)) > usize::MAX {
                usize::MAX as nat
            } else {
                plain_bytes(all.take(i as int))
            }),
        decreases rows@.len() - i,
    {
        let size: usize = rows[i].estimate_heap_size();
        proof {
            assert(all[i as int] == rows@[i as int]@);
            assert(all.take(i + 1).drop_last() =~= all.take(i as int));
            assert(all.take(i + 1).last() == all[i as int]);
            if no_strings(all) {
                assert(string_lengths(all[i as int]).len() == 0);
                let row = all[i as int];
                let caps = choose|caps: Seq<usize>|
                    caps.len() == string_lengths(row).len() && (forall|i: int|
                        0 <= i < caps.len() ==> #[trigger] caps[i] as nat >= string_lengths(
                            row,
                        )[i]) && size == (if #[trigger] heap_size(row.len(), caps) > usize::MAX {
                        usize::MAX as nat
                    } else {
                        heap_size(row.len(), caps)
                    });
                assert(caps =~= Seq::<usize>::empty());
            }
        }
        total = total.saturating_add(size).saturating_add(each);
        i += 1;
    }
    assert(all.take(i as int) =~= all);
    total
}

/// Puts rows in a queue.
fn queue_of(rows: Vec<Row>) -> (r: VecDeque<Row>)
    ensures
        r@ == rows@,
{
    let mut queue: VecDeque<Row> = VecDeque::new();
    let mut rows = rows;
    let ghost given = rows@;
    while rows.len() > 0
        invariant
            rows@.len() <= given.len(),
            rows@ == given.take(rows@.len() as int),
            queue@ == given.skip(rows@.len() as int),
        decreases rows@.len(),
    {
        let ghost k = rows@.len() - 1;
        if let Some(row) = rows.pop() {
            let ghost before = queue@;
            queue.push_front(row);
            proof {
                assert(rows@ =~= given.take(k));
                assert(queue@ =~= given.skip(k));
            }
        }
    }
    assert(given.skip(0) =~= given);
    queue
}

/// The rows of the first blocks come first.
proof fn lemma_rows_in_prefix(
    blocks: Seq<Seq<u8>>,
    n: int,
    types: Seq<DataType>,
    keep: Option<Seq<bool>>,
    scan_filter: Option<Seq<Test>>,
    runtime: Option<RuntimeMembershipFilter>,
)
    requires
        0 <= n <= blocks.len(),
    ensures
        ({
            let some = rows_of_blocks(blocks.take(n), types, keep, scan_filter, runtime);
            let all = rows_of_blocks(blocks, types, keep, scan_filter, runtime);
            some.len() <= all.len() && all.take(some.len() as int) == some
        }),
    decreases blocks.len(),
{
    let some = rows_of_blocks(blocks.take(n), types, keep, scan_filter, runtime);
    let all = rows_of_blocks(blocks, types, keep, scan_filter, runtime);
    if n == blocks.len() {
        assert(blocks.take(n) =~= blocks);
        assert(all.take(some.len() as int) =~= some);
    } else {
        let init = blocks.drop_last();
        lemma_rows_in_prefix(init, n, types, keep, scan_filter, runtime);
        assert(init.take(n) =~= blocks.take(n));
        let before = rows_of_blocks(init, types, keep, scan_filter, runtime);
        assert(all.take(some.len() as int) =~= before.take(some.len() as int));
    }
}

proof fn lemma_block_rows_push(
    blocks: Seq<Seq<u8>>,
    b: Seq<u8>,
    types: Seq<DataType>,
    keep: Option<Seq<bool>>,
    scan_filter: Option<Seq<Test>>,
    runtime: Option<RuntimeMembershipFilter>,
)
    ensures
        rows_of_blocks(blocks.push(b), types, keep, scan_filter, runtime) == rows_of_blocks(
            blocks,
            types,
            keep,
            scan_filter,
            runtime,
        ) + block_rows(b, types, keep, scan_filter, runtime)->Ok_0,
{
    assert(blocks.push(b).drop_last() =~= blocks);
}

/// Whether an error is one that reading blocks can end with.
pub open spec fn scan_error(e: DbError) -> bool {
    ||| e is BlockTooSmall
    ||| e is BlockOverrun
    ||| e is UnterminatedString
    ||| e == DbError::Decode(crate::error::DecodeError::InvalidText)
    ||| e is IncomparableValues
    ||| e is EmptyOrderedBlock
    ||| e is MemoryBudgetExceeded
    ||| e is MemoryAccountingOverflow
    ||| e is BufferLengthMismatch
    ||| e is BlockIdOverflow
}

impl ScanOperator {
    /// Takes the place and the size of the table's file.
    pub fn supply_file(&mut self, file_start: u64, file_blocks: u64, table_spec: &TableSpec) -> (r:
        Result<(), DbError>)
        requires
            old(self).inv(*table_spec),
            !old(self).started(),
            old(self).emitted().len() == 0,
        ensures
            final(self).is_still(old(self)),
            final(self).inv(*table_spec),
            final(self).blocks_read() == old(self).blocks_read(),
            final(self).emitted() == old(self).emitted(),
            final(self).reserved() == old(self).reserved(),
            final(self).file() == (file_start as int, file_blocks as int),
            forall|upper: bool| #[trigger] final(self).seen(upper) == old(self).seen(upper),
            r is Ok ==> final(self).started() && !final(self).failed() && final(self).asked() == 0,
            r matches Err(e) ==> e == DbError::BlockIdOverflow && final(self).failed(),
            file_start + file_blocks <= u64::MAX ==> r is Ok,
            r is Ok ==> nearer(final(self).left_to_do(), old(self).left_to_do()),
            old(self).bounds() is None && r is Ok ==> final(self).range() == Some(
                (file_start as int, file_blocks as int),
            ),
    {
        let has_lower = match &self.ordered_bounds {
            Some(b) => b.lower.is_some(),
            None => false,
        };
        self.state = ScanState::Failed;
        proof {
            self.file@ = (file_start as int, file_blocks as int);
        }
        if has_lower && file_blocks > 0 {
            let search = BlockSearch::new(file_blocks);
            self.state = ScanState::Lower(
                Search { file_start, file_blocks, start_idx: 0, search, asked: None },
            );
            proof {
                self.state_nearer(old(self));
            }
            return Ok(());
        }
        let next = if file_blocks == 0 {
            self.begin_reading(file_start, 0, 0, Ghost(*table_spec))
        } else {
            self.begin_upper(file_start, file_blocks, 0, Ghost(*table_spec))
        };
        match next {
            Ok(_) => {
                proof {
                    self.state_nearer(old(self));
                }
                Ok(())
            },
            Err(e) => Err(e),
        }
    }

    /// Takes the answer that a block gives to a search for one end of the range.
    fn answer_search(
        &self,
        search: &mut BlockSearch,
        at: u64,
        upper: bool,
        data: &[u8],
        table_spec: &TableSpec,
    ) -> (r: Result<(), DbError>)
        requires
            old(search).inv(),
            old(search).asks() == Some(at as int),
            self.ordered_bounds matches Some(b) && if upper {
                b.upper is Some
            } else {
                b.lower is Some
            },
        ensures
            r is Ok ==> final(search).inv() && final(search).size() == old(search).size()
                && final(search).left() < old(search).left(),
            r is Ok ==> final(search).answers() == old(search).answers().insert(
                at as int,
                lies_before(
                    data@,
                    upper,
                    self.bounds()->0,
                    types_of(table_spec.column_specs@),
                ),
            ),
            r is Ok ==> ends_of_block(
                data@,
                types_of(table_spec.column_specs@),
                self.bounds()->0.ordered_col_idx as int,
            ) matches Ok(Some(_)),
            r matches Err(e) ==> scan_error(e),
            r is Ok <==> ({
                let b = self.bounds()->0;
                ends_of_block(
                    data@,
                    types_of(table_spec.column_specs@),
                    b.ordered_col_idx as int,
                ) matches Ok(Some(e)) && if upper {
                    after_bound(e.0, b.upper->0) is Some
                } else {
                    before_bound(e.1, b.lower->0) is Some
                }
            }),
    {
        let bounds = match &self.ordered_bounds {
            Some(b) => b,
            None => {
                return Ok(());
            },
        };
        let (min, max) = match ordered_column_min_max_in_block(
            table_spec,
            data,
            at,
            bounds.ordered_col_idx,
        ) {
            Ok(p) => p,
            Err(e) => {
                return Err(e);
            },
        };
        let behind = if upper {
            match &bounds.upper {
                Some(b) => match is_strictly_after_bound(&min, b) {
                    Ok(after) => !after,
                    Err(e) => {
                        return Err(e);
                    },
                },
                None => false,
            }
        } else {
            match &bounds.lower {
                Some(b) => match is_strictly_before_bound(&max, b) {
                    Ok(before) => before,
                    Err(e) => {
                        return Err(e);
                    },
                },
                None => false,
            }
        };
        search.answer(behind);
        Ok(())
    }

    proof fn lemma_undecoded(&self, blocks: Seq<Seq<u8>>, at: int, table: TableSpec)
        requires
            0 <= at < blocks.len(),
            !(block_rows(
                blocks[at],
                types_of(table.column_specs@),
                self.keep(),
                self.filter(),
                self.runtime(),
            ) is Ok),
        ensures
            !self.decodes(blocks, table),
    {
        reveal(all_decode);
    }

    proof fn lemma_decodes_push(&self, blocks: Seq<Seq<u8>>, block: Seq<u8>, table: TableSpec)
        requires
            self.decodes(blocks, table),
            block_rows(
                block,
                types_of(table.column_specs@),
                self.keep(),
                self.filter(),
                self.runtime(),
            ) is Ok,
        ensures
            self.decodes(blocks.push(block), table),
    {
        reveal(all_decode);
    }

    /// Decodes the blocks that were read.
    #[verifier::rlimit(40)]
    fn take_blocks(
        &mut self,
        count: usize,
        data: &[u8],
        block_size: usize,
        table_spec: &TableSpec,
        memory: &mut QueryMemoryManager,
    ) -> (r: Result<(), DbError>)
        requires
            old(self).fits(*table_spec),
            all_read_within(old(self).tests(), old(self).schema@.len() as int),
            old(self).runtime_filter matches Some(f) ==> f.inv(),
            old(self).emitted@ + batch_rows(old(self).ready@) == old(self).rows_read(*table_spec),
            all_len(batch_rows(old(self).ready@), old(self).schema@.len()),
            data@.len() == count * block_size,
            old(memory)@.inv(),
        ensures
            final(self).same_scan(old(self)),
            final(self).state == old(self).state,
            final(self).emitted == old(self).emitted,
            final(self).file == old(self).file,
            final(self).lower_seen == old(self).lower_seen,
            final(self).upper_seen == old(self).upper_seen,
            final(self).ends == old(self).ends,
            final(memory)@.inv(),
            all_len(batch_rows(final(self).ready@), old(self).schema@.len()),
            old(self).decodes(blocks_in(data@, block_size as int, count as nat), *table_spec)
                && old(self).has_memory(
                blocks_in(data@, block_size as int, count as nat),
                *table_spec,
                old(memory)@,
            ) ==> r is Ok,
            r is Ok ==> {
                &&& final(self).read@ == old(self).read@ + blocks_in(
                    data@,
                    block_size as int,
                    count as nat,
                )
                &&& final(self).emitted@ + batch_rows(final(self).ready@) == final(self).rows_read(
                    *table_spec,
                )
                &&& final(memory)@.used + old(self).reserved() == old(memory)@.used + final(
                    self).reserved()
            },
            r matches Err(e) ==> scan_error(e),
            r is Ok ==> old(self).decodes(
                blocks_in(data@, block_size as int, count as nat),
                *table_spec,
            ),
            r matches Err(e) ==> old(self).decodes(
                blocks_in(data@, block_size as int, count as nat),
                *table_spec,
            ) ==> e is MemoryBudgetExceeded || e is MemoryAccountingOverflow,
    {
        let ghost types = types_of(table_spec.column_specs@);
        let ghost kv = self.keep();
        let ghost rv = self.runtime();
        let ghost fv = self.filter();
        let ghost all = blocks_in(data@, block_size as int, count as nat);
        let ghost roomy = self.has_memory(all, *table_spec, memory@);
        let mut i: usize = 0;
        let total: usize = data.len();
        let mut at: usize = 0;
        proof {
            assert(self.read@ + all.take(0) =~= self.read@);
            reveal(all_decode);
            assert(self.decodes(all.take(0), *table_spec));
        }
        while i < count
            invariant
                i <= count,
                at == i * block_size,
                data@.len() == count * block_size,
                total == data@.len(),
                self.same_scan(old(self)),
                self.state == old(self).state,
                self.emitted == old(self).emitted,
                self.file == old(self).file,
                self.lower_seen == old(self).lower_seen,
                self.upper_seen == old(self).upper_seen,
                self.ends == old(self).ends,
                self.fits(*table_spec),
                all_read_within(self.tests(), self.schema@.len() as int),
                self.runtime_filter matches Some(f) ==> f.inv(),
                types == types_of(table_spec.column_specs@),
                kv == self.keep(),
                rv == self.runtime(),
                fv == self.filter(),
                all == blocks_in(data@, block_size as int, count as nat),
                self.read@ == old(self).read@ + all.take(i as int),
                old(self).decodes(all.take(i as int), *table_spec),
                self.emitted@ + batch_rows(self.ready@) == self.rows_read(*table_spec),
                all_len(batch_rows(self.ready@), self.schema@.len()),
                roomy == old(self).has_memory(all, *table_spec, old(memory)@),
                memory@.budget == old(memory)@.budget,
                roomy ==> memory@.used == old(memory)@.used + plain_bytes(
                    old(self).rows_in(all.take(i as int), *table_spec),
                ),
                memory@.inv(),
                memory@.used + old(self).reserved() == old(memory)@.used + self.reserved(),
            decreases count - i,
        {
            proof {
                assert((i + 1) * block_size == i * block_size + block_size) by (nonlinear_arith);
                assert((i + 1) * block_size <= count * block_size) by (nonlinear_arith)
                    requires
                        i + 1 <= count,
                        block_size >= 0,
                ;
            }
            let end: usize = at + block_size;
            let block = vstd::slice::slice_subrange(data, at, end);
            proof {
                assert(all[i as int] == block@);
            }
            let keep = match &self.keep_columns {
                Some(k) => Some(k.as_slice()),
                None => None,
            };
            let scan_filter = if self.scan_filter.len() == 0 {
                None
            } else {
                Some(self.scan_filter.as_slice())
            };
            let runtime = match &self.runtime_filter {
                Some(f) => Some(f),
                None => None,
            };
            proof {
                assert(self.tests().len() == self.scan_filter@.len());
                assert(keep_view(keep) == kv);
                assert(filter_view(scan_filter) == fv);
            }
            let rows = match decode_block_into_rows_maybe_filtered(
                table_spec,
                block,
                keep,
                scan_filter,
                runtime,
            ) {
                Ok(v) => v,
                Err(e) => {
                    proof {
                        old(self).lemma_undecoded(all, i as int, *table_spec);
                    }
                    return Err(e);
                },
            };
            proof {
                let more = rows_of(rows@);
                let before = old(self).rows_in(all.take(i as int), *table_spec);
                lemma_block_rows_push(all.take(i as int), block@, types, kv, fv, rv);
                assert(all.take(i + 1) =~= all.take(i as int).push(all[i as int]));
                lemma_row_lengths(block@, types, kv, fv, rv);
                lemma_plain_bytes_sum(before, more);
                if roomy {
                    lemma_rows_in_prefix(all, i + 1, types, kv, fv, rv);
                    let some = old(self).rows_in(all.take(i + 1), *table_spec);
                    let whole = old(self).rows_in(all, *table_spec);
                    let rest = whole.skip(some.len() as int);
                    assert(whole =~= some + rest);
                    lemma_plain_bytes_sum(some, rest);
                    assert forall|k: int| 0 <= k < more.len() implies string_lengths(
                        #[trigger] more[k],
                    ).len() == 0 by {
                        assert(whole[before.len() + k] == more[k]);
                    }
                }
            }
            let bytes: usize = estimate_buffered_batch_bytes(&rows);
            match memory.try_reserve(bytes) {
                Ok(_) => {},
                Err(e) => {
                    return Err(e);
                },
            }
            let batch = Batch { rows: queue_of(rows), bytes };
            let ghost before = *self;
            self.ready.push_back(batch);
            proof {
                self.read@ = self.read@.push(block@);
                lemma_batches_push(before.ready@, batch);
                assert(all_len(batch_rows(self.ready@), self.schema@.len()));
                lemma_block_rows_push(before.read@, block@, types, kv, fv, rv);
                assert(self.emitted@ + batch_rows(self.ready@) =~= (before.emitted@ + batch_rows(
                    before.ready@,
                )) + rows_of(batch.rows@));
                assert(all.take(i + 1) =~= all.take(i as int).push(all[i as int]));
                old(self).lemma_decodes_push(all.take(i as int), block@, *table_spec);
                assert(self.read@ =~= old(self).read@ + all.take(i + 1));
            }
            at = end;
            i += 1;
        }
        proof {
            assert(all.take(count as int) =~= all);
        }
        Ok(())
    }

    /// Decodes the blocks that were asked for, if the answer has their length.
    #[verifier::rlimit(40)]
    fn take_answer(
        &mut self,
        asked: u64,
        data: &[u8],
        block_size: usize,
        table_spec: &TableSpec,
        memory: &mut QueryMemoryManager,
    ) -> (r: Result<(), DbError>)
        requires
            old(self).fits(*table_spec),
            all_read_within(old(self).tests(), old(self).schema@.len() as int),
            old(self).runtime_filter matches Some(f) ==> f.inv(),
            old(self).emitted@ + batch_rows(old(self).ready@) == old(self).rows_read(*table_spec),
            all_len(batch_rows(old(self).ready@), old(self).schema@.len()),
            old(memory)@.inv(),
        ensures
            all_len(batch_rows(final(self).ready@), old(self).schema@.len()),
            block_size > 0 && data@.len() == asked * block_size && old(self).decodes(
                blocks_in(data@, block_size as int, asked as nat),
                *table_spec,
            ) && old(self).has_memory(
                blocks_in(data@, block_size as int, asked as nat),
                *table_spec,
                old(memory)@,
            ) ==> r is Ok,
            final(self).same_scan(old(self)),
            final(self).state == old(self).state,
            final(self).emitted == old(self).emitted,
            final(self).file == old(self).file,
            final(self).lower_seen == old(self).lower_seen,
            final(self).upper_seen == old(self).upper_seen,
            final(self).ends == old(self).ends,
            final(memory)@.inv(),
            r is Ok ==> {
                &&& final(self).read@ == old(self).read@ + blocks_in(
                    data@,
                    block_size as int,
                    asked as nat,
                )
                &&& final(self).emitted@ + batch_rows(final(self).ready@) == final(self).rows_read(
                    *table_spec,
                )
                &&& final(memory)@.used + old(self).reserved() == old(memory)@.used + final(
                    self).reserved()
            },
            r matches Err(e) ==> scan_error(e),
            r is Ok ==> data@.len() == asked * block_size && old(self).decodes(
                blocks_in(data@, block_size as int, asked as nat),
                *table_spec,
            ),
            r matches Err(e) ==> block_size > 0 && data@.len() == asked * block_size && old(
                self).decodes(blocks_in(data@, block_size as int, asked as nat), *table_spec)
                ==> e is MemoryBudgetExceeded || e is MemoryAccountingOverflow,
    {
        let mismatch = DbError::BufferLengthMismatch {
            len: data.len(),
            num_pages: asked,
            block_size,
        };
        if asked > usize::MAX as u64 {
            assert(block_size > 0 ==> asked * block_size > usize::MAX) by (nonlinear_arith)
                requires
                    asked > usize::MAX,
            ;
            return Err(mismatch);
        }
        let count: usize = asked as usize;
        match count.checked_mul(block_size) {
            Some(n) => {
                if n != data.len() {
                    return Err(mismatch);
                }
            },
            None => {
                return Err(mismatch);
            },
        }
        self.take_blocks(count, data, block_size, table_spec, memory)
    }

    /// Takes the contents of the blocks that were asked for.
    #[verifier::rlimit(60)]
    pub fn supply(
        &mut self,
        data: &[u8],
        block_size: usize,
        table_spec: &TableSpec,
        memory: &mut QueryMemoryManager,
    ) -> (r: Result<(), DbError>)
        requires
            old(self).inv(*table_spec),
            old(self).fits(*table_spec),
            old(self).asked() > 0,
            old(memory)@.inv(),
        ensures
            final(self).is_still(old(self)),
            final(self).inv(*table_spec),
            final(self).emitted() == old(self).emitted(),
            final(self).file() == old(self).file(),
            final(memory)@.inv(),
            r is Ok ==> {
                &&& forall|upper: bool| #[trigger]
                    final(self).seen(upper) == match old(self).probe() {
                        Some(p) if p.0 == upper => old(self).seen(upper).insert(p.1, data@),
                        _ => old(self).seen(upper),
                    }
                &&& !final(self).failed()
                &&& final(self).range() == old(self).range()
                &&& final(self).started()
                &&& final(self).asked() == 0
                &&& final(self).blocks_read() == if old(self).range() is Some {
                    old(self).blocks_read() + blocks_in(
                        data@,
                        block_size as int,
                        old(self).asked(),
                    )
                } else {
                    old(self).blocks_read()
                }
                &&& final(memory)@.used + old(self).reserved() == old(memory)@.used + final(
                    self).reserved()
            },
            r is Ok ==> nearer(final(self).left_to_do(), old(self).left_to_do()),
            block_size > 0 && old(self).accepts(data@, block_size as int, *table_spec) && old(
                self,
            ).affords(data@, block_size as int, *table_spec, old(memory)@) ==> r is Ok,
            r matches Err(e) ==> scan_error(e) && final(self).failed(),
            r is Ok ==> old(self).accepts(data@, block_size as int, *table_spec),
            r matches Err(e) ==> block_size > 0 && old(self).accepts(
                data@,
                block_size as int,
                *table_spec,
            ) ==> e is MemoryBudgetExceeded || e is MemoryAccountingOverflow,
    {
        let mut state = ScanState::Failed;
        core::mem::swap(&mut self.state, &mut state);
        match state {
            ScanState::Lower(s) => {
                let mut s = s;
                if let Some(at) = s.asked {
                    match self.answer_search(&mut s.search, at, false, data, table_spec) {
                        Ok(_) => {
                            s.asked = None;
                            self.state = ScanState::Lower(s);
                            proof {
                                self.lower_seen@ = self.lower_seen@.insert(at as int, data@);
                                self.state_nearer(old(self));
                            }
                        },
                        Err(e) => {
                            return Err(e);
                        },
                    }
                }
                Ok(())
            },
            ScanState::Upper(s) => {
                let mut s = s;
                if let Some(at) = s.asked {
                    match self.answer_search(&mut s.search, at, true, data, table_spec) {
                        Ok(_) => {
                            s.asked = None;
                            self.state = ScanState::Upper(s);
                            proof {
                                self.upper_seen@ = self.upper_seen@.insert(at as int, data@);
                                self.state_nearer(old(self));
                            }
                        },
                        Err(e) => {
                            return Err(e);
                        },
                    }
                }
                Ok(())
            },
            ScanState::Reading(reading) => {
                let mut reading = reading;
                let asked: u64 = reading.asked;
                match self.take_answer(asked, data, block_size, table_spec, memory) {
                    Ok(_) => {},
                    Err(e) => {
                        return Err(e);
                    },
                }
                reading.offset = reading.offset + asked;
                reading.asked = 0;
                self.state = ScanState::Reading(reading);
                proof {
                    self.state_nearer(old(self));
                }
                Ok(())
            },
            _ => Ok(()),
        }
    }
}

} // verus!

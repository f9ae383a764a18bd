//! Runs: rows stored in a temporary file.
//!
//! A page of a run holds records one after the other, and in its last two bytes how many they
//! are.

use vstd::prelude::*;
use crate::codec::{append_le, decode_row_from_page, encodable, encode_row, encode_row_into, le, le_value, parse_record, read_le, record};
use crate::error::{DbError, storage_error};
use crate::row::Row;
use crate::temp_storage::{BlockRange, MAX_BATCH_PAGES, TempFileId, TempStorageManager, block_at, chunk, grew, grew_by, out_of_room};
use crate::value::Value;

verus! {

pub const DEFAULT_TEMP_IO_BATCH_PAGES: usize = 16;

/// The `count` rows from `offset` of a page on; `None` where one cannot be read.
pub open spec fn parse_rows(page: Seq<u8>, offset: int, count: nat) -> Option<Seq<Seq<Value>>>
    decreases count,
{
    if count == 0 {
        Some(Seq::empty())
    } else {
        match parse_record(page, offset) {
            Err(_) => None,
            Ok((vs, next)) => match parse_rows(page, next, (count - 1) as nat) {
                None => None,
                Some(rest) => Some(seq![vs] + rest),
            },
        }
    }
}

/// The number of rows that a page says it holds.
pub open spec fn row_count_of(page: Seq<u8>) -> nat {
    le_value(page.subrange(page.len() - 2, page.len() as int))
}

/// The rows of a page.
pub open spec fn page_rows(page: Seq<u8>) -> Option<Seq<Seq<Value>>> {
    parse_rows(page, 0, row_count_of(page))
}

/// The rows of a list of pages.
pub open spec fn run_rows(pages: Seq<Seq<u8>>) -> Option<Seq<Seq<Value>>>
    decreases pages.len(),
{
    if pages.len() == 0 {
        Some(Seq::empty())
    } else {
        match (page_rows(pages[0]), run_rows(pages.drop_first())) {
            (Some(a), Some(b)) => Some(a + b),
            _ => None,
        }
    }
}

/// The rows of a temporary file; `None` where it is no run.
pub open spec fn run_of(storage: &TempStorageManager, f: u64) -> Option<Seq<Seq<Value>>> {
    if storage.has_file(f) {
        run_rows(storage.pages(f))
    } else {
        None
    }
}

/// Records, one after the other.
pub open spec fn records(rows: Seq<Seq<Value>>) -> Seq<u8>
    decreases rows.len(),
{
    if rows.len() == 0 {
        Seq::empty()
    } else {
        records(rows.drop_last()) + record(rows.last())
    }
}

/// Whether a row has a record.
pub open spec fn storable(row: Seq<Value>) -> bool {
    encodable(row) && encode_row(row).len() <= u32::MAX
}

/// Whether a row's record fits a page of `size` bytes.
pub open spec fn fits_page(row: Seq<Value>, size: nat) -> bool {
    storable(row) && record(row).len() <= size - 2
}

/// Whether an error is one of storing a row: the row does not fit a page, or the storage cannot
/// take another batch.
pub open spec fn cannot_store(e: DbError, row: Seq<Value>, storage: &TempStorageManager) -> bool {
    storage_error(e) && (!fits_page(row, storage.size()) || !storage.roomy(MAX_BATCH_PAGES as nat))
}

/// Whether an error is one of storing so many rows one after the other: one of them does not fit
/// a page, or the storage cannot take a batch and a file for each.
pub open spec fn no_room_for_all(
    e: DbError,
    rows: Seq<Seq<Value>>,
    storage: &TempStorageManager,
) -> bool {
    &&& storage_error(e)
    &&& {
        ||| !all_fit(rows, storage.size())
        ||| !storage.roomy(rows.len() * MAX_BATCH_PAGES as nat)
        ||| storage.names_given() + rows.len() > u64::MAX
    }
}

/// Where one of some rows cannot be stored after those before it, there is no room for all.
pub proof fn lemma_no_room_left(
    e: DbError,
    rows: Seq<Seq<Value>>,
    i: int,
    before: &TempStorageManager,
    after: &TempStorageManager,
)
    requires
        0 <= i < rows.len(),
        cannot_store(e, rows[i], after),
        before.size() == after.size(),
        grew_by(before, after, (i * MAX_BATCH_PAGES) as nat, i as nat),
    ensures
        no_room_for_all(e, rows, before),
{
    let all = rows.len() * MAX_BATCH_PAGES as nat;
    if before.roomy(all) {
        assert(before.size() * MAX_BATCH_PAGES <= before.size() * all) by (nonlinear_arith)
            requires
                MAX_BATCH_PAGES <= all,
        ;
    }
}

/// Whether all rows fit a page.
pub open spec fn all_fit(rows: Seq<Seq<Value>>, size: nat) -> bool {
    forall|i: int| 0 <= i < rows.len() ==> fits_page(#[trigger] rows[i], size)
}

/// Whether an error is one of storing some rows: one of them does not fit a page, or the storage
/// cannot take another batch.
pub open spec fn cannot_store_all(
    e: DbError,
    rows: Seq<Seq<Value>>,
    storage: &TempStorageManager,
) -> bool {
    storage_error(e) && (!all_fit(rows, storage.size()) || !storage.roomy(MAX_BATCH_PAGES as nat))
}

/// Each record tells its length in four bytes.
proof fn lemma_records_len(rows: Seq<Seq<Value>>)
    ensures
        records(rows).len() >= 4 * rows.len(),
    decreases rows.len(),
{
    if rows.len() > 0 {
        lemma_records_len(rows.drop_last());
        crate::codec::lemma_le_len(encode_row(rows.last()).len(), 4);
    }
}

proof fn lemma_run_rows_push(pages: Seq<Seq<u8>>, page: Seq<u8>)
    ensures
        run_rows(pages.push(page)) == (match (run_rows(pages), page_rows(page)) {
            (Some(a), Some(b)) => Some(a + b),
            _ => None,
        }),
    decreases pages.len(),
{
    let all = pages.push(page);
    if pages.len() == 0 {
        assert(all.drop_first() =~= Seq::<Seq<u8>>::empty());
        assert(all[0] == page);
        assert(run_rows(all.drop_first()) == Some(Seq::<Seq<Value>>::empty()));
        if let Some(b) = page_rows(page) {
            assert(b + Seq::<Seq<Value>>::empty() =~= Seq::<Seq<Value>>::empty() + b);
        }
    } else {
        lemma_run_rows_push(pages.drop_first(), page);
        assert(all.drop_first() =~= pages.drop_first().push(page));
        assert(all[0] == pages[0]);
        match (page_rows(pages[0]), run_rows(pages.drop_first()), page_rows(page)) {
            (Some(a), Some(b), Some(c)) => {
                assert(a + (b + c) =~= (a + b) + c);
            },
            _ => {},
        }
    }
}

proof fn lemma_records_take(rows: Seq<Seq<Value>>, k: int)
    requires
        0 <= k < rows.len(),
    ensures
        records(rows.take(k + 1)) == records(rows.take(k)) + record(rows[k]),
        records(rows.take(k + 1)).len() <= records(rows).len(),
        records(rows).take(records(rows.take(k + 1)).len() as int) == records(rows.take(k + 1)),
    decreases rows.len(),
{
    assert(rows.take(k + 1).drop_last() =~= rows.take(k));
    if k + 1 == rows.len() {
        assert(rows.take(k + 1) =~= rows);
        assert(records(rows).take(records(rows).len() as int) =~= records(rows));
    } else {
        let init = rows.drop_last();
        lemma_records_take(init, k);
        assert(init.take(k + 1) =~= rows.take(k + 1));
        let n = records(rows.take(k + 1)).len() as int;
        assert(records(rows).take(n) =~= records(init).take(n));
    }
}

proof fn lemma_parse_from(page: Seq<u8>, rows: Seq<Seq<Value>>, k: int)
    requires
        0 <= k <= rows.len(),
        page.len() >= 2,
        records(rows).len() <= page.len() - 2,
        page.take(records(rows).len() as int) == records(rows),
        forall|i: int| 0 <= i < rows.len() ==> storable(#[trigger] rows[i]),
    ensures
        parse_rows(page, records(rows.take(k)).len() as int, (rows.len() - k) as nat) == Some(
            rows.skip(k),
        ),
    decreases rows.len() - k,
{
    if k == rows.len() {
        assert(rows.skip(k) =~= Seq::<Seq<Value>>::empty());
    } else {
        lemma_parse_from(page, rows, k + 1);
        lemma_records_take(rows, k);
        let off = records(rows.take(k)).len() as int;
        let end = off + record(rows[k]).len();
        assert(storable(rows[k]));
        assert(page.subrange(off, end) =~= record(rows[k])) by {
            let upto = records(rows.take(k + 1));
            assert(upto.subrange(off, end) =~= record(rows[k]));
            assert(page.subrange(off, end) =~= records(rows).subrange(off, end)) by {
                let whole = page.take(records(rows).len() as int);
                assert(whole.subrange(off, end) =~= page.subrange(off, end));
            }
            assert(records(rows).take(upto.len() as int).subrange(off, end) =~= records(
                rows,
            ).subrange(off, end));
        }
        crate::codec::record_round_trip(page, off, rows[k]);
        assert(seq![rows[k]] + rows.skip(k + 1) =~= rows.skip(k));
    }
}

/// Whether all pages hold rows.
pub open spec fn none_is_empty(pages: Seq<Seq<u8>>) -> bool {
    forall|i: int| 0 <= i < pages.len() ==> row_count_of(#[trigger] pages[i]) > 0
}

proof fn lemma_parse_count(page: Seq<u8>, offset: int, count: nat)
    ensures
        parse_rows(page, offset, count) matches Some(rows) ==> rows.len() == count,
    decreases count,
{
    if count > 0 {
        if let Ok((_, next)) = parse_record(page, offset) {
            lemma_parse_count(page, next, (count - 1) as nat);
        }
    }
}

/// Where all pages hold rows, there are no fewer rows than pages.
proof fn lemma_pages_hold_rows(pages: Seq<Seq<u8>>)
    requires
        none_is_empty(pages),
    ensures
        run_rows(pages) matches Some(rows) ==> rows.len() >= pages.len(),
    decreases pages.len(),
{
    if pages.len() > 0 {
        let rest = pages.drop_first();
        assert forall|i: int| 0 <= i < rest.len() implies row_count_of(#[trigger] rest[i]) > 0 by {
            assert(rest[i] == pages[i + 1]);
        }
        lemma_pages_hold_rows(rest);
        assert(row_count_of(pages[0]) > 0);
        lemma_parse_count(pages[0], 0, row_count_of(pages[0]));
    }
}

proof fn lemma_none_empty_push(before: Seq<Seq<u8>>, after: Seq<Seq<u8>>)
    requires
        none_is_empty(before),
        after.len() == before.len() + 1,
        after.drop_last() == before,
        row_count_of(after.last()) > 0,
    ensures
        none_is_empty(after),
{
    assert forall|i: int| 0 <= i < after.len() implies row_count_of(#[trigger] after[i]) > 0 by {
        if i < before.len() {
            assert(after[i] == after.drop_last()[i]);
            assert(row_count_of(before[i]) > 0);
        }
    }
}

/// Whether all extents have so many blocks.
pub open spec fn all_full(extents: Seq<BlockRange>, batch: nat) -> bool {
    forall|i: int| 0 <= i < extents.len() ==> (#[trigger] extents[i]).num_blocks == batch
}

/// Whether the write of so many pages of a file was queued, and nothing else.
pub open spec fn queued(
    before: &TempStorageManager,
    after: &TempStorageManager,
    f: u64,
    pages: nat,
) -> bool {
    &&& after.extents(f).len() == before.extents(f).len() + 1
    &&& after.extents(f).drop_last() == before.extents(f)
    &&& after.extents(f).last().num_blocks == pages
    &&& after.pending().len() == before.pending().len() + 1
    &&& after.pending().drop_last() == before.pending()
    &&& after.pending().last().range == after.extents(f).last()
}

/// The pages in a buffer.
spec fn pages_in(data: Seq<u8>, size: int, n: nat) -> Seq<Seq<u8>> {
    Seq::new(n, |i: int| chunk(data, size, i))
}

proof fn lemma_pages_in_push(data: Seq<u8>, page: Seq<u8>, size: int, n: nat)
    requires
        size > 0,
        data.len() == n * size,
        page.len() == size,
    ensures
        pages_in(data + page, size, n + 1) == pages_in(data, size, n).push(page),
        (data + page).len() == (n + 1) * size,
{
    let all = data + page;
    assert((n + 1) * size == n * size + size) by (nonlinear_arith);
    assert forall|i: int| 0 <= i < n + 1 implies #[trigger] chunk(all, size, i) == (if i < n {
        chunk(data, size, i)
    } else {
        page
    }) by {
        if i < n {
            assert(i * size + size <= n * size) by (nonlinear_arith)
                requires
                    0 <= i < n,
                    size > 0,
            ;
            assert(i * size >= 0) by (nonlinear_arith)
                requires
                    0 <= i,
                    size > 0,
            ;
            assert(chunk(all, size, i) =~= chunk(data, size, i));
        } else {
            assert(chunk(all, size, i) =~= page);
        }
    }
    assert(pages_in(all, size, n + 1) =~= pages_in(data, size, n).push(page));
}

/// Writes rows to a new temporary file, a batch of pages at a time.
pub struct TempRunWriter {
    file_id: TempFileId,
    io_batch_pages: usize,
    block_size: usize,
    page_buf: Vec<u8>,
    row_count: u16,
    pending_pages_buf: Vec<u8>,
    pending_pages: u64,
    encode_buf: Vec<u8>,
    page_content: Ghost<Seq<Seq<Value>>>,
    flushed_content: Ghost<Seq<Seq<Value>>>,
}

impl TempRunWriter {
    /// The file that is written.
    pub closed spec fn file(&self) -> u64 {
        self.file_id.0
    }

    /// The rows appended so far.
    pub closed spec fn rows(&self) -> Seq<Seq<Value>> {
        self.flushed_content@ + self.page_content@
    }

    /// How many pages are gathered before they are written.
    pub closed spec fn batch(&self) -> usize {
        self.io_batch_pages
    }

    /// Whether the current page counts as many rows as it can.
    pub closed spec fn count_is_full(&self) -> bool {
        self.row_count == u16::MAX
    }

    spec fn shape(&self) -> bool {
        &&& 64 <= self.block_size
        &&& self.io_batch_pages > 0
        &&& self.io_batch_pages * self.block_size <= usize::MAX
        &&& self.page_buf@ == records(self.page_content@)
        &&& self.page_buf@.len() <= self.block_size - 2
        &&& self.row_count == self.page_content@.len()
        &&& forall|i: int|
            0 <= i < self.page_content@.len() ==> storable(#[trigger] self.page_content@[i])
        &&& self.pending_pages < self.io_batch_pages
        &&& self.pending_pages_buf@.len() == self.pending_pages * self.block_size
    }

    /// The pages so far: those in the storage, and those that are gathered.
    spec fn all_pages(&self, storage: &TempStorageManager) -> Seq<Seq<u8>> {
        storage.pages(self.file_id.0) + pages_in(
            self.pending_pages_buf@,
            self.block_size as int,
            self.pending_pages as nat,
        )
    }

    spec fn sound(&self, storage: &TempStorageManager) -> bool {
        &&& self.shape()
        &&& storage.inv()
        &&& storage.size() == self.block_size
        &&& storage.has_file(self.file_id.0)
        &&& run_rows(self.all_pages(storage)) == Some(self.flushed_content@)
    }

    pub closed spec fn inv(&self, storage: &TempStorageManager) -> bool {
        &&& self.sound(storage)
        &&& none_is_empty(self.all_pages(storage))
        &&& all_full(storage.extents(self.file_id.0), self.io_batch_pages as nat)
    }

    /// A storage with room for a batch has room for the writer's.
    pub proof fn room_enough(&self, storage: &TempStorageManager)
        requires
            self.inv(storage),
            storage.roomy(MAX_BATCH_PAGES as nat),
            self.batch() <= MAX_BATCH_PAGES,
        ensures
            self.room(storage),
    {
        storage.pages_below_frontier(self.file());
    }

    /// Whether the storage can take another batch of this writer's pages.
    pub open spec fn room(&self, storage: &TempStorageManager) -> bool {
        &&& storage.page_count(self.file()) + self.batch() <= u64::MAX
        &&& storage.frontier() is Some
        &&& storage.frontier()->0 + self.batch() <= u64::MAX
    }

    /// A writer depends on its own file alone.
    pub proof fn inv_kept(&self, before: &TempStorageManager, after: &TempStorageManager)
        requires
            self.inv(before),
            after.inv(),
            before.size() == after.size(),
            before.same_file(after, self.file()),
        ensures
            self.inv(after),
    {
    }

    pub proof fn inv_gives(&self, storage: &TempStorageManager)
        requires
            self.inv(storage),
        ensures
            storage.inv(),
            storage.has_file(self.file()),
    {
    }

    pub fn new(storage: &mut TempStorageManager) -> (r: Result<TempRunWriter, DbError>)
        requires
            old(storage).inv(),
        ensures
            final(storage).inv(),
            r is Ok <==> old(storage).names_given() < u64::MAX && old(storage).size()
                * DEFAULT_TEMP_IO_BATCH_PAGES <= usize::MAX,
            r matches Ok(w) ==> {
                &&& w.inv(final(storage))
                &&& w.rows() == Seq::<Seq<Value>>::empty()
                &&& w.batch() == DEFAULT_TEMP_IO_BATCH_PAGES
                &&& w.file() == old(storage).names_given()
                &&& !old(storage).has_file(w.file())
                &&& old(storage).same_but(final(storage), w.file())
            },
            r matches Err(e) ==> e == (if old(storage).size() * DEFAULT_TEMP_IO_BATCH_PAGES
                > usize::MAX {
                DbError::BatchCapacityOverflow
            } else {
                DbError::TooManyTempFiles
            }) && old(storage).same_all(final(storage)),
            final(storage).frontier() == old(storage).frontier(),
            old(storage).names_given() <= final(storage).names_given(),
    {
        Self::with_batch_pages(storage, DEFAULT_TEMP_IO_BATCH_PAGES)
    }

    /// Makes a writer of a new file that writes so many pages at a time.
    pub fn with_batch_pages(storage: &mut TempStorageManager, io_batch_pages: usize) -> (r: Result<
        TempRunWriter,
        DbError,
    >)
        requires
            old(storage).inv(),
        ensures
            final(storage).inv(),
            r is Ok <==> io_batch_pages > 0 && old(storage).names_given() < u64::MAX && old(
                storage,
            ).size() * io_batch_pages <= usize::MAX,
            r matches Ok(w) ==> {
                &&& w.inv(final(storage))
                &&& w.rows() == Seq::<Seq<Value>>::empty()
                &&& w.batch() == io_batch_pages
                &&& w.file() == old(storage).names_given()
                &&& final(storage).page_count(w.file()) == 0
                &&& !old(storage).has_file(w.file())
                &&& old(storage).same_but(final(storage), w.file())
            },
            r matches Err(e) ==> e == (if io_batch_pages == 0 {
                DbError::ZeroBatch
            } else if old(storage).size() * io_batch_pages > usize::MAX {
                DbError::BatchCapacityOverflow
            } else {
                DbError::TooManyTempFiles
            }) && old(storage).same_all(final(storage)) && final(storage).names_given() == old(
                storage,
            ).names_given(),
            r is Ok ==> final(storage).names_given() == old(storage).names_given() + 1,
            r matches Err(e) ==> 0 < io_batch_pages <= MAX_BATCH_PAGES ==> out_of_room(
                e,
                final(storage),
            ),
            final(storage).pending() == old(storage).pending(),
            final(storage).frontier() == old(storage).frontier(),
            old(storage).names_given() <= final(storage).names_given(),
    {
        if io_batch_pages == 0 {
            return Err(DbError::ZeroBatch);
        }
        proof {
            if storage.roomy(MAX_BATCH_PAGES as nat) && io_batch_pages <= MAX_BATCH_PAGES {
                storage.roomy_for_fewer(MAX_BATCH_PAGES as nat, io_batch_pages as nat);
            }
        }
        let block_size: usize = storage.block_size();
        let capacity: usize = match block_size.checked_mul(io_batch_pages) {
            Some(n) => n,
            None => {
                return Err(DbError::BatchCapacityOverflow);
            },
        };
        let file_id = match storage.create_temp_file() {
            Ok(id) => id,
            Err(e) => {
                return Err(e);
            },
        };
        let pending_pages_buf: Vec<u8> = Vec::new();
        let w = TempRunWriter {
            file_id,
            io_batch_pages,
            block_size,
            page_buf: Vec::new(),
            row_count: 0,
            pending_pages_buf,
            pending_pages: 0,
            encode_buf: Vec::new(),
            page_content: Ghost(Seq::empty()),
            flushed_content: Ghost(Seq::empty()),
        };
        proof {
            assert(io_batch_pages * block_size == block_size * io_batch_pages)
                by (nonlinear_arith);
            assert(storage.pages(file_id.0) + pages_in(w.pending_pages_buf@, block_size as int, 0)
                =~= Seq::<Seq<u8>>::empty());
            assert(w.rows() =~= Seq::<Seq<Value>>::empty());
            assert(w.all_pages(storage) =~= Seq::<Seq<u8>>::empty());
        }
        Ok(w)
    }

    pub fn file_id(&self) -> (r: TempFileId)
        ensures
            r.0 == self.file(),
    {
        self.file_id
    }

    /// Appends a row. On an error the writer is of no further use.
    pub fn append_row(&mut self, row: &Row, storage: &mut TempStorageManager) -> (r: Result<
        (),
        DbError,
    >)
        requires
            old(self).inv(old(storage)),
        ensures
            final(storage).inv(),
            r is Ok ==> final(self).inv(final(storage)) && final(self).rows() == old(
                self,
            ).rows().push(row@),
            fits_page(row@, old(storage).size()) && (!old(self).count_is_full() || old(
                storage,
            ).size() <= 0x4_0000) && old(self).room(old(storage)) ==> r is Ok,
            r is Ok ==> *final(storage) == *old(storage) || queued(
                old(storage),
                final(storage),
                old(self).file(),
                old(self).batch() as nat,
            ),
            r is Err ==> final(storage).frontier() == old(storage).frontier()
                && final(storage).pending() == old(storage).pending(),
            r matches Err(e) ==> fits_page(row@, old(storage).size()) && old(self).batch()
                <= MAX_BATCH_PAGES ==> out_of_room(e, final(storage)),
            grew(old(storage), final(storage), old(self).batch() as nat),
            !fits_page(row@, old(storage).size()) ==> r is Err,
            r matches Err(e) ==> if !encodable(row@) {
                e is TooManyFields || e is StringTooLarge
            } else if !fits_page(row@, old(storage).size()) {
                e matches DbError::RowTooLarge { record_len, usable } && usable == old(
                    storage,
                ).size() - 2 && (record(row@).len() <= usize::MAX ==> record_len == record(
                    row@,
                ).len())
            } else {
                e is PageCountOverflow || e is AnonRegionUnknown || e is BlockIdOverflow || e
                    == DbError::PageRowCountOverflow
            },
            final(self).file() == old(self).file(),
            final(self).batch() == old(self).batch(),
            old(storage).same_but(final(storage), old(self).file()),
            final(storage).names_given() == old(storage).names_given(),
            old(storage).frontier() is Some ==> final(storage).frontier() is Some,
    {
        proof {
            if storage.roomy(MAX_BATCH_PAGES as nat) && self.batch() <= MAX_BATCH_PAGES {
                self.room_enough(storage);
            }
        }
        match encode_row_into(row, &mut self.encode_buf) {
            Ok(_) => {},
            Err(e) => {
                return Err(e);
            },
        }
        proof {
            crate::codec::lemma_le_len(encode_row(row@).len(), 4);
        }
        let usable_end: usize = self.block_size - 2;
        let payload: usize = self.encode_buf.len();
        if payload > usize::MAX - 4 || payload + 4 > usable_end || payload as u64 > u32::MAX as u64 {
            return Err(
                DbError::RowTooLarge {
                    record_len: if payload > usize::MAX - 4 {
                        usize::MAX
                    } else {
                        payload + 4
                    },
                    usable: usable_end,
                },
            );
        }
        let record_len: usize = payload + 4;
        proof {
            lemma_records_len(self.page_content@);
        }
        if record_len > usable_end - self.page_buf.len() {
            let ghost was = *self;
            match self.flush_current_page(storage) {
                Ok(_) => {},
                Err(e) => {
                    return Err(e);
                },
            }
            proof {
                assert(was.row_count > 0) by {
                    if was.page_content@.len() == 0 {
                        assert(records(was.page_content@).len() == 0);
                    }
                }
                lemma_none_empty_push(was.all_pages(old(storage)), self.all_pages(storage));
            }
        }
        if self.row_count == u16::MAX {
            return Err(DbError::PageRowCountOverflow);
        }
        let ghost before = self.page_content@;
        let ghost mid_pages = self.all_pages(storage);
        append_le(&mut self.page_buf, payload as u64, 4);
        self.page_buf.extend_from_slice(self.encode_buf.as_slice());
        self.row_count = self.row_count + 1;
        proof {
            self.page_content@ = before.push(row@);
            assert(self.page_content@.drop_last() =~= before);
            assert(self.page_buf@ =~= records(self.page_content@));
            assert forall|i: int| 0 <= i < self.page_content@.len() implies storable(
                #[trigger] self.page_content@[i],
            ) by {
                if i < before.len() {
                    assert(storable(before[i]));
                }
            }
            assert(self.rows() =~= old(self).rows().push(row@));
            assert(self.all_pages(storage) =~= mid_pages);
        }
        Ok(())
    }

    fn flush_current_page(&mut self, storage: &mut TempStorageManager) -> (r: Result<(), DbError>)
        requires
            old(self).sound(old(storage)),
            all_full(old(storage).extents(old(self).file()), old(self).batch() as nat),
        ensures
            final(storage).inv(),
            r is Ok ==> all_full(final(storage).extents(old(self).file()), old(self).batch() as nat),
            r is Ok ==> {
                let now = final(self).all_pages(final(storage));
                let then = old(self).all_pages(old(storage));
                now.len() == then.len() + 1 && now.drop_last() == then && row_count_of(now.last())
                    == old(self).row_count
            },
            r is Ok ==> final(self).sound(final(storage)) && final(self).rows() == old(self).rows()
                && final(self).page_buf@.len() == 0 && final(self).row_count == 0,
            r is Ok && final(self).pending_pages > 0 ==> *final(storage) == *old(storage),
            r is Ok && final(self).pending_pages == 0 ==> queued(
                old(storage),
                final(storage),
                old(self).file(),
                old(self).batch() as nat,
            ),
            r is Err ==> final(storage).frontier() == old(storage).frontier()
                && final(storage).pending() == old(storage).pending(),
            grew(old(storage), final(storage), old(self).batch() as nat),
            old(self).room(old(storage)) ==> r is Ok,
            r matches Err(e) ==> e is PageCountOverflow || e is AnonRegionUnknown || e
                is BlockIdOverflow,
            final(self).file() == old(self).file(),
            final(self).batch() == old(self).batch(),
            final(self).block_size == old(self).block_size,
            final(self).encode_buf == old(self).encode_buf,
            old(storage).same_but(final(storage), old(self).file()),
            final(storage).names_given() == old(storage).names_given(),
            old(storage).frontier() is Some ==> final(storage).frontier() is Some,
    {
        let ghost content = self.page_content@;
        let ghost used = self.page_buf@;
        let size: usize = self.block_size;
        self.page_buf.resize(size - 2, 0);
        append_le(&mut self.page_buf, self.row_count as u64, 2);
        let ghost page = self.page_buf@;
        let ghost data = self.pending_pages_buf@;
        let ghost n = self.pending_pages as nat;
        proof {
            crate::codec::lemma_pow256_values();
            crate::codec::lemma_le_len(content.len(), 2);
            crate::codec::little_endian_round_trip(content.len(), 2);
            assert(page.subrange(page.len() - 2, page.len() as int) =~= le(content.len(), 2));
            assert(page.take(used.len() as int) =~= used);
            lemma_parse_from(page, content, 0);
            assert(content.take(0) =~= Seq::<Seq<Value>>::empty());
            assert(content.skip(0) =~= content);
            assert(page_rows(page) == Some(content));
            lemma_pages_in_push(data, page, size as int, n);
            let before = storage.pages(self.file_id.0) + pages_in(data, size as int, n);
            lemma_run_rows_push(before, page);
            assert(storage.pages(self.file_id.0) + pages_in(data + page, size as int, n + 1)
                =~= before.push(page));
            assert(before.push(page).drop_last() =~= before);
        }
        self.pending_pages_buf.append(&mut self.page_buf);
        self.pending_pages = self.pending_pages + 1;
        self.row_count = 0;
        proof {
            self.flushed_content@ = self.flushed_content@ + content;
            self.page_content@ = Seq::empty();
            assert(self.page_buf@ =~= Seq::<u8>::empty());
            assert(self.rows() =~= old(self).rows());
        }
        let ghost gathered = self.all_pages(storage);
        if self.pending_pages >= self.io_batch_pages as u64 {
            let r = self.write_pending(storage);
            proof {
                if r is Ok {
                    let f = self.file_id.0;
                    let e = storage.extents(f);
                    assert forall|i: int| 0 <= i < e.len() implies (#[trigger] e[i]).num_blocks
                        == self.io_batch_pages by {
                        if i < e.len() - 1 {
                            assert(e[i] == e.drop_last()[i]);
                        }
                    }
                }
            }
            return r;
        }
        proof {
            assert forall|g: u64| #[trigger] old(storage).same_file(storage, g) by {}
        }
        Ok(())
    }

    /// Writes the gathered pages; there is at least one.
    fn write_pending(&mut self, storage: &mut TempStorageManager) -> (r: Result<(), DbError>)
        requires
            0 < old(self).pending_pages <= old(self).io_batch_pages,
            64 <= old(self).block_size,
            old(self).io_batch_pages * old(self).block_size <= usize::MAX,
            old(self).page_buf@ == records(old(self).page_content@),
            old(self).page_buf@.len() <= old(self).block_size - 2,
            old(self).row_count == old(self).page_content@.len(),
            forall|i: int|
                0 <= i < old(self).page_content@.len() ==> storable(
                    #[trigger] old(self).page_content@[i],
                ),
            old(self).pending_pages_buf@.len() == old(self).pending_pages * old(self).block_size,
            old(storage).inv(),
            old(storage).size() == old(self).block_size,
            old(storage).has_file(old(self).file_id.0),
            run_rows(old(self).all_pages(old(storage))) == Some(old(self).flushed_content@),
        ensures
            final(storage).inv(),
            r is Ok ==> final(self).all_pages(final(storage)) == old(self).all_pages(old(storage)),
            r is Ok ==> queued(
                old(storage),
                final(storage),
                old(self).file(),
                old(self).pending_pages as nat,
            ),
            r is Err ==> final(storage).frontier() == old(storage).frontier()
                && final(storage).pending() == old(storage).pending(),
            grew(old(storage), final(storage), old(self).pending_pages as nat),
            r is Ok ==> final(self).sound(final(storage)) && final(self).rows() == old(self).rows()
                && final(self).page_buf == old(self).page_buf && final(self).row_count == old(
                self,
            ).row_count && final(self).pending_pages == 0,
            old(self).room(old(storage)) ==> r is Ok,
            r matches Err(e) ==> e is PageCountOverflow || e is AnonRegionUnknown || e
                is BlockIdOverflow,
            final(self).file() == old(self).file(),
            final(self).batch() == old(self).batch(),
            final(self).block_size == old(self).block_size,
            final(self).encode_buf == old(self).encode_buf,
            old(storage).same_but(final(storage), old(self).file()),
            final(storage).names_given() == old(storage).names_given(),
            old(storage).frontier() is Some ==> final(storage).frontier() is Some,
    {
        match storage.append_pages(
            self.file_id,
            self.pending_pages,
            self.pending_pages_buf.as_slice(),
        ) {
            Ok(_) => {},
            Err(e) => {
                return Err(e);
            },
        }
        let ghost f = self.file_id.0;
        proof {
            let e = storage.extents(f);
            assert(e.drop_last() =~= old(storage).extents(f));
            assert(storage.pages(f) =~= old(storage).pages(f) + pages_in(
                self.pending_pages_buf@,
                self.block_size as int,
                self.pending_pages as nat,
            ));
        }
        self.pending_pages_buf.clear();
        self.pending_pages = 0;
        proof {
            let none = pages_in(self.pending_pages_buf@, self.block_size as int, 0);
            assert(storage.pages(f) + none =~= storage.pages(f));
            assert(0 * self.block_size == 0) by (nonlinear_arith);
        }
        Ok(())
    }

    /// Writes what is still gathered and gives the file. An empty run gets one page.
    pub fn finish(self, storage: &mut TempStorageManager) -> (r: Result<TempFileId, DbError>)
        requires
            self.inv(old(storage)),
        ensures
            final(storage).inv(),
            r matches Ok(id) ==> id.0 == self.file() && final(storage).has_file(id.0) && run_of(
                final(storage),
                id.0,
            ) == Some(self.rows()),
            r matches Ok(id) ==> final(storage).pages(id.0).len() > 0,
            r matches Ok(id) ==> self.rows().len() > 0 ==> none_is_empty(
                final(storage).pages(id.0),
            ),
            r matches Ok(id) ==> self.rows().len() == 0 ==> final(storage).pages(id.0).len() == 1
                && row_count_of(final(storage).pages(id.0)[0]) == 0,
            r matches Ok(id) ==> all_full(
                final(storage).extents(id.0).drop_last(),
                self.batch() as nat,
            ) && 0 < final(storage).extents(id.0).last().num_blocks <= self.batch(),
            r matches Ok(id) ==> *final(storage) == *old(storage) || queued(
                old(storage),
                final(storage),
                id.0,
                final(storage).extents(id.0).last().num_blocks as nat,
            ),
            r is Err ==> final(storage).frontier() == old(storage).frontier(),
            r matches Err(e) ==> self.batch() <= MAX_BATCH_PAGES ==> out_of_room(e, final(storage)),
            grew(old(storage), final(storage), self.batch() as nat),
            self.room(old(storage)) ==> r is Ok,
            r matches Err(e) ==> e is PageCountOverflow || e is AnonRegionUnknown || e
                is BlockIdOverflow,
            old(storage).same_but(final(storage), self.file()),
            final(storage).names_given() == old(storage).names_given(),
            old(storage).frontier() is Some ==> final(storage).frontier() is Some,
    {
        let mut w = self;
        proof {
            if storage.roomy(MAX_BATCH_PAGES as nat) && self.batch() <= MAX_BATCH_PAGES {
                self.room_enough(storage);
            }
            lemma_pages_hold_rows(self.all_pages(storage));
        }
        let mut flush = w.row_count > 0;
        if w.row_count == 0 && w.pending_pages == 0 {
            match storage.num_pages(w.file_id) {
                Ok(n) => {
                    flush = n == 0;
                },
                Err(e) => {
                    return Err(e);
                },
            }
        }
        let ghost first = *storage;
        if flush {
            let ghost was = w;
            match w.flush_current_page(storage) {
                Ok(_) => {
                    proof {
                        if was.row_count > 0 {
                            lemma_none_empty_push(was.all_pages(&first), w.all_pages(storage));
                        }
                    }
                },
                Err(e) => {
                    return Err(e);
                },
            }
        }
        let ghost mid = *storage;
        let ghost mid_pages = w.all_pages(storage);
        assert(self.rows().len() > 0 ==> none_is_empty(mid_pages)) by {
            if !flush {
                assert(self.row_count == 0);
            } else if self.row_count == 0 {
                assert(self.all_pages(&first) =~= Seq::<Seq<u8>>::empty());
            }
        }
        if w.pending_pages > 0 {
            match w.write_pending(storage) {
                Ok(_) => {},
                Err(e) => {
                    proof {
                        assert forall|g: u64| g != self.file() implies #[trigger] old(
                            storage,
                        ).same_file(storage, g) by {
                            assert(old(storage).same_file(&mid, g));
                            assert(mid.same_file(storage, g));
                        }
                    }
                    return Err(e);
                },
            }
        }
        proof {
            let none = pages_in(w.pending_pages_buf@, w.block_size as int, 0);
            assert(storage.pages(w.file_id.0) + none =~= storage.pages(w.file_id.0));
            assert(w.page_content@ =~= Seq::<Seq<Value>>::empty());
            assert(w.rows() =~= w.flushed_content@);
            assert(w.all_pages(storage) =~= storage.pages(w.file_id.0));
            let e = storage.extents(w.file_id.0);
            assert(e.len() > 0);
            assert forall|i: int| 0 <= i < e.drop_last().len() implies (#[trigger] e.drop_last()[i]).num_blocks
                == self.batch() by {
                assert(e[i] == e.drop_last()[i]);
            }
            lemma_parse_count(storage.pages(w.file_id.0)[0], 0, row_count_of(storage.pages(w.file_id.0)[0]));
            assert forall|g: u64| g != self.file() implies #[trigger] old(storage).same_file(
                storage,
                g,
            ) by {
                assert(old(storage).same_file(&mid, g));
                assert(mid.same_file(storage, g));
            }
        }
        Ok(w.file_id)
    }
}

/// What reading a run comes to.
#[derive(Debug)]
pub enum ReadStep {
    /// The next row.
    Row(Row),
    /// The run is exhausted.
    End,
    /// These blocks, one after the other, are to be read and supplied.
    Need(Vec<BlockRange>),
}

/// The blocks of a range.
pub open spec fn blocks_in(r: BlockRange) -> Seq<int> {
    Seq::new(r.num_blocks as nat, |i: int| r.start_block + i)
}

/// The blocks of some ranges, one after the other.
pub open spec fn blocks_of(ranges: Seq<BlockRange>) -> Seq<int>
    decreases ranges.len(),
{
    if ranges.len() == 0 {
        Seq::empty()
    } else {
        blocks_of(ranges.drop_last()) + blocks_in(ranges.last())
    }
}

/// Whether `data` is what a disk holds in some blocks.
pub open spec fn is_content(
    disk: spec_fn(int) -> Seq<u8>,
    blocks: Seq<int>,
    data: Seq<u8>,
    size: int,
) -> bool {
    &&& data.len() == blocks.len() * size
    &&& forall|j: int| 0 <= j < blocks.len() ==> #[trigger] chunk(data, size, j) == disk(blocks[j])
}

/// Whether no two neighbouring ranges could be one.
pub open spec fn coalesced(ranges: Seq<BlockRange>) -> bool {
    forall|i: int, j: int|
        0 <= i && j == i + 1 && j < ranges.len() ==> (#[trigger] ranges[i]).end() != (
        #[trigger] ranges[j]).start_block
}

/// Whether a reader gave the next row of its run.
pub open spec fn gave_row(before: &TempRunReader, row: Seq<Value>, after: &TempRunReader) -> bool {
    &&& before.remaining().len() > 0
    &&& row == before.remaining()[0]
    &&& after.readable()
    &&& after.remaining() == before.remaining().drop_first()
}

/// Whether a reader had come to the end of its run.
pub open spec fn was_at_end(before: &TempRunReader, after: &TempRunReader) -> bool {
    &&& before.remaining().len() == 0
    &&& after.readable()
    &&& after.remaining() == before.remaining()
}

/// A run is read back as it was written: a reader that is opened on a file which a writer has
/// finished gives the rows that were appended, in their order, and then no more. The readers are
/// the states of one reader before each row that it gave, and after the last one.
pub proof fn run_is_read_back(
    storage: &TempStorageManager,
    f: u64,
    appended: Seq<Seq<Value>>,
    readers: Seq<TempRunReader>,
    given: Seq<Seq<Value>>,
)
    requires
        run_of(storage, f) == Some(appended),
        readers.len() == given.len() + 1,
        Some(readers[0].remaining()) == run_of(storage, f),
        forall|k: int|
            0 <= k < given.len() ==> gave_row(
                &#[trigger] readers[k],
                given[k],
                &readers[k + 1],
            ),
    ensures
        given.len() <= appended.len(),
        given == appended.take(given.len() as int),
        was_at_end(&readers.last(), &readers.last()) ==> given == appended,
        given.len() < appended.len() ==> readers.last().remaining()[0] == appended[given.len() as int],
    decreases given.len(),
{
    lemma_read_so_far(appended, readers, given, given.len() as int);
    assert(given =~= appended.take(given.len() as int));
    if was_at_end(&readers.last(), &readers.last()) {
        assert(given =~= appended);
    }
}

proof fn lemma_read_so_far(
    appended: Seq<Seq<Value>>,
    readers: Seq<TempRunReader>,
    given: Seq<Seq<Value>>,
    n: int,
)
    requires
        0 <= n <= given.len(),
        readers.len() == given.len() + 1,
        readers[0].remaining() == appended,
        forall|k: int|
            0 <= k < given.len() ==> gave_row(
                &#[trigger] readers[k],
                given[k],
                &readers[k + 1],
            ),
    ensures
        n <= appended.len(),
        readers[n].remaining() == appended.skip(n),
        forall|k: int| 0 <= k < n ==> given[k] == #[trigger] appended[k],
    decreases n,
{
    if n == 0 {
        assert(appended.skip(0) =~= appended);
    } else {
        lemma_read_so_far(appended, readers, given, n - 1);
        assert(gave_row(&readers[n - 1], given[n - 1], &readers[n - 1 + 1]));
        assert(appended.skip(n - 1).drop_first() =~= appended.skip(n));
    }
}

/// Reads the rows of a run, a batch of pages at a time.
pub struct TempRunReader {
    block_size: usize,
    file_id: TempFileId,
    num_pages: u64,
    io_batch_pages: usize,
    current_page_index: u64,
    page_buf: Vec<u8>,
    batch_buf: Vec<u8>,
    batch_pages: usize,
    next_page_in_batch: usize,
    page_offset: usize,
    rows_remaining_in_page: usize,
    pages: Ghost<Seq<Seq<u8>>>,
    faithful: Ghost<bool>,
}

impl TempRunReader {
    pub closed spec fn file(&self) -> u64 {
        self.file_id.0
    }

    pub closed spec fn size(&self) -> nat {
        self.block_size as nat
    }

    /// What the file held when reading began.
    pub closed spec fn file_pages(&self) -> Seq<Seq<u8>> {
        self.pages@
    }

    /// Whether all data that was supplied is what the file held.
    pub closed spec fn faithful(&self) -> bool {
        self.faithful@
    }

    /// Whether the rest of the run can be read.
    pub closed spec fn readable(&self) -> bool {
        &&& self.faithful@
        &&& parse_rows(
            self.page_buf@,
            self.page_offset as int,
            self.rows_remaining_in_page as nat,
        ) is Some
        &&& run_rows(self.pages@.skip(self.current_page_index as int)) is Some
    }

    /// The rows that are still to come.
    pub closed spec fn remaining(&self) -> Seq<Seq<Value>> {
        parse_rows(
            self.page_buf@,
            self.page_offset as int,
            self.rows_remaining_in_page as nat,
        )->0 + run_rows(self.pages@.skip(self.current_page_index as int))->0
    }

    /// The page that is read next.
    pub closed spec fn next_page(&self) -> int {
        self.current_page_index as int
    }

    /// How many pages are asked for next.
    pub closed spec fn want(&self) -> int {
        if self.io_batch_pages <= self.num_pages - self.current_page_index {
            self.io_batch_pages as int
        } else {
            self.num_pages - self.current_page_index
        }
    }

    /// How much is left to do: the pages to be asked for, and the rows that pages may hold.
    pub closed spec fn left_to_do(&self) -> nat {
        let pages = self.num_pages - self.current_page_index;
        let asked = self.batch_pages - self.next_page_in_batch;
        ((pages - asked) + 0x1_0000 * pages + self.rows_remaining_in_page) as nat
    }

    /// Whether data was asked for and is still to be supplied.
    pub closed spec fn waiting(&self) -> bool {
        &&& self.next_page_in_batch >= self.batch_pages
        &&& self.rows_remaining_in_page == 0
        &&& self.current_page_index < self.num_pages
    }

    /// Whether `data` is what the file held in the pages that are asked for.
    pub closed spec fn expects(&self, data: Seq<u8>) -> bool {
        &&& data.len() == self.want() * self.block_size
        &&& forall|j: int|
            0 <= j < self.want() ==> #[trigger] chunk(data, self.block_size as int, j)
                == self.pages@[self.current_page_index + j]
    }

    /// Whether the storage still holds the file as it was when reading began.
    pub open spec fn source_intact(&self, storage: &TempStorageManager) -> bool {
        storage.has_file(self.file()) && storage.pages(self.file()) == self.file_pages()
    }

    pub closed spec fn inv(&self) -> bool {
        &&& 64 <= self.block_size
        &&& self.io_batch_pages > 0
        &&& self.io_batch_pages * self.block_size <= usize::MAX
        &&& self.pages@.len() == self.num_pages
        &&& self.current_page_index <= self.num_pages
        &&& self.rows_remaining_in_page > 0 ==> self.page_buf@.len() == self.block_size
            && self.page_offset <= self.block_size - 2
        &&& self.rows_remaining_in_page < 0x1_0000
        &&& self.batch_pages <= self.io_batch_pages
        &&& self.batch_buf@.len() == self.batch_pages * self.block_size
        &&& self.next_page_in_batch <= self.batch_pages
        &&& self.batch_pages - self.next_page_in_batch <= self.num_pages
            - self.current_page_index
        &&& self.faithful@ ==> forall|j: int|
            self.next_page_in_batch <= j < self.batch_pages ==> #[trigger] chunk(
                self.batch_buf@,
                self.block_size as int,
                j,
            ) == self.pages@[self.current_page_index + (j - self.next_page_in_batch)]
    }

    pub fn new(storage: &TempStorageManager, file_id: TempFileId) -> (r: Result<
        TempRunReader,
        DbError,
    >)
        requires
            storage.inv(),
        ensures
            r is Ok <==> storage.has_file(file_id.0) && storage.size()
                * DEFAULT_TEMP_IO_BATCH_PAGES <= usize::MAX,
            r matches Ok(reader) ==> {
                &&& reader.inv()
                &&& reader.file() == file_id.0
                &&& reader.size() == storage.size()
                &&& reader.file_pages() == storage.pages(file_id.0)
                &&& reader.faithful()
                &&& reader.readable() <==> run_of(storage, file_id.0) is Some
                &&& run_of(storage, file_id.0) is Some ==> Some(reader.remaining()) == run_of(
                    storage,
                    file_id.0,
                )
            },
            r matches Err(e) ==> e == (if storage.size() * DEFAULT_TEMP_IO_BATCH_PAGES
                > usize::MAX {
                DbError::BatchCapacityOverflow
            } else {
                DbError::UnknownTempFile(file_id.0)
            }),
    {
        Self::with_batch_pages(storage, file_id, DEFAULT_TEMP_IO_BATCH_PAGES)
    }

    /// Makes a reader that asks for so many pages at a time.
    pub fn with_batch_pages(
        storage: &TempStorageManager,
        file_id: TempFileId,
        io_batch_pages: usize,
    ) -> (r: Result<TempRunReader, DbError>)
        requires
            storage.inv(),
        ensures
            r is Ok <==> io_batch_pages > 0 && storage.has_file(file_id.0) && storage.size()
                * io_batch_pages <= usize::MAX,
            r matches Ok(reader) ==> {
                &&& reader.inv()
                &&& reader.file() == file_id.0
                &&& reader.size() == storage.size()
                &&& reader.file_pages() == storage.pages(file_id.0)
                &&& reader.faithful()
                &&& reader.readable() <==> run_of(storage, file_id.0) is Some
                &&& run_of(storage, file_id.0) is Some ==> Some(reader.remaining()) == run_of(
                    storage,
                    file_id.0,
                )
            },
            r matches Err(e) ==> e == (if io_batch_pages == 0 {
                DbError::ZeroBatch
            } else if storage.size() * io_batch_pages > usize::MAX {
                DbError::BatchCapacityOverflow
            } else {
                DbError::UnknownTempFile(file_id.0)
            }),
            r matches Err(e) ==> 0 < io_batch_pages <= MAX_BATCH_PAGES && storage.has_file(
                file_id.0,
            ) ==> out_of_room(e, storage),
    {
        proof {
            if storage.roomy(MAX_BATCH_PAGES as nat) && io_batch_pages <= MAX_BATCH_PAGES {
                storage.roomy_for_fewer(MAX_BATCH_PAGES as nat, io_batch_pages as nat);
            }
        }
        if io_batch_pages == 0 {
            return Err(DbError::ZeroBatch);
        }
        let block_size: usize = storage.block_size();
        let capacity: usize = match block_size.checked_mul(io_batch_pages) {
            Some(n) => n,
            None => {
                return Err(DbError::BatchCapacityOverflow);
            },
        };
        let num_pages: u64 = match storage.num_pages(file_id) {
            Ok(n) => n,
            Err(e) => {
                return Err(e);
            },
        };
        let reader = TempRunReader {
            block_size,
            file_id,
            num_pages,
            io_batch_pages,
            current_page_index: 0,
            page_buf: Vec::new(),
            batch_buf: Vec::new(),
            batch_pages: 0,
            next_page_in_batch: 0,
            page_offset: 0,
            rows_remaining_in_page: 0,
            pages: Ghost(storage.pages(file_id.0)),
            faithful: Ghost(true),
        };
        proof {
            assert(io_batch_pages * block_size == block_size * io_batch_pages)
                by (nonlinear_arith);
            assert(0 * block_size == 0) by (nonlinear_arith);
            assert(reader.pages@.skip(0) =~= reader.pages@);
            if let Some(rows) = run_of(storage, file_id.0) {
                assert(Seq::<Seq<Value>>::empty() + rows =~= rows);
            }
        }
        Ok(reader)
    }

    /// Gives the next row, or tells which blocks it lies in.
    pub fn next_row(&mut self, storage: &TempStorageManager) -> (r: Result<ReadStep, DbError>)
        requires
            old(self).inv(),
            storage.inv(),
            storage.size() == old(self).size(),
        ensures
            final(self).inv(),
            final(self).file() == old(self).file(),
            final(self).size() == old(self).size(),
            final(self).file_pages() == old(self).file_pages(),
            final(self).faithful() == old(self).faithful(),
            r matches Ok(step) ==> final(self).left_to_do() <= old(self).left_to_do(),
            r matches Ok(ReadStep::Row(_)) ==> final(self).left_to_do() < old(self).left_to_do(),
            r matches Ok(step) ==> match step {
                ReadStep::Row(row) => {
                    &&& fits_page(row@, old(self).size())
                    &&& old(self).readable() ==> gave_row(old(self), row@, final(self))
                },
                ReadStep::End => old(self).readable() ==> was_at_end(old(self), final(self)),
                ReadStep::Need(ranges) => {
                    &&& final(self).waiting()
                    &&& final(self).want() > 0
                    &&& coalesced(ranges@)
                    &&& blocks_of(ranges@) == Seq::new(
                        final(self).want() as nat,
                        |j: int|
                            block_at(
                                storage.extents(old(self).file()),
                                final(self).next_page() + j,
                            ),
                    )
                    &&& old(self).readable() ==> final(self).readable()
                        && final(self).remaining() == old(self).remaining()
                    &&& old(self).source_intact(storage) ==> forall|data: Seq<u8>|
                        is_content(
                            storage.disk(),
                            blocks_of(ranges@),
                            data,
                            storage.size() as int,
                        ) ==> #[trigger] final(self).expects(data)
                },
            },
            old(self).readable() && old(self).source_intact(storage) ==> r is Ok,
    {
        while self.rows_remaining_in_page == 0
            invariant
                self.inv(),
                storage.inv(),
                storage.size() == self.size(),
                self.file() == old(self).file(),
                self.size() == old(self).size(),
                self.file_pages() == old(self).file_pages(),
                self.faithful() == old(self).faithful(),
                self.left_to_do() <= old(self).left_to_do(),
                old(self).readable() ==> self.readable() && self.remaining() == old(
                    self,
                ).remaining(),
            decreases self.num_pages - self.current_page_index,
        {
            if self.current_page_index >= self.num_pages {
                proof {
                    assert(self.pages@.skip(self.current_page_index as int) =~= Seq::<
                        Seq<u8>,
                    >::empty());
                }
                return Ok(ReadStep::End);
            }
            if self.next_page_in_batch >= self.batch_pages {
                let ranges = match self.plan_batch(storage) {
                    Ok(v) => v,
                    Err(e) => {
                        return Err(e);
                    },
                };
                return Ok(ReadStep::Need(ranges));
            }
            self.load_next_page();
        }
        let ghost first = parse_record(self.page_buf@, self.page_offset as int);
        proof {
            crate::codec::parsed_row_fits(self.page_buf@, self.page_offset as int);
        }
        match decode_row_from_page(self.page_buf.as_slice(), &mut self.page_offset) {
            Ok(row) => {
                self.rows_remaining_in_page = self.rows_remaining_in_page - 1;
                proof {
                    if old(self).readable() {
                        let rest = parse_rows(
                            self.page_buf@,
                            self.page_offset as int,
                            self.rows_remaining_in_page as nat,
                        )->0;
                        assert(old(self).remaining() =~= seq![row@] + self.remaining());
                        assert(self.remaining() =~= old(self).remaining().drop_first());
                    }
                }
                Ok(ReadStep::Row(row))
            },
            Err(e) => Err(e),
        }
    }

    /// Makes the next page of the batch the current one.
    fn load_next_page(&mut self)
        requires
            old(self).inv(),
            old(self).rows_remaining_in_page == 0,
            old(self).current_page_index < old(self).num_pages,
            old(self).next_page_in_batch < old(self).batch_pages,
        ensures
            final(self).inv(),
            final(self).current_page_index == old(self).current_page_index + 1,
            final(self).left_to_do() < old(self).left_to_do(),
            final(self).num_pages == old(self).num_pages,
            final(self).file() == old(self).file(),
            final(self).size() == old(self).size(),
            final(self).file_pages() == old(self).file_pages(),
            final(self).faithful() == old(self).faithful(),
            old(self).readable() ==> final(self).readable() && final(self).remaining() == old(
                self,
            ).remaining(),
    {
        let size: usize = self.block_size;
        let at: usize = self.next_page_in_batch;
        proof {
            assert(at * size + size <= self.batch_pages * size) by (nonlinear_arith)
                requires
                    at < self.batch_pages,
            ;
            assert(at * size <= at * size + size);
            assert(self.batch_pages * size <= self.io_batch_pages * size) by (nonlinear_arith)
                requires
                    self.batch_pages <= self.io_batch_pages,
            ;
        }
        let start: usize = at * size;
        let end: usize = start + size;
        let piece = vstd::slice::slice_subrange(self.batch_buf.as_slice(), start, end);
        self.page_buf = vstd::slice::slice_to_vec(piece);
        let ghost page = self.page_buf@;
        assert(page =~= chunk(self.batch_buf@, size as int, at as int));
        proof {
            crate::codec::lemma_pow256_values();
        }
        let count: u64 = read_le(self.page_buf.as_slice(), size - 2, 2);
        let ghost index = self.current_page_index as int;
        self.current_page_index = self.current_page_index + 1;
        self.next_page_in_batch = at + 1;
        self.rows_remaining_in_page = count as usize;
        self.page_offset = 0;
        proof {
            if old(self).readable() {
                let rest = self.pages@.skip(index);
                assert(rest[0] == page);
                assert(rest.drop_first() =~= self.pages@.skip(index + 1));
                assert(page_rows(page) is Some);
                assert(Seq::<Seq<Value>>::empty() + run_rows(rest)->0 =~= run_rows(rest)->0);
                assert(self.remaining() =~= old(self).remaining());
            }
            assert forall|j: int|
                self.faithful@ && self.next_page_in_batch <= j
                    < self.batch_pages implies #[trigger] chunk(
                self.batch_buf@,
                self.block_size as int,
                j,
            ) == self.pages@[self.current_page_index + (j - self.next_page_in_batch)] by {
                assert(chunk(old(self).batch_buf@, size as int, j) == old(self).pages@[index + (j
                    - old(self).next_page_in_batch)]);
            }
        }
    }

    /// The blocks of the next batch of pages, neighbouring extents joined into one range.
    fn plan_batch(&self, storage: &TempStorageManager) -> (r: Result<Vec<BlockRange>, DbError>)
        requires
            self.inv(),
            self.current_page_index < self.num_pages,
            storage.inv(),
            storage.size() == self.size(),
        ensures
            r matches Ok(ranges) ==> coalesced(ranges@) && (self.source_intact(storage) ==> forall|
                data: Seq<u8>,
            |
                is_content(
                    storage.disk(),
                    blocks_of(ranges@),
                    data,
                    storage.size() as int,
                ) ==> #[trigger] self.expects(data)) && blocks_of(ranges@) == Seq::new(
                self.want() as nat,
                |j: int| block_at(storage.extents(self.file()), self.current_page_index + j),
            ),
            self.source_intact(storage) ==> r is Ok,
    {
        let left: u64 = self.num_pages - self.current_page_index;
        let max_pages: u64 = if (self.io_batch_pages as u64) <= left {
            self.io_batch_pages as u64
        } else {
            left
        };
        let ghost extents = storage.extents(self.file());
        let ghost from = self.current_page_index as int;
        let mut ranges: Vec<BlockRange> = Vec::new();
        let mut seg = BlockRange { start_block: 0, num_blocks: 0 };
        let mut queued: u64 = 0;
        assert(blocks_of(ranges@) + blocks_in(seg) =~= Seq::<int>::empty());
        while queued < max_pages
            invariant
                self.inv(),
                storage.inv(),
                storage.size() == self.size(),
                extents == storage.extents(self.file()),
                from == self.current_page_index,
                max_pages <= self.num_pages - self.current_page_index,
                queued <= max_pages,
                queued == 0 ==> ranges@.len() == 0 && seg.num_blocks == 0,
                queued > 0 ==> seg.num_blocks > 0,
                seg.start_block + seg.num_blocks <= u64::MAX,
                seg.num_blocks <= queued,
                coalesced(ranges@),
                ranges@.len() > 0 ==> ranges@.last().end() != seg.start_block,
                blocks_of(ranges@) + blocks_in(seg) == Seq::new(
                    queued as nat,
                    |j: int| block_at(extents, from + j),
                ),
            decreases max_pages - queued,
        {
            let page: u64 = self.current_page_index + queued;
            let (block, run) = match storage.locate(self.file_id, page) {
                Ok(p) => p,
                Err(e) => {
                    return Err(e);
                },
            };
            let take: u64 = if run <= max_pages - queued {
                run
            } else {
                max_pages - queued
            };
            let ghost before = Seq::new(queued as nat, |j: int| block_at(extents, from + j));
            let ghost added = Seq::new(take as nat, |i: int| block + i);
            let ghost after = Seq::new(
                (queued + take) as nat,
                |j: int| block_at(extents, from + j),
            );
            proof {
                assert forall|j: int| queued <= j < queued + take implies #[trigger] after[j]
                    == block + (j - queued) by {
                    crate::temp_storage::lemma_run(extents, page as int, j - queued);
                }
                assert(before + added =~= after);
            }
            if queued > 0 && block == seg.start_block + seg.num_blocks {
                proof {
                    let old_seg = seg;
                    let new_seg = BlockRange {
                        start_block: seg.start_block,
                        num_blocks: (seg.num_blocks + take) as u64,
                    };
                    assert(blocks_in(new_seg) =~= blocks_in(old_seg) + added);
                    assert(blocks_of(ranges@) + blocks_in(new_seg) =~= (blocks_of(ranges@)
                        + blocks_in(old_seg)) + added);
                }
                seg.num_blocks = seg.num_blocks + take;
            } else {
                if queued > 0 {
                    let ghost so_far = ranges@;
                    ranges.push(seg);
                    proof {
                        assert(ranges@.drop_last() =~= so_far);
                        assert forall|i: int, j: int|
                            0 <= i && j == i + 1 && j < ranges@.len() implies (
                        #[trigger] ranges@[i]).end() != (#[trigger] ranges@[j]).start_block by {
                            if j == so_far.len() {
                                assert(ranges@[i] == so_far.last());
                            }
                        }
                    }
                }
                seg = BlockRange { start_block: block, num_blocks: take };
                proof {
                    assert(blocks_in(seg) =~= added);
                    assert(blocks_of(ranges@) =~= before);
                }
            }
            queued = queued + take;
        }
        let ghost so_far = ranges@;
        ranges.push(seg);
        proof {
            assert(ranges@.drop_last() =~= so_far);
            assert forall|i: int, j: int|
                0 <= i && j == i + 1 && j < ranges@.len() implies (#[trigger] ranges@[i]).end() != (
            #[trigger] ranges@[j]).start_block by {
                if j == so_far.len() {
                    assert(ranges@[i] == so_far.last());
                }
            }
            let blocks = blocks_of(ranges@);
            assert(blocks =~= Seq::new(
                self.want() as nat,
                |j: int| block_at(extents, self.current_page_index + j),
            ));
            if self.source_intact(storage) {
                assert forall|data: Seq<u8>|
                    is_content(
                        storage.disk(),
                        blocks,
                        data,
                        storage.size() as int,
                    ) implies #[trigger] self.expects(data) by {
                    assert forall|j: int| 0 <= j < self.want() implies #[trigger] chunk(
                        data,
                        self.block_size as int,
                        j,
                    ) == self.pages@[self.current_page_index + j] by {
                        assert(blocks[j] == block_at(extents, from + j));
                        assert(storage.pages(self.file())[from + j] == storage.page(
                            self.file(),
                            from + j,
                        ));
                    }
                }
            }
        }
        Ok(ranges)
    }

    /// Takes the data that was asked for.
    pub fn supply(&mut self, data: Vec<u8>) -> (r: Result<(), DbError>)
        requires
            old(self).inv(),
            old(self).waiting(),
        ensures
            final(self).inv(),
            final(self).file() == old(self).file(),
            final(self).size() == old(self).size(),
            final(self).file_pages() == old(self).file_pages(),
            r is Ok <==> data@.len() == old(self).want() * old(self).size(),
            old(self).expects(data@) ==> r is Ok,
            r is Ok ==> final(self).left_to_do() < old(self).left_to_do(),
            r is Ok ==> final(self).faithful() == (old(self).faithful() && old(self).expects(
                data@,
            )),
            r is Ok && old(self).expects(data@) && old(self).readable() ==> final(self).readable()
                && final(self).remaining() == old(self).remaining(),
            r matches Err(e) ==> e == (DbError::BufferLengthMismatch {
                len: data@.len() as usize,
                num_pages: old(self).want() as u64,
                block_size: old(self).size() as usize,
            }) && *final(self) == *old(self),
    {
        let left: u64 = self.num_pages - self.current_page_index;
        let count: usize = if (self.io_batch_pages as u64) <= left {
            self.io_batch_pages
        } else {
            left as usize
        };
        proof {
            assert(count * self.block_size <= self.io_batch_pages * self.block_size)
                by (nonlinear_arith)
                requires
                    count <= self.io_batch_pages,
            ;
        }
        if data.len() != count * self.block_size {
            return Err(
                DbError::BufferLengthMismatch {
                    len: data.len(),
                    num_pages: count as u64,
                    block_size: self.block_size,
                },
            );
        }
        let ghost good = self.expects(data@);
        self.batch_buf = data;
        self.batch_pages = count;
        self.next_page_in_batch = 0;
        proof {
            self.faithful@ = self.faithful@ && good;
        }
        Ok(())
    }
}

} // verus!

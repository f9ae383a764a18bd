//! Reading build files into a bitmap of their keys.

use vstd::prelude::*;
use crate::adaptive_plan::choose_reader_batch;
use crate::bloom::{ExactIntBitmap, int_key};
use crate::error::DbError;
use crate::join_table::JoinParams;
use crate::part_files::FinishedParts;
use crate::partition_join::{lemma_all_len_drop, reader_good, reader_ok};
use crate::probe_filter::{add_row_to_bitmap, bitmap_holds, bitmap_spans};
use crate::row::pick;
use crate::progress::{nearer, nearer_at, not_farther, not_farther_if};
use crate::temp_run::{ReadStep, TempRunReader, blocks_of, is_content};
use crate::temp_storage::{BlockRange, TempStorageManager, out_of_room, unharmed, untouched_file};
use crate::value::Value;

verus! {

/// What a step of reading the build files comes to.
pub enum ScanNext {
    Need(Vec<BlockRange>),
    Again,
    Ready,
}

/// A bitmap that is filled from build files, one partition after the other.
pub struct BitmapScan {
    bitmap: ExactIntBitmap,
    part: usize,
    reader: Option<TempRunReader>,
}

/// Whether a bitmap has room for the keys of all rows in some files.
pub open spec fn spans_files(
    bitmap: &ExactIntBitmap,
    keys: Seq<int>,
    files: &FinishedParts,
    storage: &TempStorageManager,
) -> bool {
    forall|p: int|
        0 <= p < files.count() ==> bitmap_spans(bitmap, keys, #[trigger] files.rows(p, storage))
}

proof fn lemma_holds_more(
    before: &ExactIntBitmap,
    after: &ExactIntBitmap,
    keys: Seq<int>,
    all: Seq<Seq<Value>>,
    done: int,
)
    requires
        0 <= done < all.len(),
        bitmap_spans(before, keys, all),
        bitmap_holds(before, keys, all.take(done)),
        forall|v: int| #[trigger] before.has(v) ==> after.has(v),
        int_key(pick(all[done], keys)) matches Some(v) ==> (before.spans(v) ==> after.has(v)),
    ensures
        bitmap_holds(after, keys, all.take(done + 1)),
{
    let more = all.take(done + 1);
    assert forall|k: int| 0 <= k < more.len() implies (int_key(
        pick(#[trigger] more[k], keys),
    ) matches Some(v) ==> after.has(v)) by {
        if k < done {
            assert(more[k] == all.take(done)[k]);
        } else {
            assert(more[k] == all[done]);
        }
    }
}

proof fn lemma_holds_still(
    before: &ExactIntBitmap,
    after: &ExactIntBitmap,
    keys: Seq<int>,
    rows: Seq<Seq<Value>>,
)
    requires
        bitmap_holds(before, keys, rows),
        forall|v: int| #[trigger] before.has(v) ==> after.has(v),
    ensures
        bitmap_holds(after, keys, rows),
{
}

impl BitmapScan {
    pub closed spec fn map(&self) -> ExactIntBitmap {
        self.bitmap
    }

    pub closed spec fn waiting(&self) -> bool {
        self.reader is Some && self.reader->0.waiting()
    }

    pub closed spec fn expects(&self, data: Seq<u8>) -> bool {
        self.reader is Some && self.reader->0.expects(data)
    }

    /// How much is left to do: the files, whether one is to be opened, and of the open one.
    pub closed spec fn left_to_do(&self, files: &FinishedParts) -> Seq<nat> {
        let more: nat = if self.part < files.count() {
            (files.count() - self.part) as nat
        } else {
            0
        };
        match self.reader {
            Some(r) => seq![more, 0nat, r.left_to_do()],
            None => seq![more, 1nat, 0nat],
        }
    }

    pub proof fn left_is_three(&self, files: &FinishedParts)
        ensures
            self.left_to_do(files).len() == 3,
    {
    }

    /// Whether all files were read.
    pub closed spec fn finished(&self, files: &FinishedParts) -> bool {
        self.part >= files.count() && self.reader is None
    }

    pub closed spec fn ok(&self, files: &FinishedParts, storage: &TempStorageManager) -> bool {
        self.reader matches Some(r) ==> {
            &&& self.part < files.count()
            &&& files.file(self.part as int) == Some(r.file())
            &&& reader_ok(&r, storage)
        }
    }

    /// Whether the bitmap holds the keys of what was read, and the rest can be read.
    pub closed spec fn good(
        &self,
        files: &FinishedParts,
        keys: Seq<int>,
        len: nat,
        storage: &TempStorageManager,
    ) -> bool {
        &&& forall|p: int|
            0 <= p < self.part && p < files.count() ==> bitmap_holds(
                &self.bitmap,
                keys,
                #[trigger] files.rows(p, storage),
            )
        &&& self.reader matches Some(r) ==> {
            let all = files.rows(self.part as int, storage);
            let done = all.len() - r.remaining().len();
            &&& reader_good(&r, len)
            &&& done >= 0
            &&& r.remaining() == all.skip(done)
            &&& bitmap_holds(&self.bitmap, keys, all.take(done))
        }
    }

    /// When all files were read, the bitmap holds the keys of all rows.
    pub proof fn finished_gives(
        &self,
        files: &FinishedParts,
        keys: Seq<int>,
        len: nat,
        storage: &TempStorageManager,
    )
        requires
            self.finished(files),
            self.good(files, keys, len, storage),
        ensures
            forall|p: int|
                0 <= p < files.count() ==> bitmap_holds(
                    &self.map(),
                    keys,
                    #[trigger] files.rows(p, storage),
                ),
    {
    }

    pub proof fn ok_kept(
        &self,
        files: &FinishedParts,
        keys: Seq<int>,
        len: nat,
        before: &TempStorageManager,
        after: &TempStorageManager,
        touched: Set<u64>,
    )
        requires
            self.ok(files, before),
            files.ok(before, len),
            after.inv(),
            unharmed(before, after, touched),
            touched.disjoint(files.file_set()),
        ensures
            self.ok(files, after),
            self.good(files, keys, len, before) ==> self.good(files, keys, len, after),
    {
        files.ok_gives(before, len);
        files.ok_kept(before, after, touched, len);
        if let Some(r) = self.reader {
            assert(files.file(self.part as int) == Some(r.file()));
            untouched_file(before, after, touched, r.file());
            assert(files.rows(self.part as int, after) == files.rows(self.part as int, before));
        }
        if self.good(files, keys, len, before) {
            assert forall|p: int| 0 <= p < self.part && p < files.count() implies bitmap_holds(
                &self.bitmap,
                keys,
                #[trigger] files.rows(p, after),
            ) by {
                assert(files.rows(p, after) == files.rows(p, before));
            }
        }
    }

    pub fn new(bitmap: ExactIntBitmap) -> (r: BitmapScan)
        ensures
            r.map() == bitmap,
            !r.waiting(),
            forall|files: &FinishedParts, storage: &TempStorageManager| #[trigger]
                r.ok(files, storage),
            forall|
                files: &FinishedParts,
                keys: Seq<int>,
                len: nat,
                storage: &TempStorageManager,
            | #[trigger]
                r.good(files, keys, len, storage),
            forall|files: &FinishedParts|
                files.count() > 0 ==> !#[trigger] r.finished(files),
    {
        BitmapScan { bitmap, part: 0, reader: None }
    }

    pub fn contains(&self, value: i64) -> (r: bool)
        ensures
            r == self.map().has(value as int),
    {
        self.bitmap.contains(value)
    }

    /// Goes to the next file, or reads the next row.
    #[verifier::rlimit(60)]
    pub fn step(
        &mut self,
        files: &FinishedParts,
        params: &JoinParams,
        build_is_left: bool,
        sort_run_bytes: usize,
        storage: &TempStorageManager,
    ) -> (r: Result<ScanNext, DbError>)
        requires
            params.inv(),
            storage.inv(),
            old(self).ok(files, storage),
            files.ok(storage, params.build_len(build_is_left)),
            files.count() <= usize::MAX,
            spans_files(&old(self).map(), params.build_at(build_is_left), files, storage),
        ensures
            r is Ok ==> final(self).ok(files, storage),
            forall|v: int| #[trigger] old(self).map().has(v) ==> final(self).map().has(v),
            forall|v: int| #[trigger] final(self).map().spans(v) == old(self).map().spans(v),
            match r {
                Ok(ScanNext::Need(ranges)) => final(self).waiting() && (forall|data: Seq<u8>|
                    is_content(
                        storage.disk(),
                        blocks_of(ranges@),
                        data,
                        storage.size() as int,
                    ) ==> #[trigger] final(self).expects(data)),
                Ok(ScanNext::Again) => !old(self).finished(files),
                Ok(ScanNext::Ready) => old(self).finished(files) && final(self).finished(files),
                Err(e) => old(self).good(
                    files,
                    params.build_at(build_is_left),
                    params.build_len(build_is_left),
                    storage,
                ) ==> out_of_room(e, storage),
            },
            match r {
                Ok(ScanNext::Again) => nearer(
                    final(self).left_to_do(files),
                    old(self).left_to_do(files),
                ),
                Ok(_) => not_farther(final(self).left_to_do(files), old(self).left_to_do(files)),
                Err(_) => true,
            },
            old(self).finished(files) ==> r matches Ok(ScanNext::Ready),
            r is Ok && old(self).good(
                files,
                params.build_at(build_is_left),
                params.build_len(build_is_left),
                storage,
            ) ==> final(self).good(
                files,
                params.build_at(build_is_left),
                params.build_len(build_is_left),
                storage,
            ),
    {
        let ghost keys = params.build_at(build_is_left);
        let ghost len = params.build_len(build_is_left);
        let ghost before = *self;
        let ghost was_good = self.good(files, keys, len, storage);
        let key_indices = params.keys_of(build_is_left);
        proof {
            files.ok_gives(storage, len);
        }
        let mut current: Option<TempRunReader> = None;
        core::mem::swap(&mut self.reader, &mut current);
        match current {
            None => {
                if self.part >= files.len() {
                    return Ok(ScanNext::Ready);
                }
                let ghost all = files.rows(self.part as int, storage);
                match files.get(self.part) {
                    None => {
                        proof {
                            assert(all =~= Seq::<Seq<Value>>::empty());
                        }
                        self.part = self.part + 1;
                        proof {
                            nearer_at(self.left_to_do(files), before.left_to_do(files), 0);
                        }
                    },
                    Some(id) => {
                        let pages: usize = choose_reader_batch(
                            sort_run_bytes,
                            storage.block_size(),
                            1,
                        );
                        assert(files.file(self.part as int) == Some(id.0));
                        match TempRunReader::with_batch_pages(storage, id, pages) {
                            Ok(reader) => {
                                proof {
                                    assert(all.skip(0) =~= all);
                                    assert(all.take(0) =~= Seq::<Seq<Value>>::empty());
                                }
                                self.reader = Some(reader);
                                proof {
                                    nearer_at(self.left_to_do(files), before.left_to_do(files), 1);
                                }
                            },
                            Err(e) => {
                                return Err(e);
                            },
                        }
                    },
                }
                Ok(ScanNext::Again)
            },
            Some(reader) => {
                let mut reader = reader;
                let ghost all = files.rows(self.part as int, storage);
                let ghost rest = reader.remaining();
                let ghost done = all.len() - rest.len();
                assert(files.file(self.part as int) == Some(reader.file()));
                let read = match reader.next_row(storage) {
                    Ok(s) => s,
                    Err(e) => {
                        return Err(e);
                    },
                };
                match read {
                    ReadStep::Need(ranges) => {
                        self.reader = Some(reader);
                        proof {
                            not_farther_if(self.left_to_do(files), before.left_to_do(files));
                        }
                        Ok(ScanNext::Need(ranges))
                    },
                    ReadStep::End => {
                        proof {
                            if was_good {
                                assert(all.take(done) =~= all);
                            }
                        }
                        self.part = self.part + 1;
                        proof {
                            nearer_at(self.left_to_do(files), before.left_to_do(files), 0);
                        }
                        Ok(ScanNext::Again)
                    },
                    ReadStep::Row(row) => {
                        proof {
                            if was_good {
                                lemma_all_len_drop(rest, len);
                                assert(rest[0] == all[done]);
                            }
                        }
                        match params.check_len(build_is_left, &row) {
                            Ok(_) => {},
                            Err(e) => {
                                return Err(e);
                            },
                        }
                        add_row_to_bitmap(&mut self.bitmap, &row, key_indices);
                        self.reader = Some(reader);
                        proof {
                            nearer_at(self.left_to_do(files), before.left_to_do(files), 2);
                            if was_good {
                                assert(bitmap_spans(&before.bitmap, keys, all));
                                lemma_holds_more(
                                    &before.bitmap,
                                    &self.bitmap,
                                    keys,
                                    all,
                                    done,
                                );
                                assert(reader.remaining() =~= all.skip(done + 1));
                                assert forall|p: int|
                                    0 <= p < self.part && p < files.count() implies bitmap_holds(
                                    &self.bitmap,
                                    keys,
                                    #[trigger] files.rows(p, storage),
                                ) by {
                                    lemma_holds_still(
                                        &before.bitmap,
                                        &self.bitmap,
                                        keys,
                                        files.rows(p, storage),
                                    );
                                }
                            }
                        }
                        Ok(ScanNext::Again)
                    },
                }
            },
        }
    }

    /// Takes the data that was asked for.
    pub fn supply(
        &mut self,
        data: Vec<u8>,
        Ghost(files): Ghost<FinishedParts>,
        Ghost(storage): Ghost<TempStorageManager>,
    ) -> (r: Result<(), DbError>)
        requires
            old(self).waiting(),
            old(self).ok(&files, &storage),
        ensures
            r is Ok ==> final(self).ok(&files, &storage),
            final(self).map() == old(self).map(),
            r is Ok && old(self).expects(data@) ==> forall|keys: Seq<int>, len: nat| #[trigger]
                old(self).good(&files, keys, len, &storage) ==> final(self).good(
                    &files,
                    keys,
                    len,
                    &storage,
                ),
            old(self).expects(data@) ==> r is Ok,
            r is Ok ==> nearer(final(self).left_to_do(&files), old(self).left_to_do(&files)),
    {
        let mut current: Option<TempRunReader> = None;
        core::mem::swap(&mut self.reader, &mut current);
        match current {
            Some(reader) => {
                let mut reader = reader;
                let r = reader.supply(data);
                self.reader = Some(reader);
                proof {
                    if r is Ok {
                        nearer_at(self.left_to_do(&files), old(self).left_to_do(&files), 2);
                    }
                }
                r
            },
            None => Ok(()),
        }
    }
}

} // verus!

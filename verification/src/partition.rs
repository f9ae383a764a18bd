//! Rows distributed over temporary files.

use vstd::prelude::*;
use crate::error::DbError;
use crate::row::Row;
use crate::temp_run::{TempRunWriter, cannot_store, fits_page};
use crate::temp_storage::{MAX_BATCH_PAGES, TempStorageManager, grew_by, unharmed, untouched, untouched_more, untouched_twice};
use crate::value::Value;

verus! {

/// One writer for each partition, made when its first row comes.
pub struct PartitionWriters {
    writers: Vec<Option<TempRunWriter>>,
    batch: usize,
}

impl PartitionWriters {
    pub closed spec fn count(&self) -> nat {
        self.writers@.len()
    }

    pub closed spec fn batch(&self) -> usize {
        self.batch
    }

    /// The rows of a partition.
    pub closed spec fn rows(&self, p: int) -> Seq<Seq<Value>> {
        match self.writers@[p] {
            Some(w) => w.rows(),
            None => Seq::empty(),
        }
    }

    /// The file of a partition.
    pub closed spec fn file(&self, p: int) -> Option<u64> {
        match self.writers@[p] {
            Some(w) => Some(w.file()),
            None => None,
        }
    }

    /// The files of all partitions.
    pub closed spec fn files(&self) -> Set<u64> {
        Set::new(|f: u64| exists|p: int| 0 <= p < self.count() && #[trigger] self.file(p) == Some(f))
    }

    /// A partition with a file has rows.
    pub open spec fn files_have_rows(&self) -> bool {
        forall|p: int| 0 <= p < self.count() ==> (#[trigger] self.file(p) is Some <==> self.rows(
            p,
        ).len() > 0)
    }

    pub closed spec fn inv(&self, storage: &TempStorageManager) -> bool {
        &&& storage.inv()
        &&& 0 < self.batch <= MAX_BATCH_PAGES
        &&& forall|p: int|
            0 <= p < self.writers@.len() ==> ((#[trigger] self.writers@[p]) matches Some(w)
                ==> w.inv(storage) && w.batch() == self.batch)
        &&& forall|p: int, q: int|
            0 <= p < q < self.writers@.len() && (#[trigger] self.writers@[p]) is Some && (
            #[trigger] self.writers@[q]) is Some ==> self.writers@[p]->0.file()
                != self.writers@[q]->0.file()
    }

    pub proof fn inv_gives(&self, storage: &TempStorageManager)
        requires
            self.inv(storage),
        ensures
            storage.inv(),
            forall|p: int|
                0 <= p < self.count() && (#[trigger] self.file(p)) is Some ==> storage.has_file(
                    self.file(p)->0,
                ),
            forall|f: u64| #[trigger] self.files().contains(f) ==> storage.has_file(f),
            0 < self.batch() <= MAX_BATCH_PAGES,
            forall|p: int|
                0 <= p < self.count() && (#[trigger] self.file(p)) is Some
                    ==> self.files().contains(self.file(p)->0),
            forall|p: int| 0 <= p < self.count() && self.file(p) is None ==> (#[trigger] self.rows(
                p,
            )).len() == 0,
            forall|p: int, q: int|
                0 <= p < q < self.count() && (#[trigger] self.file(p)) is Some && (
                #[trigger] self.file(q)) is Some ==> self.file(p) != self.file(q),
    {
        assert forall|p: int|
            0 <= p < self.count() && (#[trigger] self.file(p)) is Some implies storage.has_file(
            self.file(p)->0,
        ) by {
            self.writers@[p]->0.inv_gives(storage);
        }
        assert forall|p: int, q: int|
            0 <= p < q < self.count() && (#[trigger] self.file(p)) is Some && (#[trigger] self.file(
                q,
            )) is Some implies self.file(p) != self.file(q) by {
            assert(self.writers@[p] is Some && self.writers@[q] is Some);
        }
    }

    pub proof fn no_files(&self)
        requires
            forall|p: int| 0 <= p < self.count() ==> (#[trigger] self.file(p)) is None,
        ensures
            self.files() == Set::<u64>::empty(),
    {
        assert(self.files() =~= Set::<u64>::empty());
    }

    /// The writers depend on their own files alone.
    pub proof fn inv_kept(
        &self,
        before: &TempStorageManager,
        after: &TempStorageManager,
        touched: Set<u64>,
    )
        requires
            self.inv(before),
            after.inv(),
            unharmed(before, after, touched),
            touched.disjoint(self.files()),
        ensures
            self.inv(after),
    {
        reveal(unharmed);
        self.inv_gives(before);
        assert forall|p: int| 0 <= p < self.writers@.len() implies ((
        #[trigger] self.writers@[p]) matches Some(w) ==> w.inv(after) && w.batch()
            == self.batch) by {
            if let Some(w) = self.writers@[p] {
                assert(self.file(p) == Some(w.file()));
                assert(self.files().contains(w.file()));
                assert(!touched.contains(w.file()));
                assert(before.same_file(after, w.file()));
                w.inv_kept(before, after);
            }
        }
    }

    pub fn new(count: usize, batch: usize) -> (r: PartitionWriters)
        requires
            0 < batch <= MAX_BATCH_PAGES,
        ensures
            r.count() == count,
            r.batch() == batch,
            forall|p: int| 0 <= p < count ==> (#[trigger] r.file(p)) is None && r.rows(p)
                == Seq::<Seq<Value>>::empty(),
            forall|s: &TempStorageManager| s.inv() ==> #[trigger] r.inv(s),
            r.files() == Set::<u64>::empty(),
            r.files_have_rows(),
    {
        let mut writers: Vec<Option<TempRunWriter>> = Vec::new();
        let mut i: usize = 0;
        while i < count
            invariant
                i <= count,
                writers@.len() == i,
                forall|p: int| 0 <= p < i ==> (#[trigger] writers@[p]) is None,
            decreases count - i,
        {
            writers.push(None);
            i = i + 1;
        }
        let r = PartitionWriters { writers, batch };
        assert(r.files() =~= Set::<u64>::empty());
        r
    }

    pub fn len(&self) -> (r: usize)
        ensures
            r == self.count(),
    {
        self.writers.len()
    }

    /// Appends a row to a partition.
    pub fn append(&mut self, part: usize, row: &Row, storage: &mut TempStorageManager) -> (r:
        Result<(), DbError>)
        requires
            old(self).inv(old(storage)),
            part < old(self).count(),
        ensures
            final(storage).inv(),
            untouched(old(storage), final(storage), old(self).files()),
            r is Ok ==> {
                &&& final(self).inv(final(storage))
                &&& final(self).count() == old(self).count()
                &&& final(self).batch() == old(self).batch()
                &&& final(self).rows(part as int) == old(self).rows(part as int).push(row@)
                &&& forall|q: int|
                    0 <= q < old(self).count() && q != part ==> #[trigger] final(self).rows(q)
                        == old(self).rows(q) && final(self).file(q) == old(self).file(q)
                &&& final(self).file(part as int) is Some
                &&& old(self).file(part as int) is Some ==> final(self).file(part as int) == old(
                    self,
                ).file(part as int)
                &&& old(self).file(part as int) is None ==> !old(storage).has_file(
                    final(self).file(part as int)->0,
                )
                &&& forall|f: u64| #[trigger]
                    final(self).files().contains(f) ==> old(self).files().contains(f) || !old(
                        storage,
                    ).has_file(f)
                &&& forall|f: u64| #[trigger]
                    old(self).files().contains(f) ==> final(self).files().contains(f)
                &&& fits_page(row@, old(storage).size())
            },
            r is Ok && old(self).files_have_rows() ==> final(self).files_have_rows(),
            !fits_page(row@, old(storage).size()) ==> r is Err,
            fits_page(row@, old(storage).size()) && old(storage).roomy(old(self).batch() as nat)
                ==> r is Ok,
            r matches Err(e) ==> cannot_store(e, row@, final(storage)),
            r matches Err(e) ==> cannot_store(e, row@, old(storage)),
            grew_by(old(storage), final(storage), MAX_BATCH_PAGES as nat, 1),
    {
        proof {
            reveal(unharmed);
        }
        let ghost before = *storage;
        let mut slot: Option<TempRunWriter> = None;
        core::mem::swap(&mut self.writers[part], &mut slot);
        let ghost others = self.writers@;
        proof {
            old(self).inv_gives(old(storage));
        }
        let mut w = match slot {
            Some(w) => w,
            None => match TempRunWriter::with_batch_pages(storage, self.batch) {
                Ok(w) => w,
                Err(e) => {
                    proof {
                        assert forall|g: u64| #[trigger] before.same_file(storage, g) by {}
                    }
                    return Err(e);
                },
            },
        };
        let ghost mid = *storage;
        let ghost own = Set::<u64>::empty().insert(w.file());
        let ghost fresh = old(self).file(part as int) is None;
        proof {
            if fresh {
                assert(!before.has_file(w.file()));
            } else {
                assert(old(self).files().contains(w.file()));
            }
            assert(untouched(&before, &mid, own)) by {
                assert forall|g: u64| before.has_file(g) && !own.contains(g) implies #[trigger] before.same_file(&mid, g) by {}
            }
        }
        proof {
            if before.roomy(self.batch as nat) {
                if fresh {
                    assert(w.room(storage));
                } else {
                    assert(before.has_file(w.file()));
                    before.pages_below_frontier(w.file());
                }
            }
        }
        let r = w.append_row(row, storage);
        proof {
            assert(untouched(&mid, storage, own)) by {
                assert forall|g: u64| mid.has_file(g) && !own.contains(g) implies #[trigger] mid.same_file(storage, g) by {}
            }
            untouched_twice(&before, &mid, storage, own, own);
            untouched_more(&before, storage, own, old(self).files());
        }
        match r {
            Ok(_) => {},
            Err(e) => {
                return Err(e);
            },
        }
        let ghost wv = w;
        let mut full = Some(w);
        core::mem::swap(&mut self.writers[part], &mut full);
        proof {
            assert(self.writers@ =~= others.update(part as int, Some(wv)));
            assert forall|p: int| 0 <= p < self.writers@.len() implies ((
            #[trigger] self.writers@[p]) matches Some(x) ==> x.inv(storage) && x.batch()
                == self.batch) by {
                if p != part {
                    if let Some(x) = self.writers@[p] {
                        assert(old(self).writers@[p] == Some(x));
                        assert(old(self).file(p) == Some(x.file()));
                        assert(before.has_file(x.file()));
                        assert(x.file() != wv.file()) by {
                            if !fresh {
                                if p < part {
                                    assert(old(self).file(p) != old(self).file(part as int));
                                } else {
                                    assert(old(self).file(part as int) != old(self).file(p));
                                }
                            }
                        }
                        assert(before.same_file(storage, x.file()));
                        x.inv_kept(&before, storage);
                    }
                }
            }
            assert forall|p: int, q: int|
                0 <= p < q < self.writers@.len() && (#[trigger] self.writers@[p]) is Some && (
                #[trigger] self.writers@[q]) is Some implies self.writers@[p]->0.file()
                != self.writers@[q]->0.file() by {
                if p != part && q != part {
                    assert(old(self).writers@[p] is Some && old(self).writers@[q] is Some);
                } else {
                    let o = if p == part {
                        q
                    } else {
                        p
                    };
                    assert(old(self).writers@[o] == self.writers@[o]);
                    assert(old(self).file(o) is Some);
                    assert(before.has_file(old(self).file(o)->0));
                    if !fresh {
                        assert(old(self).writers@[part as int] is Some);
                    }
                }
            }
            assert forall|f: u64| #[trigger] self.files().contains(f) implies old(
                self,
            ).files().contains(f) || !before.has_file(f) by {
                let p = choose|p: int| 0 <= p < self.count() && #[trigger] self.file(p) == Some(f);
                if p != part {
                    assert(old(self).file(p) == Some(f));
                }
            }
            assert forall|f: u64| #[trigger] old(self).files().contains(f) implies self.files().contains(f) by {
                let p = choose|p: int| 0 <= p < old(self).count() && #[trigger] old(self).file(p)
                    == Some(f);
                assert(self.file(p) == Some(f));
            }
            if old(self).files_have_rows() {
                assert forall|p: int| 0 <= p < self.count() implies (#[trigger] self.file(
                    p,
                ) is Some <==> self.rows(p).len() > 0) by {
                    assert(old(self).file(p) is Some <==> old(self).rows(p).len() > 0);
                }
            }
        }
        Ok(())
    }

    /// Takes the writer of a partition out.
    pub fn take(&mut self, part: usize, storage: &TempStorageManager) -> (r: Option<TempRunWriter>)
        requires
            part < old(self).count(),
            old(self).inv(storage),
        ensures
            final(self).count() == old(self).count(),
            final(self).batch() == old(self).batch(),
            forall|q: int|
                0 <= q < old(self).count() && q != part ==> #[trigger] final(self).rows(q) == old(
                    self,
                ).rows(q) && final(self).file(q) == old(self).file(q),
            final(self).rows(part as int) == Seq::<Seq<Value>>::empty(),
            final(self).file(part as int) is None,
            r is Some <==> old(self).file(part as int) is Some,
            r matches Some(w) ==> w.rows() == old(self).rows(part as int) && Some(w.file()) == old(
                self,
            ).file(part as int),
            final(self).inv(storage),
            r matches Some(w) ==> w.inv(storage) && !final(self).files().contains(w.file())
                && w.batch() == old(self).batch(),
            forall|f: u64| #[trigger]
                final(self).files().contains(f) ==> old(self).files().contains(f),
            forall|f: u64| #[trigger]
                old(self).files().contains(f) ==> final(self).files().contains(f) || Some(f)
                    == old(self).file(part as int),
    {
        let mut slot: Option<TempRunWriter> = None;
        core::mem::swap(&mut self.writers[part], &mut slot);
        proof {
            assert(self.writers@ =~= old(self).writers@.update(part as int, None));
            assert forall|p: int| 0 <= p < self.writers@.len() implies ((
            #[trigger] self.writers@[p]) matches Some(x) ==> x.inv(storage) && x.batch()
                == self.batch) by {
                if p != part {
                    assert(old(self).writers@[p] == self.writers@[p]);
                }
            }
            assert forall|p: int, q: int|
                0 <= p < q < self.writers@.len() && (#[trigger] self.writers@[p]) is Some && (
                #[trigger] self.writers@[q]) is Some implies self.writers@[p]->0.file()
                != self.writers@[q]->0.file() by {
                assert(old(self).writers@[p] == self.writers@[p]);
                assert(old(self).writers@[q] == self.writers@[q]);
            }
            if slot is Some {
                let w = slot->0;
                assert(old(self).writers@[part as int] == Some(w));
                if self.files().contains(w.file()) {
                    let p = choose|p: int| 0 <= p < self.count() && #[trigger] self.file(p)
                        == Some(w.file());
                    assert(p != part);
                    assert(old(self).writers@[p] == self.writers@[p]);
                    assert(old(self).writers@[p] is Some);
                }
            }
            assert forall|f: u64| #[trigger] self.files().contains(f) implies old(
                self,
            ).files().contains(f) by {
                let p = choose|p: int| 0 <= p < self.count() && #[trigger] self.file(p) == Some(f);
                assert(old(self).file(p) == Some(f));
            }
            assert forall|f: u64| #[trigger] old(self).files().contains(f) implies self.files().contains(
                f,
            ) || Some(f) == old(self).file(part as int) by {
                let p = choose|p: int| 0 <= p < old(self).count() && #[trigger] old(self).file(p)
                    == Some(f);
                if p != part {
                    assert(self.file(p) == Some(f));
                }
            }
        }
        slot
    }
}

} // verus!

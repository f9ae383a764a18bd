//! Merging a group of temporary runs into one.

use std::collections::VecDeque;
use vstd::multiset::Multiset;
use vstd::prelude::*;
use crate::error::DbError;
use crate::join_table::all_len;
use crate::ordering::{SortKey, keys_within, lemma_sorted_push, not_after, sorted};
use crate::row::Row;
use crate::run_list::{lemma_runs_present, run_files, runs_of, runs_ok};
use crate::run_merge::{RunMerger, bounds_runs, runs_bag, runs_sorted, runs_typed, taking_one, taking_the_least};
use crate::temp_run::{ReadStep, TempRunWriter, all_fit, blocks_of, cannot_store_all, is_content, run_of};
use crate::temp_storage::{BlockRange, MAX_BATCH_PAGES, TempFileId, TempStorageManager, out_of_room, unharmed, untouched, untouched_but, untouched_file, untouched_same, untouched_twice};
use crate::value::{DataType, Value};
use crate::views::rows_of;
use crate::pairs::shares;

verus! {

/// Whether rows were taken from runs in order: they are sorted, the runs are, and none of the
/// rows comes after one that is left.
pub open spec fn in_order(
    keys: Seq<SortKey>,
    taken: Seq<Seq<Value>>,
    left: Seq<Seq<Seq<Value>>>,
) -> bool {
    &&& sorted(keys, taken)
    &&& runs_sorted(keys, left)
    &&& forall|i: int| 0 <= i < taken.len() ==> bounds_runs(keys, #[trigger] taken[i], left)
}

/// Taking the least head keeps what was taken in order.
pub proof fn lemma_in_order_step(
    keys: Seq<SortKey>,
    types: Seq<DataType>,
    taken: Seq<Seq<Value>>,
    runs: Seq<Seq<Seq<Value>>>,
    row: Seq<Value>,
    left: Seq<Seq<Seq<Value>>>,
)
    requires
        in_order(keys, taken, runs),
        runs_typed(keys, types, runs),
        crate::run_merge::takes_least(keys, runs, row, left),
    ensures
        in_order(keys, taken.push(row), left),
        runs_typed(keys, types, left),
{
    taking_the_least(keys, types, runs, row, left);
    let i = choose|i: int| #[trigger]
        crate::run_merge::is_least(keys, runs, i) && row == runs[i][0] && left == runs.update(
            i,
            runs[i].drop_first(),
        );
    assert forall|j: int| 0 <= j < taken.len() implies not_after(keys, #[trigger] taken[j], row) by {
        assert(bounds_runs(keys, taken[j], runs));
        assert(crate::ordering::bounds(keys, taken[j], runs[i]));
    }
    lemma_sorted_push(keys, taken, row);
    let more = taken.push(row);
    assert forall|j: int| 0 <= j < more.len() implies bounds_runs(
        keys,
        #[trigger] more[j],
        left,
    ) by {
        if j < taken.len() {
            assert(more[j] == taken[j]);
            assert forall|r: int| 0 <= r < left.len() implies crate::ordering::bounds(
                keys,
                taken[j],
                #[trigger] left[r],
            ) by {
                assert(crate::ordering::bounds(keys, taken[j], runs[r]));
                if r == i {
                    assert forall|k: int| 0 <= k < left[r].len() implies not_after(
                        keys,
                        taken[j],
                        #[trigger] left[r][k],
                    ) by {
                        assert(left[r][k] == runs[r][k + 1]);
                    }
                }
            }
        }
    }
}

/// A share more is among all shares.
proof fn lemma_shares(i: nat, n: nat, share: nat)
    requires
        i <= n,
    ensures
        shares(i + 1, share) == shares(i, share) + share,
        shares(i, share) + share <= shares(n + 1, share),
        share <= shares(n + 1, share),
{
    reveal(shares);
    assert((i + 1) * share == i * share + share) by (nonlinear_arith);
    assert((i + 1) * share <= (n + 1) * share) by (nonlinear_arith)
        requires
            i <= n,
    ;
    assert(share <= (n + 1) * share) by (nonlinear_arith);
}

/// Writes rows to a new run.
pub fn spill_run(
    rows: &VecDeque<Row>,
    batch_pages: usize,
    storage: &mut TempStorageManager,
) -> (r: Result<TempFileId, DbError>)
    requires
        old(storage).inv(),
        0 < batch_pages <= MAX_BATCH_PAGES,
    ensures
        all_fit(rows_of(rows@), old(storage).size()) && old(storage).roomy(
            shares(rows@.len() + 2, MAX_BATCH_PAGES as nat),
        ) ==> r is Ok,
        final(storage).inv(),
        untouched(old(storage), final(storage), Set::empty()),
        r matches Ok(id) ==> !old(storage).has_file(id.0) && final(storage).has_file(id.0)
            && run_of(final(storage), id.0) == Some(rows_of(rows@)),
        r matches Err(e) ==> cannot_store_all(e, rows_of(rows@), final(storage)),
{
    let ghost s0 = *storage;
    let ghost none = Set::<u64>::empty();
    let ghost top = MAX_BATCH_PAGES as nat;
    let ghost roomy = s0.roomy(shares(rows@.len() + 2, top));
    proof {
        reveal(shares);
        if roomy {
            lemma_shares(0, rows@.len() + 1, top);
            s0.roomy_for_fewer(shares(rows@.len() + 2, top), top);
        }
        untouched_same(&s0, storage, none);
    }
    let mut writer = match TempRunWriter::with_batch_pages(storage, batch_pages) {
        Ok(w) => {
            proof {
                untouched_but(&s0, storage, w.file(), none);
            }
            w
        },
        Err(e) => {
            proof {
                untouched_same(&s0, storage, none);
            }
            return Err(e);
        },
    };
    let ghost f = writer.file();
    let ghost own = Set::<u64>::empty().insert(f);
    let ghost all = rows_of(rows@);
    let mut i: usize = 0;
    proof {
        assert(all.take(0) =~= Seq::<Seq<Value>>::empty());
    }
    while i < rows.len()
        invariant
            i <= rows@.len(),
            s0 == *old(storage),
            all == rows_of(rows@),
            none == Set::<u64>::empty(),
            own == Set::<u64>::empty().insert(f),
            !s0.has_file(f),
            writer.inv(storage),
            writer.file() == f,
            writer.rows() == all.take(i as int),
            writer.batch() == batch_pages,
            0 < batch_pages <= MAX_BATCH_PAGES,
            untouched(&s0, storage, none),
            top == MAX_BATCH_PAGES,
            roomy == s0.roomy(shares(rows@.len() + 2, top)),
            roomy ==> storage.frontier() is Some && storage.frontier()->0 <= s0.frontier()->0
                + shares(i as nat, top),
        decreases rows@.len() - i,
    {
        let ghost s1 = *storage;
        proof {
            writer.inv_gives(storage);
            untouched_file(&s0, storage, none, 0);
            lemma_shares(i as nat, rows@.len() + 1, top);
            if roomy {
                storage.pages_below_frontier(f);
                assert(writer.room(storage));
            }
            assert(all[i as int] == rows@[i as int]@);
        }
        let r = writer.append_row(&rows[i], storage);
        proof {
            assert(s1.size() == storage.size());
            untouched_but(&s1, storage, f, own);
            untouched_twice(&s0, &s1, storage, none, own);
        }
        match r {
            Ok(_) => {},
            Err(e) => {
                return Err(e);
            },
        }
        proof {
            assert(all.take(i + 1) =~= all.take(i as int).push(all[i as int]));
        }
        i += 1;
    }
    let ghost s1 = *storage;
    proof {
        writer.inv_gives(storage);
        assert(all.take(i as int) =~= all);
        untouched_file(&s0, storage, none, 0);
        lemma_shares(rows@.len(), rows@.len() + 1, top);
        if roomy {
            storage.pages_below_frontier(f);
            assert(writer.room(storage));
        }
    }
    let r = writer.finish(storage);
    proof {
        untouched_but(&s1, storage, f, own);
        untouched_twice(&s0, &s1, storage, none, own);
    }
    r
}

/// Merges a group of runs into a new run.
pub struct GroupMerge {
    input_runs: Vec<TempFileId>,
    merger: RunMerger,
    writer: TempRunWriter,
}

/// What a step of merging a group comes to.
pub enum GroupNext {
    Need(GroupMerge, Vec<BlockRange>),
    Again(GroupMerge),
    Finished(TempFileId),
}

impl GroupMerge {
    /// The rows merged so far.
    pub closed spec fn written(&self) -> Seq<Seq<Value>> {
        self.writer.rows()
    }

    /// What is left of the runs.
    pub closed spec fn left(&self) -> Seq<Seq<Seq<Value>>> {
        self.merger.runs()
    }

    /// All rows of the group, order aside.
    pub open spec fn content(&self) -> Multiset<Seq<Value>> {
        self.written().to_multiset().add(runs_bag(self.left()))
    }

    /// How many runs are merged.
    pub closed spec fn width(&self) -> nat {
        self.input_runs@.len()
    }

    /// How much is left to do.
    pub closed spec fn left_to_do(&self) -> nat {
        self.merger.left_to_do()
    }

    pub closed spec fn files(&self) -> Set<u64> {
        run_files(self.input_runs@).insert(self.writer.file())
    }

    pub closed spec fn waiting(&self) -> bool {
        self.merger.waiting()
    }

    pub closed spec fn expects(&self, data: Seq<u8>) -> bool {
        self.merger.expects(data)
    }

    pub closed spec fn ok(&self, len: nat, storage: &TempStorageManager) -> bool {
        &&& storage.inv()
        &&& runs_ok(self.input_runs@, storage, len)
        &&& self.merger.ok(len, storage)
        &&& forall|f: u64| #[trigger]
            self.merger.reads(f) ==> run_files(self.input_runs@).contains(f)
        &&& self.writer.inv(storage)
        &&& self.writer.batch() <= MAX_BATCH_PAGES
        &&& !run_files(self.input_runs@).contains(self.writer.file())
        &&& all_len(self.writer.rows(), len)
    }

    pub closed spec fn good(&self, len: nat) -> bool {
        self.merger.good(len)
    }

    pub proof fn ok_gives(&self, len: nat, storage: &TempStorageManager)
        requires
            self.ok(len, storage),
        ensures
            forall|f: u64| #[trigger] self.files().contains(f) ==> storage.has_file(f),
            all_len(self.written(), len),
    {
        lemma_runs_present(self.input_runs@, storage, len);
        self.writer.inv_gives(storage);
    }

    /// A group depends on its own files alone.
    pub proof fn ok_kept(
        &self,
        len: nat,
        before: &TempStorageManager,
        after: &TempStorageManager,
        touched: Set<u64>,
    )
        requires
            self.ok(len, before),
            after.inv(),
            unharmed(before, after, touched),
            touched.disjoint(self.files()),
        ensures
            self.ok(len, after),
    {
        assert(touched.disjoint(run_files(self.input_runs@)));
        crate::run_list::lemma_runs_kept(self.input_runs@, before, after, touched, len);
        self.writer.inv_gives(before);
        assert(self.files().contains(self.writer.file()));
        untouched_file(before, after, touched, self.writer.file());
        self.writer.inv_kept(before, after);
        assert forall|f: u64| #[trigger] self.merger.reads(f) implies before.same_file(
            after,
            f,
        ) by {
            assert(run_files(self.input_runs@).contains(f));
        }
        self.merger.ok_kept(len, before, after);
    }

    /// Opens the runs of a group and a new run for the result.
    pub fn start(
        input_runs: Vec<TempFileId>,
        reader_batch_pages: usize,
        writer_batch_pages: usize,
        storage: &mut TempStorageManager,
        Ghost(len): Ghost<nat>,
    ) -> (r: Result<GroupMerge, DbError>)
        requires
            old(storage).inv(),
            runs_ok(input_runs@, old(storage), len),
            0 < reader_batch_pages <= MAX_BATCH_PAGES,
            0 < writer_batch_pages <= MAX_BATCH_PAGES,
        ensures
            old(storage).roomy(MAX_BATCH_PAGES as nat) ==> r is Ok,
            final(storage).inv(),
            untouched(old(storage), final(storage), Set::empty()),
            r matches Ok(g) ==> {
                &&& g.ok(len, final(storage))
                &&& g.good(len)
                &&& g.width() == input_runs@.len()
                &&& run_files(input_runs@).subset_of(g.files())
                &&& g.written() == Seq::<Seq<Value>>::empty()
                &&& g.left() == runs_of(input_runs@, old(storage))
                &&& forall|f: u64| #[trigger]
                    g.files().contains(f) ==> run_files(input_runs@).contains(f) || !old(
                        storage,
                    ).has_file(f)
            },
            r matches Err(e) ==> out_of_room(e, final(storage)),
    {
        let ghost s0 = *storage;
        let ghost none = Set::<u64>::empty();
        proof {
            untouched_same(&s0, storage, none);
            lemma_runs_present(input_runs@, storage, len);
        }
        let writer = match TempRunWriter::with_batch_pages(storage, writer_batch_pages) {
            Ok(w) => {
                proof {
                    untouched_but(&s0, storage, w.file(), none);
                }
                w
            },
            Err(e) => {
                proof {
                    untouched_same(&s0, storage, none);
                }
                return Err(e);
            },
        };
        proof {
            crate::run_list::lemma_runs_kept(input_runs@, &s0, storage, none, len);
            reveal(runs_ok);
        }
        proof {
            if s0.roomy(MAX_BATCH_PAGES as nat) {
                s0.roomy_for_fewer(MAX_BATCH_PAGES as nat, reader_batch_pages as nat);
                s0.roomy_for_fewer(MAX_BATCH_PAGES as nat, writer_batch_pages as nat);
            }
        }
        let merger = match RunMerger::new(
            input_runs.as_slice(),
            reader_batch_pages,
            storage,
            Ghost(len),
        ) {
            Ok(m) => m,
            Err(e) => {
                return Err(e);
            },
        };
        let g = GroupMerge { input_runs, merger, writer };
        proof {
            assert forall|f: u64| #[trigger] g.merger.reads(f) implies run_files(
                g.input_runs@,
            ).contains(f) by {
                reveal(run_files);
            }
        }
        Ok(g)
    }

    /// Takes the next row over, or ends the merge.
    pub fn step(
        self,
        sort_keys: &[SortKey],
        len: usize,
        storage: &mut TempStorageManager,
    ) -> (r: Result<GroupNext, DbError>)
        requires
            self.ok(len as nat, old(storage)),
            keys_within(sort_keys@, len as nat),
        ensures
            final(storage).inv(),
            untouched(old(storage), final(storage), self.files()),
            match r {
                Ok(GroupNext::Need(g, ranges)) => {
                    &&& g.width() == self.width()
                    &&& g.left_to_do() <= self.left_to_do()
                    &&& g.ok(len as nat, final(storage))
                    &&& g.files() == self.files()
                    &&& g.waiting()
                    &&& forall|data: Seq<u8>|
                        is_content(
                            final(storage).disk(),
                            blocks_of(ranges@),
                            data,
                            final(storage).size() as int,
                        ) ==> #[trigger] g.expects(data)
                    &&& self.good(len as nat) ==> g.good(len as nat) && g.written()
                        == self.written() && g.left() == self.left()
                },
                Ok(GroupNext::Again(g)) => {
                    &&& g.width() == self.width()
                    &&& g.left_to_do() < self.left_to_do()
                    &&& g.ok(len as nat, final(storage))
                    &&& g.files() == self.files()
                    &&& self.good(len as nat) ==> {
                        &&& g.good(len as nat)
                        &&& g.content() == self.content()
                        &&& forall|types: Seq<DataType>|
                            in_order(sort_keys@, self.written(), self.left()) && #[trigger]
                            runs_typed(sort_keys@, types, self.left()) ==> in_order(
                                sort_keys@,
                                g.written(),
                                g.left(),
                            )
                    }
                },
                Ok(GroupNext::Finished(id)) => {
                    &&& self.files().contains(id.0)
                    &&& forall|f: u64| #[trigger]
                        self.files().contains(f) && f != id.0 ==> !final(storage).has_file(f)
                    &&& run_of(final(storage), id.0) == Some(self.written())
                    &&& all_len(self.written(), len as nat)
                    &&& self.good(len as nat) ==> self.content() == self.written().to_multiset()
                },
                Err(e) => self.good(len as nat) ==> out_of_room(e, final(storage)) && !old(
                    storage,
                ).roomy(MAX_BATCH_PAGES as nat),
            },
    {
        let ghost s0 = *storage;
        let ghost mine = self.files();
        let ghost n = len as nat;
        let ghost keys = sort_keys@;
        let ghost f = self.writer.file();
        proof {
            self.ok_gives(n, storage);
            untouched_same(&s0, storage, mine);
        }
        let mut merger = self.merger;
        let mut writer = self.writer;
        let input_runs = self.input_runs;
        let read = match merger.step(sort_keys, len, storage) {
            Ok(s) => s,
            Err(e) => {
                return Err(e);
            },
        };
        match read {
            ReadStep::Need(ranges) => {
                let g = GroupMerge { input_runs, merger, writer };
                Ok(GroupNext::Need(g, ranges))
            },
            ReadStep::Row(row) => {
                let r = writer.append_row(&row, storage);
                proof {
                    untouched_but(&s0, storage, f, mine);
                    let one = Set::<u64>::empty().insert(f);
                    untouched_but(&s0, storage, f, one);
                    assert(one.disjoint(run_files(input_runs@)));
                    crate::run_list::lemma_runs_kept(input_runs@, &s0, storage, one, n);
                    assert forall|x: u64| #[trigger] merger.reads(x) implies s0.same_file(
                        storage,
                        x,
                    ) by {
                        assert(self.merger.reads(x));
                        assert(run_files(input_runs@).contains(x));
                    }
                    merger.ok_kept(n, &s0, storage);
                }
                match r {
                    Ok(_) => {},
                    Err(e) => {
                        return Err(e);
                    },
                }
                let g = GroupMerge { input_runs, merger, writer };
                proof {
                    broadcast use vstd::seq_lib::group_to_multiset_ensures;

                    assert(g.ok(n, storage));
                    assert(g.files() == mine);
                    if self.good(n) {
                        taking_one(self.left(), row@, g.left());
                        assert(g.written() == self.written().push(row@));
                        assert(g.content() =~= self.content());
                        assert forall|types: Seq<DataType>|
                            in_order(keys, self.written(), self.left()) && #[trigger]
                            runs_typed(keys, types, self.left()) implies in_order(
                            keys,
                            g.written(),
                            g.left(),
                        ) by {
                            lemma_in_order_step(
                                keys,
                                types,
                                self.written(),
                                self.left(),
                                row@,
                                g.left(),
                            );
                        }
                    }
                }
                Ok(GroupNext::Again(g))
            },
            ReadStep::End => {
                let ghost one = Set::<u64>::empty().insert(f);
                let ghost w = writer.rows();
                let r = writer.finish(storage);
                proof {
                    untouched_but(&s0, storage, f, mine);
                    untouched_but(&s0, storage, f, one);
                    assert(one.disjoint(run_files(input_runs@)));
                    crate::run_list::lemma_runs_kept(input_runs@, &s0, storage, one, n);
                    if self.good(n) {
                        assert(self.written().to_multiset().add(
                            Multiset::<Seq<Value>>::empty(),
                        ) =~= self.written().to_multiset());
                    }
                }
                let id = match r {
                    Ok(id) => id,
                    Err(e) => {
                        return Err(e);
                    },
                };
                let deleted = delete_runs(&input_runs, id, storage, Ghost(n), Ghost(w), Ghost(s0), Ghost(mine));
                match deleted {
                    Ok(_) => Ok(GroupNext::Finished(id)),
                    Err(e) => Err(e),
                }
            },
        }
    }

    /// Takes the data that was asked for.
    pub fn supply(
        &mut self,
        data: Vec<u8>,
        Ghost(len): Ghost<nat>,
        Ghost(storage): Ghost<TempStorageManager>,
    ) -> (r: Result<(), DbError>)
        requires
            old(self).ok(len, &storage),
            old(self).waiting(),
        ensures
            r is Ok ==> final(self).ok(len, &storage),
            final(self).files() == old(self).files(),
            final(self).written() == old(self).written(),
            final(self).width() == old(self).width(),
            r is Ok ==> final(self).left_to_do() < old(self).left_to_do(),
            r is Ok && old(self).expects(data@) && old(self).good(len) ==> final(self).good(len)
                && final(self).left() == old(self).left(),
            old(self).expects(data@) ==> r is Ok,
    {
        let ghost before = *self;
        let r = self.merger.supply(data, Ghost(len), Ghost(storage));
        proof {
            assert forall|f: u64| #[trigger] self.merger.reads(f) implies run_files(
                self.input_runs@,
            ).contains(f) by {
                assert(before.merger.reads(f));
            }
        }
        r
    }
}

/// Deletes the runs that were merged.
fn delete_runs(
    input_runs: &Vec<TempFileId>,
    id: TempFileId,
    storage: &mut TempStorageManager,
    Ghost(len): Ghost<nat>,
    Ghost(w): Ghost<Seq<Seq<Value>>>,
    Ghost(s0): Ghost<TempStorageManager>,
    Ghost(mine): Ghost<Set<u64>>,
) -> (r: Result<(), DbError>)
    requires
        old(storage).inv(),
        runs_ok(input_runs@, old(storage), len),
        !run_files(input_runs@).contains(id.0),
        run_of(old(storage), id.0) == Some(w),
        untouched(&s0, old(storage), mine),
        run_files(input_runs@).subset_of(mine),
    ensures
        final(storage).inv(),
        untouched(&s0, final(storage), mine),
        run_of(final(storage), id.0) == Some(w),
        forall|f: u64| #[trigger]
            run_files(input_runs@).contains(f) ==> !final(storage).has_file(f),
        r is Ok,
{
    let mut i: usize = 0;
    proof {
        reveal(runs_ok);
    }
    while i < input_runs.len()
        invariant
            i <= input_runs@.len(),
            storage.inv(),
            !run_files(input_runs@).contains(id.0),
            run_files(input_runs@).subset_of(mine),
            run_of(storage, id.0) == Some(w),
            untouched(&s0, storage, mine),
            forall|j: int| 0 <= j < i ==> !storage.has_file((#[trigger] input_runs@[j]).0),
            forall|j: int| i <= j < input_runs@.len() ==> storage.has_file(
                (#[trigger] input_runs@[j]).0,
            ),
            forall|j: int, k: int|
                0 <= j < k < input_runs@.len() ==> #[trigger] input_runs@[j]
                    != #[trigger] input_runs@[k],
        decreases input_runs@.len() - i,
    {
        let ghost s1 = *storage;
        let ghost f = input_runs@[i as int].0;
        proof {
            reveal(run_files);
            assert(run_files(input_runs@).contains(f));
        }
        assert(storage.has_file(input_runs@[i as int].0));
        let r = storage.delete_temp_file(input_runs[i]);
        proof {
            untouched_but(&s1, storage, f, mine);
            untouched_twice(&s0, &s1, storage, mine, mine);
            assert(s1.same_file(storage, id.0));
            assert forall|j: int| 0 <= j < i + 1 implies !storage.has_file(
                (#[trigger] input_runs@[j]).0,
            ) by {
                if j < i {
                    assert(input_runs@[j] != input_runs@[i as int]);
                    assert(s1.same_file(storage, input_runs@[j].0));
                }
            }
            assert forall|j: int| i + 1 <= j < input_runs@.len() implies storage.has_file(
                (#[trigger] input_runs@[j]).0,
            ) by {
                assert(input_runs@[i as int] != input_runs@[j]);
                assert(s1.same_file(storage, input_runs@[j].0));
            }
        }
        match r {
            Ok(_) => {},
            Err(e) => {
                return Err(e);
            },
        }
        i += 1;
    }
    proof {
        reveal(run_files);
    }
    Ok(())
}

} // verus!

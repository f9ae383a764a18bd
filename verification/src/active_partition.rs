//! A partition in the course of being joined.

use vstd::multiset::Multiset;
use vstd::prelude::*;
use crate::error::DbError;
use crate::join_plan::{HASH_JOIN_BUILD_READER_PAGES, HASH_JOIN_MAX_REPARTITION_DEPTH, HASH_JOIN_PROBE_READER_PAGES, MAX_HASH_JOIN_PARTITIONS, SPLIT_PAGES, choose_bnlj_outer_batch_bytes, choose_hash_build_budget_bytes, choose_num_partitions, choose_writer_batch};
use crate::join_spec::{JoinOn, join_of};
use crate::join_table::{JoinParams, decided, undecided};
use crate::nested_loop::NestedLoop;
use crate::pairs::{FilePair, pair_decided, pair_files, pair_join, pair_ok, pairs_decided, pairs_join, pairs_ok, two_files};
use crate::partition_join::{BuildLoad, HashProbe, LoadStep, PartStep, bag, lemma_all_len_drop, reader_good, reader_ok};
use crate::progress::{nearer, nearer_at, nearer_back, not_farther, not_farther_if};
use crate::row::Row;
use crate::splitter::Splitter;
use crate::temp_run::{ReadStep, TempRunReader, blocks_of, is_content, run_of};
use crate::temp_storage::{BlockRange, MAX_BATCH_PAGES, TempStorageManager, let_go, no_new_files, out_of_room, unharmed, untouched, untouched_but, untouched_file, untouched_more, untouched_same, untouched_twice};
use crate::value::Value;

verus! {

/// A partition that is to be joined.
#[derive(Clone, Copy, Debug, PartialEq, Eq, Structural)]
pub struct PartitionTask {
    pub files: FilePair,
    pub depth: usize,
    pub salt: u64,
}

/// Splits a partition again, with another salt.
pub struct Repartition {
    splitter: Splitter,
    reader: TempRunReader,
    on_left: bool,
}

pub enum ActiveKind {
    Load(BuildLoad),
    Hash(HashProbe),
    Nested(NestedLoop),
    Split(Repartition),
}

/// A partition in the course of being joined.
pub struct ActivePartition {
    pub task: PartitionTask,
    pub kind: ActiveKind,
}

/// What a step of an active partition comes to.
pub enum ActiveNext {
    Need(ActivePartition, Vec<BlockRange>),
    Again(ActivePartition),
    Rows(ActivePartition, Vec<Row>),
    Finished,
    /// The partition was split into these.
    Children(Vec<FilePair>),
}

/// The salt of the partitions that a partition is split into.
pub open spec fn next_salt(salt: u64, next_depth: int) -> u64 {
    salt.wrapping_mul(0x9E37_79B9_7F4A_7C15).wrapping_add((next_depth + 1) as u64)
}

impl PartitionTask {
    /// The task for one of the partitions that this one is split into.
    pub fn child(&self, files: FilePair) -> (r: PartitionTask)
        requires
            self.depth < HASH_JOIN_MAX_REPARTITION_DEPTH,
        ensures
            r == (PartitionTask {
                files,
                depth: (self.depth + 1) as usize,
                salt: next_salt(self.salt, self.depth + 1),
            }),
    {
        let depth: usize = self.depth + 1;
        let salt: u64 = self.salt.wrapping_mul(0x9E37_79B9_7F4A_7C15).wrapping_add(
            depth as u64 + 1,
        );
        PartitionTask { files, depth, salt }
    }
}

impl Repartition {
    /// How much is left to do: whether both runs are still to be read, and of the run that is.
    pub closed spec fn left_to_do(&self) -> Seq<nat> {
        seq![
            if self.on_left {
                1nat
            } else {
                0nat
            },
            self.reader.left_to_do(),
            0nat,
        ]
    }

    pub proof fn left_is_three(&self)
        ensures
            self.left_to_do().len() == 3,
    {
    }

    pub closed spec fn files(&self) -> Set<u64> {
        self.splitter.files()
    }

    pub closed spec fn waiting(&self) -> bool {
        self.reader.waiting()
    }

    pub closed spec fn expects(&self, data: Seq<u8>) -> bool {
        self.reader.expects(data)
    }

    pub closed spec fn ok(
        &self,
        params: &JoinParams,
        storage: &TempStorageManager,
        pair: FilePair,
    ) -> bool {
        &&& self.splitter.inv(params, storage)
        &&& self.splitter.files().disjoint(two_files(pair))
        &&& reader_ok(&self.reader, storage)
        &&& self.reader.file() == (if self.on_left {
            pair.left.0
        } else {
            pair.right.0
        })
        &&& self.on_left ==> self.splitter.right().len() == 0
        &&& self.splitter.parts() <= MAX_HASH_JOIN_PARTITIONS
        &&& self.splitter.batch() <= 128
        &&& params.inv()
    }

    /// The rows split and those to come are those of the runs.
    pub closed spec fn good(
        &self,
        params: &JoinParams,
        left: Seq<Seq<Value>>,
        right: Seq<Seq<Value>>,
    ) -> bool {
        if self.on_left {
            &&& reader_good(&self.reader, params.left_len as nat)
            &&& self.splitter.left() + self.reader.remaining() == left
        } else {
            &&& reader_good(&self.reader, params.right_len as nat)
            &&& self.splitter.left() == left
            &&& self.splitter.right() + self.reader.remaining() == right
        }
    }

    pub proof fn ok_kept(
        &self,
        params: &JoinParams,
        before: &TempStorageManager,
        after: &TempStorageManager,
        pair: FilePair,
        touched: Set<u64>,
    )
        requires
            self.ok(params, before, pair),
            after.inv(),
            unharmed(before, after, touched),
            touched.disjoint(self.files()),
            touched.disjoint(two_files(pair)),
        ensures
            self.ok(params, after, pair),
    {
        self.splitter.inv_kept(params, before, after, touched);
        untouched_file(before, after, touched, self.reader.file());
        assert(two_files(pair).contains(self.reader.file()));
    }

    pub proof fn ok_gives(
        &self,
        params: &JoinParams,
        storage: &TempStorageManager,
        pair: FilePair,
    )
        requires
            self.ok(params, storage, pair),
        ensures
            storage.inv(),
            forall|f: u64| #[trigger] self.files().contains(f) ==> storage.has_file(f),
    {
        self.splitter.inv_gives(params, storage);
    }
}

/// What a step of splitting comes to.
pub enum SplitNext {
    Need(Repartition, Vec<BlockRange>),
    Again(Repartition),
    Children(Vec<FilePair>),
}

proof fn lemma_two_files(pair: FilePair, f: u64)
    ensures
        two_files(pair).contains(f) <==> f == pair.left.0 || f == pair.right.0,
{
}

/// Changes of two files that are there make no file.
proof fn two_changed(
    a: &TempStorageManager,
    b: &TempStorageManager,
    c: &TempStorageManager,
    f: u64,
    g: u64,
)
    requires
        a.same_but(b, f),
        b.same_but(c, g),
        a.has_file(f),
        a.has_file(g),
    ensures
        no_new_files(a, c),
{
    assert forall|h: u64| #[trigger] c.has_file(h) implies a.has_file(h) by {
        if h != f && h != g {
            assert(a.same_file(b, h));
            assert(b.same_file(c, h));
        }
    }
}

/// Deletes the files of a partition.
fn cleanup_task(pair: FilePair, storage: &mut TempStorageManager) -> (r: Result<(), DbError>)
    requires
        old(storage).inv(),
        old(storage).has_file(pair.left.0),
        old(storage).has_file(pair.right.0),
        pair.left != pair.right,
    ensures
        final(storage).inv(),
        untouched(old(storage), final(storage), two_files(pair)),
        r is Ok,
        !final(storage).has_file(pair.left.0),
        !final(storage).has_file(pair.right.0),
        no_new_files(old(storage), final(storage)),
        final(storage).frontier() == old(storage).frontier(),
        final(storage).names_given() == old(storage).names_given(),
        final(storage).size() == old(storage).size(),
{
    let ghost s0 = *storage;
    let a = storage.delete_temp_file(pair.left);
    let ghost s1 = *storage;
    proof {
        untouched_but(&s0, &s1, pair.left.0, two_files(pair));
        assert(s0.same_file(&s1, pair.right.0));
    }
    let b = storage.delete_temp_file(pair.right);
    proof {
        untouched_but(&s1, storage, pair.right.0, two_files(pair));
        untouched_twice(&s0, &s1, storage, two_files(pair), two_files(pair));
        assert(s1.same_file(storage, pair.left.0));
        two_changed(&s0, &s1, storage, pair.left.0, pair.right.0);
    }
    b
}

impl Repartition {
    /// Starts to split a partition.
    fn start(
        task: PartitionTask,
        params: &JoinParams,
        sort_run_bytes: usize,
        storage: &TempStorageManager,
    ) -> (r: Result<Repartition, DbError>)
        requires
            params.inv(),
            storage.inv(),
            pair_ok(
                task.files,
                storage,
                params.left_len as nat,
                params.right_len as nat,
            ),
            task.depth < HASH_JOIN_MAX_REPARTITION_DEPTH,
        ensures
            r matches Ok(s) ==> s.ok(params, storage, task.files) && s.good(
                params,
                run_of(storage, task.files.left.0)->0,
                run_of(storage, task.files.right.0)->0,
            ) && s.files() == Set::<u64>::empty(),
            r matches Err(e) ==> out_of_room(e, storage),
    {
        let block_size: usize = storage.block_size();
        let num_partitions: usize = choose_num_partitions(sort_run_bytes, block_size);
        let batch: usize = choose_writer_batch(sort_run_bytes, block_size, num_partitions);
        let salt: u64 = task.child(task.files).salt;
        let reader = match TempRunReader::with_batch_pages(
            storage,
            task.files.left,
            HASH_JOIN_BUILD_READER_PAGES,
        ) {
            Ok(r) => r,
            Err(e) => {
                return Err(e);
            },
        };
        let splitter = Splitter::new(num_partitions, batch, salt, None, params, storage);
        proof {
            assert(splitter.left() + reader.remaining() =~= reader.remaining());
        }
        Ok(Repartition { splitter, reader, on_left: true })
    }

    fn step(
        self,
        task: PartitionTask,
        params: &JoinParams,
        storage: &mut TempStorageManager,
    ) -> (r: Result<SplitNext, DbError>)
        requires
            self.ok(params, old(storage), task.files),
            pair_ok(
                task.files,
                old(storage),
                params.left_len as nat,
                params.right_len as nat,
            ),
        ensures
            final(storage).inv(),
            untouched(
                old(storage),
                final(storage),
                self.files().union(two_files(task.files)),
            ),
            r matches Ok(SplitNext::Need(s, _)) ==> not_farther(s.left_to_do(), self.left_to_do()),
            r matches Ok(SplitNext::Again(s)) ==> nearer(s.left_to_do(), self.left_to_do())
                && self.files().subset_of(s.files()),
            r matches Ok(SplitNext::Children(pairs)) ==> let_go(
                self.files().union(two_files(task.files)),
                pair_files(pairs@),
                final(storage),
            ),
            r matches Ok(SplitNext::Need(s, ranges)) ==> s.ok(params, final(storage), task.files)
                && s.waiting() && s.files() == self.files() && *final(storage) == *old(storage)
                && (forall|data: Seq<u8>|
                is_content(
                    final(storage).disk(),
                    blocks_of(ranges@),
                    data,
                    final(storage).size() as int,
                ) ==> #[trigger] s.expects(data)),
            r matches Ok(SplitNext::Again(s)) ==> s.ok(params, final(storage), task.files) && (
            forall|f: u64| #[trigger]
                s.files().contains(f) ==> self.files().contains(f) || !old(storage).has_file(f))
                && untouched(old(storage), final(storage), self.files()),
            r matches Ok(SplitNext::Children(pairs)) ==> pairs_ok(
                pairs@,
                final(storage),
                params.left_len as nat,
                params.right_len as nat,
            ) && pair_files(pairs@).subset_of(self.files()),
            forall|left: Seq<Seq<Value>>, right: Seq<Seq<Value>>|
                Some(left) == run_of(old(storage), task.files.left.0) && Some(right) == run_of(
                    old(storage),
                    task.files.right.0,
                ) && #[trigger] self.good(params, left, right) ==> match r {
                    Ok(SplitNext::Need(s, _)) => s.good(params, left, right),
                    Ok(SplitNext::Again(s)) => s.good(params, left, right),
                    Ok(SplitNext::Children(pairs)) => pairs_join(
                        params@,
                        final(storage),
                        pairs@,
                    ) == join_of(params@, left, right),
                    Err(e) => out_of_room(e, final(storage)) && !old(storage).roomy(
                        SPLIT_PAGES as nat,
                    ),
                },
            forall|left: Seq<Seq<Value>>, right: Seq<Seq<Value>>|
                Some(left) == run_of(old(storage), task.files.left.0) && Some(right) == run_of(
                    old(storage),
                    task.files.right.0,
                ) && #[trigger] self.good(params, left, right) && decided(params@, left, right)
                    ==> (r matches Ok(SplitNext::Children(pairs)) ==> pairs_decided(
                    params@,
                    final(storage),
                    pairs@,
                )),
    {
        proof {
            if storage.roomy(SPLIT_PAGES as nat) {
                storage.roomy_for_fewer(SPLIT_PAGES as nat, self.splitter.batch());
                storage.roomy_for_fewer(SPLIT_PAGES as nat, MAX_BATCH_PAGES as nat);
            }
        }
        let ghost pair = task.files;
        let ghost mine = self.files().union(two_files(pair));
        let ghost s0 = *storage;
        let mut this = self;
        let ghost before = this.reader.remaining();
        proof {
            this.splitter.inv_gives(params, storage);
            untouched_same(&s0, &s0, mine);
            untouched_same(&s0, &s0, self.files());
        }
        let read = match this.reader.next_row(storage) {
            Ok(s) => s,
            Err(e) => {
                return Err(e);
            },
        };
        match read {
            ReadStep::Need(ranges) => {
                proof {
                    not_farther_if(this.left_to_do(), self.left_to_do());
                }
                Ok(SplitNext::Need(this, ranges))
            },
            ReadStep::Row(row) => {
                let left = this.on_left;
                let ghost len = params.build_len(left);
                let ghost rv = row@;
                match params.check_len(left, &row) {
                    Ok(_) => {},
                    Err(e) => {
                        return Err(e);
                    },
                }
                let ghost sp0 = this.splitter;
                let r = if left {
                    this.splitter.add_left(params, &row, storage)
                } else {
                    this.splitter.add_right(params, &row, storage)
                };
                proof {
                    untouched_more(&s0, storage, sp0.files(), mine);
                    untouched_file(&s0, storage, sp0.files(), 0);
                }
                match r {
                    Ok(_) => {},
                    Err(e) => {
                        return Err(e);
                    },
                }
                proof {
                    untouched_file(&s0, storage, sp0.files(), this.reader.file());
                    lemma_two_files(pair, this.reader.file());
                    assert(this.splitter.files().disjoint(two_files(pair))) by {
                        assert forall|f: u64| #[trigger]
                            this.splitter.files().contains(f) implies !two_files(
                            pair,
                        ).contains(f) by {
                            lemma_two_files(pair, f);
                            if !sp0.files().contains(f) {
                                assert(!s0.has_file(f));
                            }
                        }
                    }
                    assert forall|ls: Seq<Seq<Value>>, rs: Seq<Seq<Value>>| #[trigger]
                        self.good(params, ls, rs) implies this.good(params, ls, rs) by {
                        lemma_all_len_drop(before, len);
                        if left {
                            assert(sp0.left().push(rv) + before.drop_first() =~= sp0.left()
                                + before);
                        } else {
                            assert(sp0.right().push(rv) + before.drop_first() =~= sp0.right()
                                + before);
                        }
                    }
                }
                proof {
                    nearer_at(this.left_to_do(), self.left_to_do(), 1);
                }
                Ok(SplitNext::Again(this))
            },
            ReadStep::End => {
                if this.on_left {
                    let reader = match TempRunReader::with_batch_pages(
                        storage,
                        task.files.right,
                        HASH_JOIN_BUILD_READER_PAGES,
                    ) {
                        Ok(r) => r,
                        Err(e) => {
                            return Err(e);
                        },
                    };
                    let next = Repartition { splitter: this.splitter, reader, on_left: false };
                    proof {
                        assert forall|ls: Seq<Seq<Value>>, rs: Seq<Seq<Value>>|
                            Some(ls) == run_of(&s0, pair.left.0) && Some(rs) == run_of(
                                &s0,
                                pair.right.0,
                            ) && #[trigger] self.good(params, ls, rs) implies next.good(
                            params,
                            ls,
                            rs,
                        ) by {
                            assert(this.splitter.left() + before =~= this.splitter.left());
                            assert(next.splitter.right() + reader.remaining()
                                =~= reader.remaining());
                        }
                    }
                    proof {
                        nearer_at(next.left_to_do(), self.left_to_do(), 0);
                    }
                    return Ok(SplitNext::Again(next));
                }
                let d = cleanup_task(task.files, storage);
                proof {
                    assert(s0.roomy(SPLIT_PAGES as nat) ==> storage.roomy(SPLIT_PAGES as nat));
                }
                let ghost s1 = *storage;
                proof {
                    untouched_more(&s0, &s1, two_files(pair), mine);
                    this.splitter.inv_kept(params, &s0, &s1, two_files(pair));
                }
                let ghost sp = this.splitter;
                let r = this.splitter.finish(params, storage);
                proof {
                    untouched_more(&s1, storage, sp.files(), mine);
                    untouched_twice(&s0, &s1, storage, mine, mine);
                    assert forall|ls: Seq<Seq<Value>>, rs: Seq<Seq<Value>>| #[trigger]
                        self.good(params, ls, rs) implies sp.left() == ls && sp.right() == rs by {
                        assert(sp.right() + before =~= sp.right());
                    }
                }
                proof {
                    if r is Ok {
                        assert forall|f: u64| #[trigger]
                            mine.contains(f) && !pair_files(
                                r->Ok_0@,
                            ).contains(f) implies !storage.has_file(f) by {
                            lemma_two_files(pair, f);
                            if two_files(pair).contains(f) {
                                assert(!s1.has_file(f));
                            } else {
                                assert(sp.files().contains(f));
                            }
                        }
                    }
                }
                match r {
                    Ok(pairs) => Ok(SplitNext::Children(pairs)),
                    Err(e) => Err(e),
                }
            },
        }
    }

    fn supply(&mut self, data: Vec<u8>) -> (r: Result<(), DbError>)
        requires
            old(self).waiting(),
            exists|params: &JoinParams, s: &TempStorageManager, pair: FilePair| #[trigger]
                old(self).ok(params, s, pair),
        ensures
            final(self).files() == old(self).files(),
            forall|params: &JoinParams, s: &TempStorageManager, pair: FilePair| #[trigger]
                old(self).ok(params, s, pair) ==> final(self).ok(params, s, pair),
            forall|params: &JoinParams, ls: Seq<Seq<Value>>, rs: Seq<Seq<Value>>|
                r is Ok && old(self).expects(data@) && #[trigger] old(self).good(params, ls, rs)
                    ==> final(self).good(params, ls, rs),
            old(self).expects(data@) ==> r is Ok,
            r is Ok ==> nearer(final(self).left_to_do(), old(self).left_to_do()),
    {
        let r = self.reader.supply(data);
        proof {
            if r is Ok {
                nearer_at(self.left_to_do(), old(self).left_to_do(), 1);
            }
        }
        r
    }
}

/// What a step of a partition does to what is left to do of it, and to its files.
pub open spec fn goes_on(
    r: Result<ActiveNext, DbError>,
    before: ActivePartition,
    storage: &TempStorageManager,
) -> bool {
    match r {
        Ok(ActiveNext::Need(a, _)) => not_farther(a.left_to_do(), before.left_to_do()),
        Ok(ActiveNext::Again(a)) => nearer(a.left_to_do(), before.left_to_do())
            && before.files().subset_of(a.files()),
        Ok(ActiveNext::Rows(a, _)) => nearer(a.left_to_do(), before.left_to_do()),
        Ok(ActiveNext::Finished) => let_go(before.files(), Set::empty(), storage),
        Ok(ActiveNext::Children(pairs)) => let_go(before.files(), pair_files(pairs@), storage),
        Err(_) => true,
    }
}

impl ActivePartition {
    /// How much is left to do.
    pub open spec fn left_to_do(&self) -> Seq<nat> {
        match self.kind {
            ActiveKind::Load(l) => seq![2nat, l.left_to_do(), 0nat, 0nat],
            ActiveKind::Hash(h) => seq![1nat, h.left_to_do(), 0nat, 0nat],
            ActiveKind::Nested(n) => seq![1nat] + n.left_to_do(),
            ActiveKind::Split(s) => seq![1nat] + s.left_to_do(),
        }
    }

    pub proof fn left_is_four(&self)
        ensures
            self.left_to_do().len() == 4,
    {
        match self.kind {
            ActiveKind::Nested(n) => {
                n.left_is_three();
            },
            ActiveKind::Split(s) => {
                s.left_is_three();
            },
            _ => {},
        }
    }

    /// The files that the partition uses.
    pub open spec fn files(&self) -> Set<u64> {
        match self.kind {
            ActiveKind::Split(s) => s.files().union(two_files(self.task.files)),
            _ => two_files(self.task.files),
        }
    }

    pub open spec fn waiting(&self) -> bool {
        match self.kind {
            ActiveKind::Load(l) => l.waiting(),
            ActiveKind::Hash(h) => h.waiting(),
            ActiveKind::Nested(n) => n.waiting(),
            ActiveKind::Split(s) => s.waiting(),
        }
    }

    pub open spec fn expects(&self, data: Seq<u8>) -> bool {
        match self.kind {
            ActiveKind::Load(l) => l.expects(data),
            ActiveKind::Hash(h) => h.expects(data),
            ActiveKind::Nested(n) => n.expects(data),
            ActiveKind::Split(s) => s.expects(data),
        }
    }

    pub open spec fn kind_ok(&self, params: &JoinParams, storage: &TempStorageManager) -> bool {
        let pair = self.task.files;
        match self.kind {
            ActiveKind::Load(l) => l.ok(params, storage) && l.file() == (if l.build_side() {
                pair.left.0
            } else {
                pair.right.0
            }),
            ActiveKind::Hash(h) => h.ok(params, storage) && two_files(pair).contains(h.file()),
            ActiveKind::Nested(n) => n.ok(params, storage) && two_files(pair).contains(
                n.inner_run(),
            ) && two_files(pair).contains(n.outer_run()),
            ActiveKind::Split(s) => s.ok(params, storage, pair) && s.files().disjoint(
                two_files(pair),
            ) && self.task.depth < HASH_JOIN_MAX_REPARTITION_DEPTH,
        }
    }

    pub open spec fn ok(&self, params: &JoinParams, storage: &TempStorageManager) -> bool {
        &&& params.inv()
        &&& storage.inv()
        &&& pair_ok(
            self.task.files,
            storage,
            params.left_len as nat,
            params.right_len as nat,
        )
        &&& self.kind_ok(params, storage)
    }

    pub open spec fn good(&self, params: &JoinParams, storage: &TempStorageManager) -> bool {
        let left = run_of(storage, self.task.files.left.0)->0;
        let right = run_of(storage, self.task.files.right.0)->0;
        match self.kind {
            ActiveKind::Load(l) => l.good(
                params,
                if l.build_side() {
                    left
                } else {
                    right
                },
            ),
            ActiveKind::Hash(h) => h.good(params) && (decided(params@, left, right) ==> h.safe(
                params@,
            )),
            ActiveKind::Nested(n) => n.good(params) && (decided(params@, left, right) ==> n.safe(
                params@,
                storage,
            )),
            ActiveKind::Split(s) => s.good(params, left, right),
        }
    }

    /// What is still to be found.
    pub open spec fn rest(&self, on: JoinOn, storage: &TempStorageManager) -> Multiset<Seq<Value>> {
        match self.kind {
            ActiveKind::Load(_) | ActiveKind::Split(_) => pair_join(on, storage, self.task.files),
            ActiveKind::Hash(h) => h.rest(on),
            ActiveKind::Nested(n) => n.rest(on, storage),
        }
    }

    /// A partition depends on its own files alone.
    pub proof fn ok_kept(
        &self,
        params: &JoinParams,
        before: &TempStorageManager,
        after: &TempStorageManager,
        touched: Set<u64>,
    )
        requires
            self.ok(params, before),
            after.inv(),
            unharmed(before, after, touched),
            touched.disjoint(self.files()),
        ensures
            self.ok(params, after),
            self.good(params, after) == self.good(params, before),
            self.rest(params@, after) == self.rest(params@, before),
            pair_decided(params@, after, self.task.files) == pair_decided(
                params@,
                before,
                self.task.files,
            ),
    {
        let pair = self.task.files;
        lemma_two_files(pair, pair.left.0);
        lemma_two_files(pair, pair.right.0);
        assert(self.files().contains(pair.left.0));
        assert(self.files().contains(pair.right.0));
        untouched_file(before, after, touched, pair.left.0);
        untouched_file(before, after, touched, pair.right.0);
        match self.kind {
            ActiveKind::Load(l) => {
                l.ok_kept(params, before, after);
            },
            ActiveKind::Hash(h) => {
                lemma_two_files(pair, h.file());
                h.ok_kept(params, before, after);
            },
            ActiveKind::Nested(n) => {
                lemma_two_files(pair, n.inner_run());
                lemma_two_files(pair, n.outer_run());
                n.ok_kept(params, before, after);
            },
            ActiveKind::Split(s) => {
                assert(touched.disjoint(s.files()));
                assert(touched.disjoint(two_files(pair)));
                s.ok_kept(params, before, after, pair, touched);
            },
        }
    }

    pub proof fn ok_gives(&self, params: &JoinParams, storage: &TempStorageManager)
        requires
            self.ok(params, storage),
        ensures
            forall|f: u64| #[trigger] self.files().contains(f) ==> storage.has_file(f),
    {
        if let ActiveKind::Split(s) = self.kind {
            s.ok_gives(params, storage, self.task.files);
        }
        assert forall|f: u64| #[trigger] self.files().contains(f) implies storage.has_file(f) by {
            lemma_two_files(self.task.files, f);
        }
    }

    /// Whether a partition's build side is so large that it is split before it is tried: more
    /// than twice the budget.
    fn too_large(build_pages: u64, block_size: usize, budget: usize) -> (r: bool)
        ensures
            r == (crate::join_plan::saturated(2 * budget) < (if build_pages * block_size
                > u64::MAX {
                u64::MAX as int
            } else {
                build_pages * block_size
            })),
    {
        let bytes: u64 = match build_pages.checked_mul(block_size as u64) {
            Some(n) => n,
            None => u64::MAX,
        };
        let limit: usize = match budget.checked_mul(2) {
            Some(n) => n,
            None => usize::MAX,
        };
        bytes > limit as u64
    }

    fn start_split(
        task: PartitionTask,
        params: &JoinParams,
        sort_run_bytes: usize,
        storage: &TempStorageManager,
    ) -> (r: Result<ActivePartition, DbError>)
        requires
            params.inv(),
            storage.inv(),
            pair_ok(
                task.files,
                storage,
                params.left_len as nat,
                params.right_len as nat,
            ),
            task.depth < HASH_JOIN_MAX_REPARTITION_DEPTH,
        ensures
            r matches Ok(a) ==> a.task == task && a.ok(params, storage) && a.good(params, storage)
                && a.files() == two_files(task.files) && a.rest(params@, storage) == pair_join(
                params@,
                storage,
                task.files,
            ),
            r matches Ok(a) ==> a.kind is Split,
            r matches Err(e) ==> out_of_room(e, storage),
    {
        match Repartition::start(task, params, sort_run_bytes, storage) {
            Ok(s) => {
                let a = ActivePartition { task, kind: ActiveKind::Split(s) };
                assert(a.files() =~= two_files(task.files));
                Ok(a)
            },
            Err(e) => Err(e),
        }
    }

    fn start_nested(
        task: PartitionTask,
        params: &JoinParams,
        sort_run_bytes: usize,
        storage: &TempStorageManager,
    ) -> (r: Result<ActivePartition, DbError>)
        requires
            params.inv(),
            storage.inv(),
            pair_ok(
                task.files,
                storage,
                params.left_len as nat,
                params.right_len as nat,
            ),
        ensures
            r matches Ok(a) ==> a.task == task && a.ok(params, storage) && a.good(params, storage)
                && a.files() == two_files(task.files) && a.rest(params@, storage) == pair_join(
                params@,
                storage,
                task.files,
            ),
            r matches Ok(a) ==> a.kind is Nested,
            r matches Err(e) ==> out_of_room(e, storage),
    {
        let left_pages: u64 = match storage.num_pages(task.files.left) {
            Ok(n) => n,
            Err(e) => {
                return Err(e);
            },
        };
        let right_pages: u64 = match storage.num_pages(task.files.right) {
            Ok(n) => n,
            Err(e) => {
                return Err(e);
            },
        };
        let inner_is_left = left_pages <= right_pages;
        let (inner_file, outer_file) = if inner_is_left {
            (task.files.left, task.files.right)
        } else {
            (task.files.right, task.files.left)
        };
        let outer = match TempRunReader::with_batch_pages(
            storage,
            outer_file,
            HASH_JOIN_PROBE_READER_PAGES,
        ) {
            Ok(r) => r,
            Err(e) => {
                return Err(e);
            },
        };
        let target: usize = choose_bnlj_outer_batch_bytes(sort_run_bytes, storage.block_size());
        let n = NestedLoop::new(inner_file, inner_is_left, outer, target, params, storage);
        Ok(ActivePartition { task, kind: ActiveKind::Nested(n) })
    }

    /// Takes a partition up: its build side is the one with fewer pages. It is loaded, unless it
    /// is so large that the partition is split right away.
    pub fn prepare_task(
        task: PartitionTask,
        params: &JoinParams,
        sort_run_bytes: usize,
        storage: &TempStorageManager,
    ) -> (r: Result<ActivePartition, DbError>)
        requires
            params.inv(),
            storage.inv(),
            pair_ok(
                task.files,
                storage,
                params.left_len as nat,
                params.right_len as nat,
            ),
        ensures
            r matches Ok(a) ==> a.task == task && a.ok(params, storage) && a.good(params, storage)
                && a.files() == two_files(task.files) && a.rest(params@, storage) == pair_join(
                params@,
                storage,
                task.files,
            ),
            r matches Err(e) ==> out_of_room(e, storage),
    {
        let block_size: usize = storage.block_size();
        let budget: usize = choose_hash_build_budget_bytes(sort_run_bytes, block_size);
        let left_pages: u64 = match storage.num_pages(task.files.left) {
            Ok(n) => n,
            Err(e) => {
                return Err(e);
            },
        };
        let right_pages: u64 = match storage.num_pages(task.files.right) {
            Ok(n) => n,
            Err(e) => {
                return Err(e);
            },
        };
        let build_is_left = left_pages <= right_pages;
        let (build_file, build_pages) = if build_is_left {
            (task.files.left, left_pages)
        } else {
            (task.files.right, right_pages)
        };
        if Self::too_large(build_pages, block_size, budget) && task.depth
            < HASH_JOIN_MAX_REPARTITION_DEPTH {
            return Self::start_split(task, params, sort_run_bytes, storage);
        }
        let reader = match TempRunReader::with_batch_pages(
            storage,
            build_file,
            HASH_JOIN_BUILD_READER_PAGES,
        ) {
            Ok(r) => r,
            Err(e) => {
                return Err(e);
            },
        };
        let load = BuildLoad::new(reader, build_is_left, budget, params, storage);
        Ok(ActivePartition { task, kind: ActiveKind::Load(load) })
    }

    /// Does some of the partition's work.
    #[verifier::rlimit(60)]
    #[verifier::spinoff_prover]
    pub fn step(
        self,
        params: &JoinParams,
        sort_run_bytes: usize,
        storage: &mut TempStorageManager,
    ) -> (r: Result<ActiveNext, DbError>)
        requires
            self.ok(params, old(storage)),
        ensures
            final(storage).inv(),
            untouched(old(storage), final(storage), self.files()),
            goes_on(r, self, final(storage)),
            r matches Ok(next) ==> next is Finished || next is Children || (run_of(
                final(storage),
                self.task.files.left.0,
            ) == run_of(old(storage), self.task.files.left.0) && run_of(
                final(storage),
                self.task.files.right.0,
            ) == run_of(old(storage), self.task.files.right.0)),
            self.good(params, old(storage)) && old(storage).roomy(SPLIT_PAGES as nat)
                && pair_decided(params@, old(storage), self.task.files) ==> r is Ok,
            r matches Ok(ActiveNext::Children(pairs)) ==> self.good(params, old(storage))
                && pair_decided(params@, old(storage), self.task.files) ==> pairs_decided(
                params@,
                final(storage),
                pairs@,
            ),
            r matches Ok(ActiveNext::Need(a, ranges)) ==> a.task == self.task && a.ok(
                params,
                final(storage),
            ) && a.waiting() && a.files() == self.files() && (forall|data: Seq<u8>|
                is_content(
                    final(storage).disk(),
                    blocks_of(ranges@),
                    data,
                    final(storage).size() as int,
                ) ==> #[trigger] a.expects(data)),
            r matches Ok(ActiveNext::Again(a)) ==> a.task == self.task && a.ok(
                params,
                final(storage),
            ) && (forall|f: u64| #[trigger]
                a.files().contains(f) ==> self.files().contains(f) || !old(storage).has_file(f)),
            r matches Ok(ActiveNext::Rows(a, rows)) ==> a.task == self.task && a.ok(
                params,
                final(storage),
            ) && a.files() == self.files(),
            r matches Ok(ActiveNext::Children(pairs)) ==> pairs_ok(
                pairs@,
                final(storage),
                params.left_len as nat,
                params.right_len as nat,
            ) && pair_files(pairs@).subset_of(self.files()),
            r matches Ok(ActiveNext::Children(_)) ==> self.task.depth
                < HASH_JOIN_MAX_REPARTITION_DEPTH,
            self.good(params, old(storage)) ==> match r {
                Ok(ActiveNext::Need(a, _)) => a.good(params, final(storage)) && a.rest(
                    params@,
                    final(storage),
                ) == self.rest(params@, old(storage)),
                Ok(ActiveNext::Again(a)) => a.good(params, final(storage)) && a.rest(
                    params@,
                    final(storage),
                ) == self.rest(params@, old(storage)),
                Ok(ActiveNext::Rows(a, rows)) => a.good(params, final(storage)) && self.rest(
                    params@,
                    old(storage),
                ) == bag(rows@).add(a.rest(params@, final(storage))),
                Ok(ActiveNext::Finished) => self.rest(params@, old(storage)) == Multiset::<
                    Seq<Value>,
                >::empty(),
                Ok(ActiveNext::Children(pairs)) => pairs_join(params@, final(storage), pairs@)
                    == self.rest(params@, old(storage)),
                Err(e) => out_of_room(e, final(storage)) || undecided(
                    params@,
                    e,
                    run_of(old(storage), self.task.files.left.0)->0,
                    run_of(old(storage), self.task.files.right.0)->0,
                ),
            },
    {
        let ghost s0 = *storage;
        let ghost mine = self.files();
        let ghost on = params@;
        let task = self.task;
        let ghost pair = task.files;
        proof {
            if s0.roomy(SPLIT_PAGES as nat) {
                s0.roomy_for_fewer(SPLIT_PAGES as nat, MAX_BATCH_PAGES as nat);
            }
            untouched_same(&s0, &s0, mine);
            lemma_two_files(pair, pair.left.0);
            lemma_two_files(pair, pair.right.0);
        }
        match self.kind {
            ActiveKind::Load(load) => {
                let mut load = load;
                let step = match load.step(params, storage) {
                    Ok(s) => s,
                    Err(e) => {
                        return Err(e);
                    },
                };
                match step {
                    LoadStep::Need(ranges) => {
                        let a = ActivePartition { task, kind: ActiveKind::Load(load) };
                        proof {
                            not_farther_if(a.left_to_do(), self.left_to_do());
                        }
                        Ok(ActiveNext::Need(a, ranges))
                    },
                    LoadStep::Again => {
                        let a = ActivePartition { task, kind: ActiveKind::Load(load) };
                        proof {
                            nearer_at(a.left_to_do(), self.left_to_do(), 1);
                        }
                        Ok(ActiveNext::Again(a))
                    },
                    LoadStep::Overflow => {
                        let next = if task.depth < HASH_JOIN_MAX_REPARTITION_DEPTH {
                            Self::start_split(task, params, sort_run_bytes, storage)
                        } else {
                            Self::start_nested(task, params, sort_run_bytes, storage)
                        };
                        match next {
                            Ok(a) => {
                                proof {
                                    a.left_is_four();
                                    nearer_at(a.left_to_do(), self.left_to_do(), 0);
                                }
                                Ok(ActiveNext::Again(a))
                            },
                            Err(e) => Err(e),
                        }
                    },
                    LoadStep::Loaded => {
                        let build_is_left = load.is_build_left();
                        let probe_file = if build_is_left {
                            task.files.right
                        } else {
                            task.files.left
                        };
                        let reader = match TempRunReader::with_batch_pages(
                            storage,
                            probe_file,
                            HASH_JOIN_PROBE_READER_PAGES,
                        ) {
                            Ok(r) => r,
                            Err(e) => {
                                return Err(e);
                            },
                        };
                        let ghost loaded = load;
                        assert(loaded.ok(params, &s0));
                        let table = load.into_table();
                        let h = HashProbe::new(table, reader, build_is_left, params, storage);
                        let a = ActivePartition { task, kind: ActiveKind::Hash(h) };
                        proof {
                            nearer_at(a.left_to_do(), self.left_to_do(), 0);
                        }
                        Ok(ActiveNext::Again(a))
                    },
                }
            },
            ActiveKind::Hash(h) => {
                let mut h = h;
                let step = match h.step(params, storage) {
                    Ok(s) => s,
                    Err(e) => {
                        return Err(e);
                    },
                };
                match step {
                    PartStep::Need(ranges) => {
                        let a = ActivePartition { task, kind: ActiveKind::Hash(h) };
                        proof {
                            not_farther_if(a.left_to_do(), self.left_to_do());
                        }
                        Ok(ActiveNext::Need(a, ranges))
                    },
                    PartStep::Again => {
                        let a = ActivePartition { task, kind: ActiveKind::Hash(h) };
                        Ok(ActiveNext::Again(a))
                    },
                    PartStep::Rows(rows) => {
                        let a = ActivePartition { task, kind: ActiveKind::Hash(h) };
                        proof {
                            nearer_at(a.left_to_do(), self.left_to_do(), 1);
                        }
                        Ok(ActiveNext::Rows(a, rows))
                    },
                    PartStep::Finished => {
                        let c = cleanup_task(task.files, storage);
                        proof {
                            assert forall|f: u64| #[trigger]
                                mine.contains(f) implies !storage.has_file(f) by {
                                lemma_two_files(pair, f);
                            }
                        }
                        Ok(ActiveNext::Finished)
                    },
                }
            },
            ActiveKind::Nested(n) => {
                let mut n = n;
                let ghost n0 = n;
                let step = match n.step(params, storage) {
                    Ok(s) => s,
                    Err(e) => {
                        return Err(e);
                    },
                };
                let ghost one = seq![1nat];
                proof {
                    n.left_is_three();
                    n0.left_is_three();
                    if step is Again || step is Rows || (step is Need && n.left_to_do()
                        != n0.left_to_do()) {
                        nearer_back(one, n.left_to_do(), n0.left_to_do());
                    }
                }
                match step {
                    PartStep::Need(ranges) => Ok(
                        ActiveNext::Need(
                            ActivePartition { task, kind: ActiveKind::Nested(n) },
                            ranges,
                        ),
                    ),
                    PartStep::Again => Ok(
                        ActiveNext::Again(ActivePartition { task, kind: ActiveKind::Nested(n) }),
                    ),
                    PartStep::Rows(rows) => Ok(
                        ActiveNext::Rows(
                            ActivePartition { task, kind: ActiveKind::Nested(n) },
                            rows,
                        ),
                    ),
                    PartStep::Finished => {
                        let c = cleanup_task(task.files, storage);
                        proof {
                            assert forall|f: u64| #[trigger]
                                mine.contains(f) implies !storage.has_file(f) by {
                                lemma_two_files(pair, f);
                            }
                        }
                        Ok(ActiveNext::Finished)
                    },
                }
            },
            ActiveKind::Split(sp) => {
                let ghost sp0 = sp;
                let ghost left = run_of(&s0, pair.left.0)->0;
                let ghost right = run_of(&s0, pair.right.0)->0;
                let next = match sp.step(task, params, storage) {
                    Ok(n) => n,
                    Err(e) => {
                        return Err(e);
                    },
                };
                let ghost one = seq![1nat];
                match next {
                    SplitNext::Need(s, ranges) => {
                        proof {
                            if s.left_to_do() != sp0.left_to_do() {
                                nearer_back(one, s.left_to_do(), sp0.left_to_do());
                            }
                        }
                        Ok(
                            ActiveNext::Need(
                                ActivePartition { task, kind: ActiveKind::Split(s) },
                                ranges,
                            ),
                        )
                    },
                    SplitNext::Again(s) => {
                        proof {
                            nearer_back(one, s.left_to_do(), sp0.left_to_do());
                            untouched_file(&s0, storage, sp0.files(), pair.left.0);
                            untouched_file(&s0, storage, sp0.files(), pair.right.0);
                            assert(s.files().disjoint(two_files(pair))) by {
                                assert forall|f: u64| #[trigger]
                                    s.files().contains(f) implies !two_files(pair).contains(f) by {
                                    lemma_two_files(pair, f);
                                }
                            }
                            assert(s0.same_file(storage, pair.left.0));
                            assert(s0.same_file(storage, pair.right.0));
                        }
                        Ok(ActiveNext::Again(ActivePartition { task, kind: ActiveKind::Split(s) }))
                    },
                    SplitNext::Children(pairs) => Ok(ActiveNext::Children(pairs)),
                }
            },
        }
    }

    /// Takes the data that was asked for.
    pub fn supply(&mut self, data: Vec<u8>) -> (r: Result<(), DbError>)
        requires
            old(self).waiting(),
            exists|params: &JoinParams, s: &TempStorageManager| #[trigger] old(self).ok(params, s),
        ensures
            final(self).task == old(self).task,
            r is Ok ==> final(self).files() == old(self).files(),
            r is Ok ==> forall|params: &JoinParams, s: &TempStorageManager| #[trigger]
                old(self).ok(params, s) ==> final(self).ok(params, s),
            r is Ok && old(self).expects(data@) ==> forall|
                params: &JoinParams,
                s: &TempStorageManager,
            |
                #[trigger] old(self).good(params, s) ==> final(self).good(params, s)
                    && final(self).rest(params@, s) == old(self).rest(params@, s),
            old(self).expects(data@) ==> r is Ok,
            r is Ok ==> nearer(final(self).left_to_do(), old(self).left_to_do()),
    {
        let ghost before = *self;
        let ghost one = seq![1nat];
        let ghost (gp, gs) = choose|params: &JoinParams, s: &TempStorageManager| #[trigger]
            before.ok(params, s);
        let r = match &mut self.kind {
            ActiveKind::Load(l) => l.supply(data),
            ActiveKind::Hash(h) => h.supply(data),
            ActiveKind::Nested(n) => n.supply(data),
            ActiveKind::Split(s) => s.supply(data),
        };
        proof {
            if r is Ok {
                if self.kind is Nested {
                    nearer_back(
                        one,
                        self.kind->Nested_0.left_to_do(),
                        before.kind->Nested_0.left_to_do(),
                    );
                } else if self.kind is Split {
                    nearer_back(
                        one,
                        self.kind->Split_0.left_to_do(),
                        before.kind->Split_0.left_to_do(),
                    );
                } else {
                    nearer_at(self.left_to_do(), before.left_to_do(), 1);
                }
            }
        }
        r
    }
}

} // verus!

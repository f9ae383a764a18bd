//! The Grace hash join.
//!
//! Both inputs are split into partitions by the hash of their keys, and the partitions are
//! joined one after the other.

use std::collections::VecDeque;
use vstd::multiset::Multiset;
use vstd::prelude::*;
use crate::active_partition::{ActiveNext, ActivePartition, PartitionTask, next_salt};
use crate::bloom::BloomFilter;
use crate::error::DbError;
use crate::filter::{first_missing_column, resolve_predicates, resolved};
use crate::join_plan::{HASH_JOIN_MAX_REPARTITION_DEPTH, MAX_HASH_JOIN_PARTITIONS, SPLIT_PAGES, choose_num_partitions, choose_writer_batch};
use crate::join_spec::{JoinOn, join_of};
use crate::join_step::{JoinStep, Side, step_nearer};
use crate::join_table::{JoinParams, all_len, decided, lemma_join_row_len, undecided};
use crate::pairs::{FilePair, lemma_decided_concat, lemma_decided_kept, lemma_decided_pop, lemma_pairs_concat, lemma_pairs_join_concat, lemma_pairs_kept, lemma_pairs_none, lemma_pairs_pop, lemma_pairs_present, pair_decided, pair_files, pairs_decided, pairs_join, pairs_ok};
use crate::partition_join::{bag, lemma_bag_empty, lemma_bag_pop};
use crate::query::{Condition, Predicate, conditions};
use crate::progress::{nearer, nearer_at, nearer_back, nearer_front, nearer_is_other, not_farther};
use crate::row::{Row, RowSchema, in_bounds};
use crate::splitter::Splitter;
use crate::temp_run::{blocks_of, cannot_store, fits_page, is_content};
use crate::temp_storage::{BlockRange, TempStorageManager, let_go, out_of_room, unharmed, untouched, untouched_more, untouched_same};
use crate::value::Value;
use crate::views::{positions, rows_of};

verus! {

struct ProbingState {
    tasks: VecDeque<PartitionTask>,
    active: Option<ActivePartition>,
    output_buf: Vec<Row>,
}

enum HashJoinState {
    NotStarted,
    PartitionLeft(Splitter),
    PartitionRight(Splitter),
    Probing(ProbingState),
    Done,
}

/// Joins two inputs on equal keys.
pub struct HashJoinOperator {
    params: JoinParams,
    merged_schema: RowSchema,
    sort_run_bytes: usize,
    state: HashJoinState,
    left_rows: Ghost<Seq<Seq<Value>>>,
    right_rows: Ghost<Seq<Seq<Value>>>,
    emitted: Ghost<Multiset<Seq<Value>>>,
    faithful: Ghost<bool>,
    failed: Ghost<bool>,
}

/// The files of some tasks.
pub open spec fn task_pairs(tasks: Seq<PartitionTask>) -> Seq<FilePair> {
    tasks.map_values(|t: PartitionTask| t.files)
}

impl ProbingState {
    spec fn pairs(&self) -> Seq<FilePair> {
        task_pairs(self.tasks@)
    }

    spec fn active_files(&self) -> Set<u64> {
        match self.active {
            Some(a) => a.files(),
            None => Set::empty(),
        }
    }

    spec fn files(&self) -> Set<u64> {
        self.active_files().union(pair_files(self.pairs()))
    }

    spec fn ok(&self, params: &JoinParams, storage: &TempStorageManager) -> bool {
        &&& pairs_ok(
            self.pairs(),
            storage,
            params.left_len as nat,
            params.right_len as nat,
        )
        &&& self.active matches Some(a) ==> a.ok(params, storage)
        &&& self.active_files().disjoint(pair_files(self.pairs()))
    }

    spec fn active_rest(&self, on: JoinOn, storage: &TempStorageManager) -> Multiset<Seq<Value>> {
        match self.active {
            Some(a) => a.rest(on, storage),
            None => Multiset::empty(),
        }
    }

    spec fn good(&self, params: &JoinParams, storage: &TempStorageManager) -> bool {
        self.active matches Some(a) ==> a.good(params, storage)
    }

    /// Whether all pairs that are still to be tested have answers.
    spec fn safe(&self, on: JoinOn, storage: &TempStorageManager) -> bool {
        &&& pairs_decided(on, storage, self.pairs())
        &&& self.active matches Some(a) ==> pair_decided(on, storage, a.task.files)
    }

    /// What is still to be given out.
    spec fn rest(&self, on: JoinOn, storage: &TempStorageManager) -> Multiset<Seq<Value>> {
        bag(self.output_buf@).add(self.active_rest(on, storage)).add(
            pairs_join(on, storage, self.pairs()),
        )
    }
}

/// How many tasks have a depth.
spec fn at_depth(tasks: Seq<PartitionTask>, depth: int) -> nat
    decreases tasks.len(),
{
    if tasks.len() == 0 {
        0
    } else {
        at_depth(tasks.drop_first(), depth) + (if tasks[0].depth == depth {
            1nat
        } else {
            0nat
        })
    }
}

proof fn lemma_at_depth_concat(a: Seq<PartitionTask>, b: Seq<PartitionTask>, depth: int)
    ensures
        at_depth(a + b, depth) == at_depth(a, depth) + at_depth(b, depth),
    decreases a.len(),
{
    if a.len() == 0 {
        assert(a + b =~= b);
    } else {
        assert((a + b).drop_first() =~= a.drop_first() + b);
        lemma_at_depth_concat(a.drop_first(), b, depth);
    }
}

proof fn lemma_none_at_depth(tasks: Seq<PartitionTask>, depth: int)
    requires
        forall|i: int| 0 <= i < tasks.len() ==> (#[trigger] tasks[i]).depth != depth,
    ensures
        at_depth(tasks, depth) == 0,
    decreases tasks.len(),
{
    if tasks.len() > 0 {
        assert forall|i: int| 0 <= i < tasks.drop_first().len() implies (
        #[trigger] tasks.drop_first()[i]).depth != depth by {
            assert(tasks.drop_first()[i] == tasks[i + 1]);
        }
        lemma_none_at_depth(tasks.drop_first(), depth);
    }
}

impl ProbingState {
    /// How many partitions of a depth are still to be joined.
    spec fn undone(&self, depth: int) -> nat {
        at_depth(self.tasks@, depth) + (match self.active {
            Some(a) if a.task.depth == depth => 1nat,
            _ => 0nat,
        })
    }

    spec fn shallow(&self) -> bool {
        &&& forall|i: int|
            0 <= i < self.tasks@.len() ==> (#[trigger] self.tasks@[i]).depth
                <= HASH_JOIN_MAX_REPARTITION_DEPTH
        &&& self.active matches Some(a) ==> a.task.depth <= HASH_JOIN_MAX_REPARTITION_DEPTH
    }

    /// How much is left to do: the partitions of each depth, whether one is still to be taken
    /// up, and of the one that is active.
    spec fn left_to_do(&self) -> Seq<nat> {
        let (idle, active) = match self.active {
            Some(a) => (0nat, a.left_to_do()),
            None => (1nat, seq![0nat, 0nat, 0nat, 0nat]),
        };
        seq![self.undone(0), self.undone(1), self.undone(2), self.undone(3), idle] + active
    }

    proof fn left_is_nine(&self)
        ensures
            self.left_to_do().len() == 9,
            self.left_to_do()[0] == self.undone(0),
            self.left_to_do()[1] == self.undone(1),
            self.left_to_do()[2] == self.undone(2),
            self.left_to_do()[3] == self.undone(3),
            self.left_to_do()[4] == (if self.active is Some {
                0nat
            } else {
                1nat
            }),
    {
        if let Some(a) = self.active {
            a.left_is_four();
        }
    }

    /// Work on the active partition is work.
    proof fn active_nearer(&self, before: &ProbingState)
        requires
            self.tasks@ == before.tasks@,
            self.active is Some,
            before.active is Some,
            self.active->0.task == before.active->0.task,
            not_farther(self.active->0.left_to_do(), before.active->0.left_to_do()),
        ensures
            not_farther(self.left_to_do(), before.left_to_do()),
            nearer(self.active->0.left_to_do(), before.active->0.left_to_do()) ==> nearer(
                self.left_to_do(),
                before.left_to_do(),
            ),
    {
        let front = seq![self.undone(0), self.undone(1), self.undone(2), self.undone(3), 0nat];
        let a = self.active->0.left_to_do();
        let b = before.active->0.left_to_do();
        assert(self.left_to_do() == front + a);
        assert(before.left_to_do() == front + b);
        if a != b {
            nearer_back(front, a, b);
        }
        if nearer(a, b) {
            nearer_back(front, a, b);
        }
    }

    /// A partition that is done leaves only deeper ones behind.
    proof fn done_nearer(&self, before: &ProbingState, children: Seq<PartitionTask>, depth: int)
        requires
            before.active is Some,
            before.active->0.task.depth == depth,
            0 <= depth <= 3,
            self.active is None,
            self.tasks@ == children + before.tasks@,
            forall|i: int| 0 <= i < children.len() ==> (#[trigger] children[i]).depth > depth,
        ensures
            nearer(self.left_to_do(), before.left_to_do()),
    {
        self.left_is_nine();
        before.left_is_nine();
        assert forall|d: int| 0 <= d <= depth implies #[trigger] self.undone(d) == before.undone(d)
            - (if d == depth {
            1int
        } else {
            0int
        }) by {
            lemma_at_depth_concat(children, before.tasks@, d);
            lemma_none_at_depth(children, d);
        }
        assert(self.undone(0) <= before.undone(0));
        assert(depth >= 1 ==> self.undone(1) <= before.undone(1));
        assert(depth >= 2 ==> self.undone(2) <= before.undone(2));
        assert(depth >= 3 ==> self.undone(3) <= before.undone(3));
        nearer_at(self.left_to_do(), before.left_to_do(), depth);
    }
}

impl ProbingState {
    /// A partition that is taken up is one less to be taken up.
    proof fn taken_nearer(&self, before: &ProbingState)
        requires
            before.shallow(),
            before.active is None,
            before.tasks@.len() > 0,
            self.tasks@ == before.tasks@.drop_first(),
            self.active is Some,
            self.active->0.task == before.tasks@[0],
        ensures
            self.shallow(),
            nearer(self.left_to_do(), before.left_to_do()),
    {
        self.left_is_nine();
        before.left_is_nine();
        assert forall|i: int| 0 <= i < self.tasks@.len() implies (#[trigger] self.tasks@[i]).depth
            <= HASH_JOIN_MAX_REPARTITION_DEPTH by {
            assert(self.tasks@[i] == before.tasks@[i + 1]);
        }
        assert(self.undone(0) == before.undone(0));
        assert(self.undone(1) == before.undone(1));
        assert(self.undone(2) == before.undone(2));
        assert(self.undone(3) == before.undone(3));
        nearer_at(self.left_to_do(), before.left_to_do(), 4);
    }

    /// A partition that is split leaves only deeper ones behind.
    proof fn split_nearer(&self, before: &ProbingState, n: int)
        requires
            before.shallow(),
            before.active is Some,
            before.active->0.task.depth < HASH_JOIN_MAX_REPARTITION_DEPTH,
            self.active is None,
            0 <= n <= self.tasks@.len(),
            self.tasks@.skip(n) == before.tasks@,
            forall|i: int|
                0 <= i < n ==> (#[trigger] self.tasks@[i]).depth == before.active->0.task.depth
                    + 1,
        ensures
            self.shallow(),
            nearer(self.left_to_do(), before.left_to_do()),
    {
        let children = self.tasks@.take(n);
        assert(self.tasks@ =~= children + before.tasks@);
        assert forall|i: int| 0 <= i < children.len() implies (#[trigger] children[i]).depth
            > before.active->0.task.depth by {
            assert(children[i] == self.tasks@[i]);
        }
        self.done_nearer(before, children, before.active->0.task.depth as int);
        assert forall|i: int| 0 <= i < self.tasks@.len() implies (#[trigger] self.tasks@[i]).depth
            <= HASH_JOIN_MAX_REPARTITION_DEPTH by {
            if i >= n {
                assert(self.tasks@[i] == before.tasks@[i - n]);
            }
        }
    }
}

proof fn lemma_task_pairs_pop(tasks: Seq<PartitionTask>)
    requires
        tasks.len() > 0,
    ensures
        task_pairs(tasks.drop_first()) == task_pairs(tasks).drop_first(),
        task_pairs(tasks)[0] == tasks[0].files,
        task_pairs(tasks).len() == tasks.len(),
{
    assert(task_pairs(tasks.drop_first()) =~= task_pairs(tasks).drop_first());
}

enum ProbeNext {
    Again(ProbingState),
    Need(ProbingState, Vec<BlockRange>),
    Exhausted,
}

/// The tasks for the partitions of the inputs.
fn first_tasks(pairs: &Vec<FilePair>) -> (r: VecDeque<PartitionTask>)
    ensures
        task_pairs(r@) == pairs@,
        forall|i: int| 0 <= i < r@.len() ==> (#[trigger] r@[i]).depth == 0 && r@[i].salt == 0,
{
    let mut tasks: VecDeque<PartitionTask> = VecDeque::new();
    let mut i: usize = 0;
    while i < pairs.len()
        invariant
            i <= pairs@.len(),
            tasks@.len() == i,
            forall|j: int|
                0 <= j < i ==> (#[trigger] tasks@[j]) == (PartitionTask {
                    files: pairs@[j],
                    depth: 0,
                    salt: 0,
                }),
        decreases pairs@.len() - i,
    {
        tasks.push_back(PartitionTask { files: pairs[i], depth: 0, salt: 0 });
        i += 1;
    }
    proof {
        assert(task_pairs(tasks@) =~= pairs@);
    }
    tasks
}

impl ProbingState {
    /// Puts the parts of a partition in front, the first one foremost.
    fn push_children(&mut self, parent: PartitionTask, pairs: &Vec<FilePair>)
        requires
            parent.depth < HASH_JOIN_MAX_REPARTITION_DEPTH,
        ensures
            final(self).pairs() == pairs@ + old(self).pairs(),
            final(self).tasks@.len() == pairs@.len() + old(self).tasks@.len(),
            final(self).tasks@.skip(pairs@.len() as int) == old(self).tasks@,
            final(self).active == old(self).active,
            final(self).output_buf == old(self).output_buf,
            forall|i: int|
                0 <= i < pairs@.len() ==> (#[trigger] final(self).tasks@[i]).depth == parent.depth
                    + 1 && final(self).tasks@[i].salt == next_salt(parent.salt, parent.depth + 1),
    {
        let ghost before = self.tasks@;
        let mut i: usize = pairs.len();
        while i > 0
            invariant
                i <= pairs@.len(),
                parent.depth < HASH_JOIN_MAX_REPARTITION_DEPTH,
                self.active == old(self).active,
                self.output_buf == old(self).output_buf,
                before == old(self).tasks@,
                self.tasks@.len() == pairs@.len() - i + before.len(),
                forall|j: int|
                    0 <= j < pairs@.len() - i ==> (#[trigger] self.tasks@[j]) == (PartitionTask {
                        files: pairs@[i + j],
                        depth: (parent.depth + 1) as usize,
                        salt: next_salt(parent.salt, parent.depth + 1),
                    }),
                forall|j: int|
                    pairs@.len() - i <= j < self.tasks@.len() ==> (#[trigger] self.tasks@[j])
                        == before[j - (pairs@.len() - i)],
            decreases i,
        {
            i -= 1;
            let ghost was = self.tasks@;
            self.tasks.push_front(parent.child(pairs[i]));
            proof {
                assert forall|j: int| 0 <= j < self.tasks@.len() - 1 implies self.tasks@[j + 1]
                    == #[trigger] was[j] by {}
                assert forall|j: int| 0 <= j < pairs@.len() - i implies (#[trigger] self.tasks@[j])
                    == (PartitionTask {
                    files: pairs@[i + j],
                    depth: (parent.depth + 1) as usize,
                    salt: next_salt(parent.salt, parent.depth + 1),
                }) by {
                    if j > 0 {
                        assert(self.tasks@[j] == was[j - 1]);
                    }
                }
                assert forall|j: int| pairs@.len() - i <= j < self.tasks@.len() implies (
                #[trigger] self.tasks@[j]) == before[j - (pairs@.len() - i)] by {
                    assert(self.tasks@[j] == was[j - 1]);
                }
            }
        }
        proof {
            assert(self.pairs() =~= pairs@ + old(self).pairs());
            assert(self.tasks@.skip(pairs@.len() as int) =~= before);
        }
    }

    /// Takes up the next partition, or does some work on the one that is active.
    #[verifier::rlimit(40)]
    fn work(
        self,
        params: &JoinParams,
        sort_run_bytes: usize,
        storage: &mut TempStorageManager,
    ) -> (r: Result<ProbeNext, DbError>)
        requires
            params.inv(),
            old(storage).inv(),
            self.ok(params, old(storage)),
            self.output_buf@.len() == 0,
        ensures
            final(storage).inv(),
            untouched(old(storage), final(storage), self.files()),
            self.good(params, old(storage)) && self.safe(params@, old(storage)) ==> match r {
                Ok(ProbeNext::Again(ps)) => ps.safe(params@, final(storage)),
                Ok(ProbeNext::Need(ps, _)) => ps.safe(params@, final(storage)),
                Ok(ProbeNext::Exhausted) => true,
                Err(_) => !old(storage).roomy(SPLIT_PAGES as nat),
            },
            match r {
                Ok(ProbeNext::Again(ps)) => {
                    &&& self.shallow() ==> ps.shallow() && nearer(
                        ps.left_to_do(),
                        self.left_to_do(),
                    )
                    &&& let_go(self.files(), ps.files(), final(storage))
                    &&& ps.ok(params, final(storage))
                    &&& forall|f: u64| #[trigger]
                        ps.files().contains(f) ==> self.files().contains(f) || !old(
                            storage,
                        ).has_file(f)
                    &&& self.good(params, old(storage)) ==> ps.good(params, final(storage))
                        && ps.rest(params@, final(storage)) == self.rest(params@, old(storage))
                },
                Ok(ProbeNext::Need(ps, ranges)) => {
                    &&& ps.output_buf@.len() == 0
                    &&& self.shallow() ==> ps.shallow() && not_farther(
                        ps.left_to_do(),
                        self.left_to_do(),
                    )
                    &&& let_go(self.files(), ps.files(), final(storage))
                    &&& ps.ok(params, final(storage))
                    &&& forall|f: u64| #[trigger]
                        ps.files().contains(f) ==> self.files().contains(f) || !old(
                            storage,
                        ).has_file(f)
                    &&& ps.active is Some
                    &&& ps.active->0.waiting()
                    &&& forall|data: Seq<u8>|
                        is_content(
                            final(storage).disk(),
                            blocks_of(ranges@),
                            data,
                            final(storage).size() as int,
                        ) ==> #[trigger] ps.active->0.expects(data)
                    &&& self.good(params, old(storage)) ==> ps.good(params, final(storage))
                        && ps.rest(params@, final(storage)) == self.rest(params@, old(storage))
                },
                Ok(ProbeNext::Exhausted) => {
                    &&& self.tasks@.len() == 0
                    &&& self.active is None
                    &&& self.files() == Set::<u64>::empty()
                    &&& self.rest(params@, old(storage)) == Multiset::<Seq<Value>>::empty()
                },
                Err(e) => self.good(params, old(storage)) ==> out_of_room(e, final(storage)) || (e
                    is IncomparableValues && !self.safe(params@, old(storage))),
            },
    {
        let ghost s0 = *storage;
        let ghost on = params@;
        let ghost left_len = params.left_len as nat;
        let ghost right_len = params.right_len as nat;
        let mut ps = self;
        let mut active: Option<ActivePartition> = None;
        core::mem::swap(&mut ps.active, &mut active);
        proof {
            lemma_bag_empty();
            lemma_pairs_none();
            assert(rows_of(self.output_buf@) =~= Seq::<Seq<Value>>::empty());
            untouched_same(&s0, storage, self.files());
        }
        match active {
            None => {
                proof {
                    if self.tasks@.len() > 0 {
                        if self.safe(on, storage) {
                            lemma_decided_pop(on, storage, self.pairs());
                        }
                        lemma_task_pairs_pop(self.tasks@);
                        lemma_pairs_pop(self.pairs(), storage, left_len, right_len);
                    }
                }
                let task = match ps.tasks.pop_front() {
                    Some(t) => t,
                    None => {
                        proof {
                            assert(self.rest(on, &s0) =~= Multiset::<Seq<Value>>::empty());
                        }
                        proof {
                            assert(self.pairs() =~= Seq::<FilePair>::empty());
                            assert(self.files() =~= Set::<u64>::empty());
                        }
                        return Ok(ProbeNext::Exhausted);
                    },
                };
                proof {
                    assert(ps.tasks@ =~= self.tasks@.drop_first());
                }
                match ActivePartition::prepare_task(task, params, sort_run_bytes, storage) {
                    Ok(a) => {
                        ps.active = Some(a);
                        proof {
                            assert(ps.rest(on, storage) =~= self.rest(on, &s0));
                            if self.shallow() {
                                ps.taken_nearer(&self);
                            }
                        }
                        Ok(ProbeNext::Again(ps))
                    },
                    Err(e) => Err(e),
                }
            },
            Some(a) => {
                let task = a.task;
                let ghost mine = a.files();
                let ghost theirs = pair_files(self.pairs());
                proof {
                    a.ok_gives(params, storage);
                    lemma_pairs_present(self.pairs(), storage, left_len, right_len);
                    assert(mine.disjoint(theirs));
                }
                let next = a.step(params, sort_run_bytes, storage);
                proof {
                    untouched_more(&s0, storage, mine, self.files());
                    lemma_pairs_kept(
                        on,
                        self.pairs(),
                        &s0,
                        storage,
                        mine,
                        left_len,
                        right_len,
                    );
                    if self.safe(on, &s0) {
                        lemma_decided_kept(on, self.pairs(), &s0, storage);
                    }
                }
                match next {
                    Ok(ActiveNext::Need(a, ranges)) => {
                        ps.active = Some(a);
                        proof {
                            ps.active_nearer(&self);
                        }
                        Ok(ProbeNext::Need(ps, ranges))
                    },
                    Ok(ActiveNext::Again(a)) => {
                        ps.active = Some(a);
                        proof {
                            ps.active_nearer(&self);
                            assert(a.files().disjoint(theirs));
                        }
                        Ok(ProbeNext::Again(ps))
                    },
                    Ok(ActiveNext::Rows(a, rows)) => {
                        ps.active = Some(a);
                        ps.output_buf = rows;
                        proof {
                            ps.active_nearer(&self);
                            if self.good(params, &s0) {
                                assert(ps.rest(on, storage) =~= self.rest(on, &s0));
                            }
                        }
                        Ok(ProbeNext::Again(ps))
                    },
                    Ok(ActiveNext::Finished) => {
                        proof {
                            let none = Seq::<PartitionTask>::empty();
                            assert(ps.tasks@ =~= none + self.tasks@);
                            if self.shallow() {
                                ps.done_nearer(&self, none, task.depth as int);
                            }
                        }
                        Ok(ProbeNext::Again(ps))
                    },
                    Ok(ActiveNext::Children(pairs)) => {
                        proof {
                            assert(pair_files(pairs@).disjoint(theirs));
                            lemma_pairs_concat(
                                pairs@,
                                self.pairs(),
                                storage,
                                left_len,
                                right_len,
                            );
                            lemma_pairs_join_concat(on, storage, pairs@, self.pairs());
                            if self.good(params, &s0) && self.safe(on, &s0) {
                                lemma_decided_concat(on, storage, pairs@, self.pairs());
                            }
                        }
                        ps.push_children(task, &pairs);
                        proof {
                            if self.shallow() {
                                ps.split_nearer(&self, pairs@.len() as int);
                            }
                            if self.good(params, &s0) {
                                assert(ps.rest(on, storage) =~= self.rest(on, &s0));
                            }
                        }
                        Ok(ProbeNext::Again(ps))
                    },
                    Err(e) => Err(e),
                }
            },
        }
    }
}

impl HashJoinOperator {
    /// What the rows are joined on.
    pub closed spec fn on(&self) -> JoinOn {
        self.params@
    }

    pub closed spec fn left_len(&self) -> nat {
        self.params.left_len as nat
    }

    pub closed spec fn right_len(&self) -> nat {
        self.params.right_len as nat
    }

    pub closed spec fn schema_view(&self) -> Seq<Seq<char>> {
        self.merged_schema@
    }

    /// The rows that the left input handed over.
    pub closed spec fn left_rows(&self) -> Seq<Seq<Value>> {
        self.left_rows@
    }

    /// The rows that the right input handed over.
    pub closed spec fn right_rows(&self) -> Seq<Seq<Value>> {
        self.right_rows@
    }

    /// The rows given out, order aside.
    pub closed spec fn emitted(&self) -> Multiset<Seq<Value>> {
        self.emitted@
    }

    /// Whether all data that was supplied is what the storage held.
    pub closed spec fn faithful(&self) -> bool {
        self.faithful@
    }

    /// Whether an error ended the join.
    pub closed spec fn failed(&self) -> bool {
        self.failed@
    }

    /// Whether the join has come to its end, well or not.
    pub closed spec fn ended(&self) -> bool {
        self.state is Done
    }

    /// Whether the join has begun.
    pub closed spec fn started(&self) -> bool {
        !(self.state is NotStarted)
    }

    /// The length of a side's rows.
    pub open spec fn side_len(&self, side: Side) -> nat {
        match side {
            Side::Left => self.left_len(),
            Side::Right => self.right_len(),
        }
    }

    /// The side whose next row is asked for.
    pub closed spec fn wants(&self) -> Option<Side> {
        match self.state {
            HashJoinState::PartitionLeft(_) => Some(Side::Left),
            HashJoinState::PartitionRight(_) => Some(Side::Right),
            _ => None,
        }
    }

    /// Whether blocks are asked for.
    pub closed spec fn waiting(&self) -> bool {
        match self.state {
            HashJoinState::Probing(ps) => ps.active is Some && ps.active->0.waiting(),
            _ => false,
        }
    }

    /// Whether `data` is what the storage held in the blocks that are asked for.
    pub closed spec fn expects(&self, data: Seq<u8>) -> bool {
        match self.state {
            HashJoinState::Probing(ps) => ps.active is Some && ps.active->0.expects(data),
            _ => false,
        }
    }

    /// The rows that were found and not given out yet.
    pub closed spec fn buffered(&self) -> Seq<Seq<Value>> {
        match self.state {
            HashJoinState::Probing(ps) => rows_of(ps.output_buf@),
            _ => Seq::empty(),
        }
    }

    /// How much is left to do: the stages, what is left of the partitions, and the rows that
    /// were found.
    pub closed spec fn left_to_do(&self) -> Seq<nat> {
        let none = seq![0nat, 0nat, 0nat, 0nat, 0nat, 0nat, 0nat, 0nat, 0nat];
        match self.state {
            HashJoinState::NotStarted => seq![4nat] + none + seq![0nat],
            HashJoinState::PartitionLeft(_) => seq![3nat] + none + seq![0nat],
            HashJoinState::PartitionRight(_) => seq![2nat] + none + seq![0nat],
            HashJoinState::Probing(ps) => seq![1nat] + ps.left_to_do() + seq![ps.output_buf@.len()],
            HashJoinState::Done => seq![0nat] + none + seq![0nat],
        }
    }

    pub proof fn left_is_eleven(&self)
        ensures
            self.left_to_do().len() == 11,
    {
        if let HashJoinState::Probing(ps) = self.state {
            ps.left_is_nine();
        }
    }

    /// The stage that was reached decides.
    proof fn stage_nearer(&self, before: &HashJoinOperator)
        requires
            self.left_to_do()[0] < before.left_to_do()[0],
        ensures
            nearer(self.left_to_do(), before.left_to_do()),
    {
        self.left_is_eleven();
        before.left_is_eleven();
        nearer_at(self.left_to_do(), before.left_to_do(), 0);
    }

    /// Work on the partitions is work.
    proof fn probing_nearer(&self, before: &HashJoinOperator)
        requires
            self.state is Probing,
            before.state is Probing,
            before.state->Probing_0.output_buf@.len() == 0,
            not_farther(
                self.state->Probing_0.left_to_do(),
                before.state->Probing_0.left_to_do(),
            ),
            self.state->Probing_0.left_to_do() == before.state->Probing_0.left_to_do()
                ==> self.state->Probing_0.output_buf@.len() == 0,
        ensures
            not_farther(self.left_to_do(), before.left_to_do()),
            nearer(
                self.state->Probing_0.left_to_do(),
                before.state->Probing_0.left_to_do(),
            ) ==> nearer(self.left_to_do(), before.left_to_do()),
    {
        let a = self.state->Probing_0.left_to_do();
        let b = before.state->Probing_0.left_to_do();
        let x = seq![self.state->Probing_0.output_buf@.len()];
        let y = seq![before.state->Probing_0.output_buf@.len()];
        let one = seq![1nat];
        if nearer(a, b) {
            nearer_front(a, b, x, y);
            nearer_back(one, a + x, b + y);
            assert(one + a + x =~= one + (a + x));
            assert(one + b + y =~= one + (b + y));
        } else {
            assert(x =~= y);
        }
    }

    /// How many pages are written at a time.
    pub closed spec fn write_batch(&self) -> nat {
        match self.state {
            HashJoinState::PartitionLeft(sp) => sp.batch(),
            HashJoinState::PartitionRight(sp) => sp.batch(),
            _ => 0,
        }
    }

    /// The temporary files of the join.
    pub closed spec fn files(&self) -> Set<u64> {
        match self.state {
            HashJoinState::PartitionLeft(sp) => sp.files(),
            HashJoinState::PartitionRight(sp) => sp.files(),
            HashJoinState::Probing(ps) => ps.files(),
            _ => Set::empty(),
        }
    }

    spec fn state_ok(&self, storage: &TempStorageManager) -> bool {
        let none = Multiset::<Seq<Value>>::empty();
        match self.state {
            HashJoinState::NotStarted => {
                &&& self.left_rows@.len() == 0
                &&& self.right_rows@.len() == 0
                &&& self.emitted@ == none
                &&& !self.failed@
            },
            HashJoinState::PartitionLeft(sp) => {
                &&& sp.inv(&self.params, storage)
                &&& sp.parts() <= MAX_HASH_JOIN_PARTITIONS
                &&& sp.batch() <= 128
                &&& sp.left() == self.left_rows@
                &&& sp.right() == self.right_rows@
                &&& self.right_rows@.len() == 0
                &&& self.emitted@ == none
                &&& !self.failed@
            },
            HashJoinState::PartitionRight(sp) => {
                &&& sp.inv(&self.params, storage)
                &&& sp.parts() <= MAX_HASH_JOIN_PARTITIONS
                &&& sp.batch() <= 128
                &&& sp.left() == self.left_rows@
                &&& sp.right() == self.right_rows@
                &&& self.emitted@ == none
                &&& !self.failed@
            },
            HashJoinState::Probing(ps) => {
                &&& ps.ok(&self.params, storage)
                &&& ps.shallow()
                &&& !self.failed@
                &&& self.faithful@ ==> ps.good(&self.params, storage)
                &&& self.faithful@ && decided(self.params@, self.left_rows@, self.right_rows@)
                    ==> ps.safe(self.params@, storage)
                &&& self.faithful@ ==> self.emitted@.add(ps.rest(self.params@, storage))
                    == join_of(self.params@, self.left_rows@, self.right_rows@)
            },
            HashJoinState::Done => self.faithful@ && !self.failed@ ==> self.emitted@ == join_of(
                self.params@,
                self.left_rows@,
                self.right_rows@,
            ),
        }
    }

    pub closed spec fn inv(&self, storage: &TempStorageManager) -> bool {
        &&& self.params.inv()
        &&& storage.inv()
        &&& all_len(self.left_rows@, self.params.left_len as nat)
        &&& all_len(self.right_rows@, self.params.right_len as nat)
        &&& self.merged_schema@.len() == self.params.left_len + self.params.right_len
        &&& self.state_ok(storage)
    }

    /// Whether a side has told that it has no more rows.
    pub closed spec fn exhausted(&self, side: Side) -> bool {
        match self.state {
            HashJoinState::PartitionRight(_) => side is Left,
            HashJoinState::Probing(_) => true,
            HashJoinState::Done => true,
            _ => false,
        }
    }

    /// The end of a join is the end of both its sides.
    pub proof fn ended_is_exhausted(&self, side: Side)
        requires
            self.ended(),
        ensures
            self.exhausted(side),
    {
    }

    /// A join at its end has no temporary files any more: what it lets go of is gone.
    pub proof fn ended_join_has_no_files(&self)
        requires
            self.ended(),
        ensures
            self.files() == Set::<u64>::empty(),
    {
    }

    /// A join that waits for blocks has not come to its end.
    pub proof fn waiting_is_not_ended(&self)
        requires
            self.waiting(),
        ensures
            !self.ended(),
    {
    }

    /// The files of a join exist.
    pub proof fn inv_gives(&self, storage: &TempStorageManager)
        requires
            self.inv(storage),
        ensures
            storage.inv(),
            forall|f: u64| #[trigger] self.files().contains(f) ==> storage.has_file(f),
    {
        match self.state {
            HashJoinState::PartitionLeft(sp) => {
                sp.inv_gives(&self.params, storage);
            },
            HashJoinState::PartitionRight(sp) => {
                sp.inv_gives(&self.params, storage);
            },
            HashJoinState::Probing(ps) => {
                lemma_pairs_present(
                    ps.pairs(),
                    storage,
                    self.params.left_len as nat,
                    self.params.right_len as nat,
                );
                if let Some(a) = ps.active {
                    a.ok_gives(&self.params, storage);
                }
            },
            _ => {},
        }
    }

    /// A join depends on its own files alone.
    pub proof fn inv_kept(
        &self,
        before: &TempStorageManager,
        after: &TempStorageManager,
        touched: Set<u64>,
    )
        requires
            self.inv(before),
            after.inv(),
            unharmed(before, after, touched),
            touched.disjoint(self.files()),
        ensures
            self.inv(after),
    {
        match self.state {
            HashJoinState::PartitionLeft(sp) => {
                sp.inv_kept(&self.params, before, after, touched);
            },
            HashJoinState::PartitionRight(sp) => {
                sp.inv_kept(&self.params, before, after, touched);
            },
            HashJoinState::Probing(ps) => {
                assert(touched.disjoint(pair_files(ps.pairs())));
                assert(touched.disjoint(ps.active_files()));
                lemma_pairs_kept(
                    self.params@,
                    ps.pairs(),
                    before,
                    after,
                    touched,
                    self.params.left_len as nat,
                    self.params.right_len as nat,
                );
                if ps.safe(self.params@, before) {
                    lemma_decided_kept(self.params@, ps.pairs(), before, after);
                }
                if let Some(a) = ps.active {
                    a.ok_kept(&self.params, before, after, touched);
                }
            },
            _ => {},
        }
    }

    /// A join that came to its end without an error, and was supplied with what the storage
    /// held, has given out exactly the join of its inputs.
    pub proof fn join_is_complete(&self, storage: &TempStorageManager)
        requires
            self.inv(storage),
            self.ended(),
            !self.failed(),
            self.faithful(),
        ensures
            self.emitted() == join_of(self.on(), self.left_rows(), self.right_rows()),
    {
    }

    /// Makes a join of two inputs with the given schemas and key columns. Predicates that are no
    /// key are tested on the merged row.
    pub fn new(
        left_schema: &RowSchema,
        right_schema: &RowSchema,
        left_key_indices: Vec<usize>,
        right_key_indices: Vec<usize>,
        extra_predicates: &[Predicate],
        sort_run_bytes: usize,
    ) -> (r: Result<HashJoinOperator, DbError>)
        requires
            left_key_indices@.len() == right_key_indices@.len(),
            in_bounds(positions(left_key_indices@), left_schema@.len() as int),
            in_bounds(positions(right_key_indices@), right_schema@.len() as int),
        ensures
            ({
                let merged = left_schema@ + right_schema@;
                let missing = first_missing_column(merged, conditions(extra_predicates@));
                match r {
                    Ok(j) => {
                        &&& missing is None
                        &&& j.schema_view() == merged
                        &&& j.on() == (JoinOn {
                            left_keys: positions(left_key_indices@),
                            right_keys: positions(right_key_indices@),
                            extra: conditions(extra_predicates@).map_values(
                                |c: Condition| resolved(merged, c),
                            ),
                            by_order: false,
                        })
                        &&& j.left_len() == left_schema@.len()
                        &&& j.right_len() == right_schema@.len()
                        &&& j.left_rows() == Seq::<Seq<Value>>::empty()
                        &&& j.right_rows() == Seq::<Seq<Value>>::empty()
                        &&& j.emitted() == Multiset::<Seq<Value>>::empty()
                        &&& j.faithful()
                        &&& !j.failed()
                        &&& forall|s: Side| !(#[trigger] j.exhausted(s))
                        &&& !j.ended()
                        &&& j.files() == Set::<u64>::empty()
                        &&& forall|s: &TempStorageManager| s.inv() ==> #[trigger] j.inv(s)
                    },
                    Err(e) => e matches DbError::ColumnNotFound(c) && Some(c@) == missing,
                }
            }),
    {
        let merged_schema = RowSchema::merge(left_schema, right_schema);
        let extra = match resolve_predicates(&merged_schema, extra_predicates) {
            Ok(v) => v,
            Err(e) => {
                return Err(e);
            },
        };
        let params = JoinParams {
            left_keys: left_key_indices,
            right_keys: right_key_indices,
            extra,
            left_len: left_schema.len(),
            right_len: right_schema.len(),
        };
        Ok(
            HashJoinOperator {
                params,
                merged_schema,
                sort_run_bytes,
                state: HashJoinState::NotStarted,
                left_rows: Ghost(Seq::empty()),
                right_rows: Ghost(Seq::empty()),
                emitted: Ghost(Multiset::empty()),
                faithful: Ghost(true),
                failed: Ghost(false),
            },
        )
    }

    pub fn schema(&self) -> (r: &RowSchema)
        ensures
            r@ == self.schema_view(),
    {
        &self.merged_schema
    }

    /// Ends the join with an error.
    fn fail(&mut self)
        requires
            old(self).params.inv(),
        ensures
            final(self).params == old(self).params,
            final(self).merged_schema == old(self).merged_schema,
            final(self).left_rows == old(self).left_rows,
            final(self).right_rows == old(self).right_rows,
            final(self).emitted == old(self).emitted,
            final(self).faithful == old(self).faithful,
            final(self).sort_run_bytes == old(self).sort_run_bytes,
            final(self).failed@,
            final(self).state is Done,
    {
        self.state = HashJoinState::Done;
        proof {
            self.failed@ = true;
        }
    }

    /// Does the next piece of work: asks for a row or for blocks, or gives a row out. A row that
    /// was found comes before anything else, the last one found first.
    pub fn step(&mut self, storage: &mut TempStorageManager) -> (r: Result<JoinStep, DbError>)
        requires
            old(self).inv(old(storage)),
        ensures
            final(self).inv(final(storage)),
            final(storage).inv(),
            untouched(old(storage), final(storage), old(self).files()),
            final(self).on() == old(self).on(),
            final(self).left_len() == old(self).left_len(),
            final(self).right_len() == old(self).right_len(),
            final(self).schema_view() == old(self).schema_view(),
            final(self).left_rows() == old(self).left_rows(),
            final(self).right_rows() == old(self).right_rows(),
            final(self).faithful() == old(self).faithful(),
            forall|f: u64| #[trigger]
                final(self).files().contains(f) ==> old(self).files().contains(f) || !old(
                    storage,
                ).has_file(f),
            final(self).emitted() == match r {
                Ok(JoinStep::Row(row)) => old(self).emitted().insert(row@),
                _ => old(self).emitted(),
            },
            r is Ok ==> forall|s: Side| #[trigger]
                final(self).exhausted(s) ==> old(self).exhausted(s),
            r is Ok ==> final(self).failed() == old(self).failed(),
            r is Ok ==> let_go(old(self).files(), final(self).files(), final(storage)),
            step_nearer(r, final(self).left_to_do(), old(self).left_to_do()),
            match r {
                Ok(JoinStep::Pull(side)) => final(self).wants() == Some(side),
                Ok(JoinStep::Need(ranges)) => final(self).waiting() && (forall|data: Seq<u8>|
                    is_content(
                        final(storage).disk(),
                        blocks_of(ranges@),
                        data,
                        final(storage).size() as int,
                    ) ==> #[trigger] final(self).expects(data)),
                Ok(JoinStep::NeedAnonStart) => final(storage).frontier() is None,
                Ok(JoinStep::Done) => final(self).ended(),
                Ok(JoinStep::Again) => !final(self).ended(),
                Ok(JoinStep::Row(_)) => !final(self).ended(),
                Err(e) => {
                    &&& final(self).ended()
                    &&& final(self).failed()
                    &&& old(self).faithful() ==> out_of_room(e, final(storage)) || undecided(
                        old(self).on(),
                        e,
                        old(self).left_rows(),
                        old(self).right_rows(),
                    )
                },
            },
            old(self).faithful() && old(storage).roomy(SPLIT_PAGES as nat) && decided(
                old(self).on(),
                old(self).left_rows(),
                old(self).right_rows(),
            ) ==> r is Ok,
            r matches Ok(JoinStep::Row(row)) ==> old(self).faithful() ==> row@.len()
                == old(self).schema_view().len(),
            old(self).ended() ==> r matches Ok(JoinStep::Done),
            old(self).wants() matches Some(side) ==> r matches Ok(JoinStep::Pull(s)) && s == side,
            !old(self).started() ==> match r {
                Ok(JoinStep::NeedAnonStart) => old(storage).frontier() is None
                    && !final(self).started(),
                Ok(JoinStep::Pull(side)) => old(storage).frontier() is Some && side is Left,
                _ => false,
            },
            old(self).buffered().len() > 0 ==> match r {
                Ok(JoinStep::Row(row)) => old(self).buffered() == final(self).buffered().push(row@),
                _ => false,
            },
    {
        let ghost s0 = *storage;
        let mut state = HashJoinState::Done;
        core::mem::swap(&mut self.state, &mut state);
        proof {
            untouched_same(&s0, storage, old(self).files());
        }
        match state {
            HashJoinState::NotStarted => {
                if !storage.anon_region_known() {
                    self.state = HashJoinState::NotStarted;
                    return Ok(JoinStep::NeedAnonStart);
                }
                let block_size: usize = storage.block_size();
                let n: usize = choose_num_partitions(self.sort_run_bytes, block_size);
                let batch: usize = choose_writer_batch(self.sort_run_bytes, block_size, n);
                let splitter = Splitter::new(
                    n,
                    batch,
                    0,
                    Some(BloomFilter::new()),
                    &self.params,
                    storage,
                );
                self.state = HashJoinState::PartitionLeft(splitter);
                proof {
                    assert(self.left_rows@ =~= Seq::<Seq<Value>>::empty());
                    assert(self.right_rows@ =~= Seq::<Seq<Value>>::empty());
                    self.stage_nearer(old(self));
                }
                Ok(JoinStep::Pull(Side::Left))
            },
            HashJoinState::PartitionLeft(sp) => {
                self.state = HashJoinState::PartitionLeft(sp);
                Ok(JoinStep::Pull(Side::Left))
            },
            HashJoinState::PartitionRight(sp) => {
                self.state = HashJoinState::PartitionRight(sp);
                Ok(JoinStep::Pull(Side::Right))
            },
            HashJoinState::Done => Ok(JoinStep::Done),
            HashJoinState::Probing(ps) => {
                let mut ps = ps;
                let ghost before = ps;
                if let Some(row) = ps.output_buf.pop() {
                    proof {
                        self.emitted@ = self.emitted@.insert(row@);
                        lemma_bag_pop(before.output_buf@);
                        assert(rows_of(before.output_buf@) =~= rows_of(ps.output_buf@).push(row@));
                        let on = self.params@;
                        assert(self.emitted@.add(ps.rest(on, &s0)) =~= old(self).emitted@.add(
                            before.rest(on, &s0),
                        ));
                        if self.faithful@ {
                            assert(bag(before.output_buf@).count(row@) > 0);
                            assert(join_of(on, self.left_rows@, self.right_rows@).count(row@) > 0);
                            lemma_join_row_len(
                                on,
                                self.left_rows@,
                                self.right_rows@,
                                self.params.left_len as nat,
                                self.params.right_len as nat,
                                row@,
                            );
                        }
                    }
                    self.state = HashJoinState::Probing(ps);
                    proof {
                        ps.left_is_nine();
                        before.left_is_nine();
                        assert(ps.left_to_do() == before.left_to_do());
                        nearer_at(self.left_to_do(), old(self).left_to_do(), 10);
                    }
                    return Ok(JoinStep::Row(row));
                }
                let ghost join = join_of(self.params@, self.left_rows@, self.right_rows@);
                proof {
                    assert(rows_of(ps.output_buf@).len() == 0);
                }
                match ps.work(&self.params, self.sort_run_bytes, storage) {
                    Ok(ProbeNext::Again(next)) => {
                        self.state = HashJoinState::Probing(next);
                        proof {
                            nearer_is_other(next.left_to_do(), before.left_to_do());
                            self.probing_nearer(old(self));
                        }
                        Ok(JoinStep::Again)
                    },
                    Ok(ProbeNext::Need(next, ranges)) => {
                        self.state = HashJoinState::Probing(next);
                        proof {
                            self.probing_nearer(old(self));
                        }
                        Ok(JoinStep::Need(ranges))
                    },
                    Ok(ProbeNext::Exhausted) => {
                        proof {
                            assert(self.emitted@.add(Multiset::<Seq<Value>>::empty())
                                =~= self.emitted@);
                            self.stage_nearer(old(self));
                        }
                        Ok(JoinStep::Done)
                    },
                    Err(e) => {
                        self.fail();
                        Err(e)
                    },
                }
            },
        }
    }

    /// Takes the next row of the side that is asked for, or that it has no more.
    pub fn feed(&mut self, side: Side, row: Option<Row>, storage: &mut TempStorageManager) -> (r:
        Result<(), DbError>)
        requires
            old(self).inv(old(storage)),
            old(self).wants() == Some(side),
        ensures
            final(self).inv(final(storage)),
            final(storage).inv(),
            untouched(old(storage), final(storage), old(self).files()),
            final(self).on() == old(self).on(),
            final(self).left_len() == old(self).left_len(),
            final(self).right_len() == old(self).right_len(),
            final(self).schema_view() == old(self).schema_view(),
            final(self).faithful() == old(self).faithful(),
            final(self).emitted() == old(self).emitted(),
            forall|f: u64| #[trigger]
                final(self).files().contains(f) ==> old(self).files().contains(f) || !old(
                    storage,
                ).has_file(f),
            r is Ok ==> {
                &&& let_go(old(self).files(), final(self).files(), final(storage))
                &&& row is Some ==> final(self).left_to_do() == old(self).left_to_do()
                &&& row is None ==> nearer(final(self).left_to_do(), old(self).left_to_do())
                &&& forall|s: Side| #[trigger]
                    final(self).exhausted(s) ==> old(self).exhausted(s) || (s == side && row is None)
                &&& !final(self).failed()
                &&& !final(self).ended()
                &&& final(self).wants() == match row {
                    Some(_) => Some(side),
                    None => if side is Left {
                        Some(Side::Right)
                    } else {
                        None
                    },
                }
                &&& final(self).left_rows() == match row {
                    Some(row) if side is Left => old(self).left_rows().push(row@),
                    _ => old(self).left_rows(),
                }
                &&& final(self).right_rows() == match row {
                    Some(row) if side is Right => old(self).right_rows().push(row@),
                    _ => old(self).right_rows(),
                }
            },
            r matches Err(e) ==> {
                &&& final(self).failed()
                &&& final(self).ended()
                &&& match e {
                    DbError::RowSchemaMismatch(n, m) => row is Some && n == row->0@.len() && m
                        == old(self).side_len(side) && n != m,
                    _ => match row {
                        Some(x) => cannot_store(e, x@, final(storage)),
                        None => out_of_room(e, final(storage)),
                    },
                }
            },
            row is Some && row->0@.len() != old(self).side_len(side) ==> r is Err
                && r->Err_0 is RowSchemaMismatch,
            row matches Some(x) ==> x@.len() == old(self).side_len(side) && fits_page(
                x@,
                old(storage).size(),
            ) && old(storage).roomy(old(self).write_batch()) ==> r is Ok,
            row is None && side is Left ==> r is Ok,
            row is None && old(storage).roomy(SPLIT_PAGES as nat) ==> r is Ok,
    {
        let ghost s0 = *storage;
        let mut state = HashJoinState::Done;
        core::mem::swap(&mut self.state, &mut state);
        proof {
            untouched_same(&s0, storage, old(self).files());
        }
        match state {
            HashJoinState::PartitionLeft(sp) => {
                let mut sp = sp;
                match row {
                    Some(row) => {
                        match self.params.check_len(true, &row) {
                            Ok(_) => {},
                            Err(e) => {
                                self.fail();
                                return Err(e);
                            },
                        }
                        match sp.add_left(&self.params, &row, storage) {
                            Ok(_) => {},
                            Err(e) => {
                                self.fail();
                                return Err(e);
                            },
                        }
                        proof {
                            self.left_rows@ = self.left_rows@.push(row@);
                        }
                        self.state = HashJoinState::PartitionLeft(sp);
                    },
                    None => {
                        self.state = HashJoinState::PartitionRight(sp);
                        proof {
                            self.stage_nearer(old(self));
                        }
                    },
                }
                Ok(())
            },
            HashJoinState::PartitionRight(sp) => {
                let mut sp = sp;
                match row {
                    Some(row) => {
                        match self.params.check_len(false, &row) {
                            Ok(_) => {},
                            Err(e) => {
                                self.fail();
                                return Err(e);
                            },
                        }
                        match sp.add_right(&self.params, &row, storage) {
                            Ok(_) => {},
                            Err(e) => {
                                self.fail();
                                return Err(e);
                            },
                        }
                        proof {
                            self.right_rows@ = self.right_rows@.push(row@);
                        }
                        self.state = HashJoinState::PartitionRight(sp);
                    },
                    None => {
                        let pairs = match sp.finish(&self.params, storage) {
                            Ok(p) => p,
                            Err(e) => {
                                self.fail();
                                return Err(e);
                            },
                        };
                        let tasks = first_tasks(&pairs);
                        let ps = ProbingState { tasks, active: None, output_buf: Vec::new() };
                        proof {
                            lemma_bag_empty();
                            let on = self.params@;
                            assert(rows_of(ps.output_buf@) =~= Seq::<Seq<Value>>::empty());
                            assert(self.emitted@.add(ps.rest(on, storage)) =~= pairs_join(
                                on,
                                storage,
                                pairs@,
                            ));
                        }
                        self.state = HashJoinState::Probing(ps);
                        proof {
                            assert(ps.files() =~= pair_files(pairs@));
                            self.stage_nearer(old(self));
                        }
                    },
                }
                Ok(())
            },
            _ => Ok(()),
        }
    }

    /// Takes the contents of the blocks that were asked for.
    pub fn supply(&mut self, data: Vec<u8>, storage: &TempStorageManager) -> (r: Result<
        (),
        DbError,
    >)
        requires
            old(self).inv(storage),
            old(self).waiting(),
        ensures
            final(self).inv(storage),
            final(self).on() == old(self).on(),
            final(self).left_len() == old(self).left_len(),
            final(self).right_len() == old(self).right_len(),
            final(self).schema_view() == old(self).schema_view(),
            final(self).left_rows() == old(self).left_rows(),
            final(self).right_rows() == old(self).right_rows(),
            final(self).emitted() == old(self).emitted(),
            final(self).faithful() == (old(self).faithful() && old(self).expects(data@)),
            final(self).files().subset_of(old(self).files()),
            r is Ok ==> forall|s: Side| #[trigger]
                final(self).exhausted(s) ==> old(self).exhausted(s),
            old(self).expects(data@) ==> r is Ok,
            r is Ok ==> nearer(final(self).left_to_do(), old(self).left_to_do()),
            r is Ok ==> final(self).files() == old(self).files(),
            r is Ok ==> !final(self).failed() && !final(self).ended() && final(self).buffered()
                == old(self).buffered(),
            r is Err ==> final(self).failed() && final(self).ended(),
    {
        let mut state = HashJoinState::Done;
        core::mem::swap(&mut self.state, &mut state);
        let ghost good_data = old(self).expects(data@);
        proof {
            self.faithful@ = self.faithful@ && good_data;
        }
        match state {
            HashJoinState::Probing(ps) => {
                let mut ps = ps;
                let ghost before = ps;
                let mut active: Option<ActivePartition> = None;
                core::mem::swap(&mut ps.active, &mut active);
                match active {
                    Some(a) => {
                        let mut a = a;
                        proof {
                            assert(a.ok(&self.params, storage));
                        }
                        match a.supply(data) {
                            Ok(_) => {},
                            Err(e) => {
                                self.fail();
                                return Err(e);
                            },
                        }
                        ps.active = Some(a);
                        self.state = HashJoinState::Probing(ps);
                        proof {
                            ps.active_nearer(&before);
                            let x = seq![ps.output_buf@.len()];
                            let one = seq![1nat];
                            let u = ps.left_to_do();
                            let v = before.left_to_do();
                            nearer_front(u, v, x, x);
                            nearer_back(one, u + x, v + x);
                            assert(one + u + x =~= one + (u + x));
                            assert(one + v + x =~= one + (v + x));
                        }
                        Ok(())
                    },
                    None => Ok(()),
                }
            },
            _ => Ok(()),
        }
    }
}

} // verus!

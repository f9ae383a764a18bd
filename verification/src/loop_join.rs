//! The block nested loop join, for joins without a key.
//!
//! The inner side is written to a temporary run. The outer side is taken in batches, and the
//! inner run is read once for each batch.

use vstd::multiset::Multiset;
use vstd::prelude::*;
use crate::error::DbError;
use crate::filter::{first_missing_column, resolve_predicates, resolved};
use crate::floats::{Comparison, compare_f64, f64_order};
use crate::join_plan::{choose_bnlj_outer_batch_bytes, choose_spill_batch};
use crate::join_spec::{JoinOn, join_of, join_sides, join_splits_left, join_splits_right, lemma_probe_first};
use crate::join_step::{JoinStep, Side, step_nearer};
use crate::join_table::{JoinParams, all_len, decided, decided_for_fewer, decided_for_tail, decided_sides, lemma_all_in_self, lemma_all_in_sum, lemma_join_row_len, lemma_undecided, sides_fail, undecided};
use crate::nested_loop::nested_matches;
use crate::partition_join::{bag, lemma_all_len_drop, lemma_bag_empty, lemma_bag_pop, reader_good, reader_ok};
use crate::query::{Condition, Predicate, conditions};
use crate::progress::{nearer, nearer_at, not_farther_if};
use crate::row::{Row, RowSchema};
use crate::temp_run::{DEFAULT_TEMP_IO_BATCH_PAGES, ReadStep, TempRunReader, TempRunWriter, blocks_of, cannot_store, fits_page, is_content, run_of};
use crate::temp_storage::{MAX_BATCH_PAGES, TempFileId, TempStorageManager, let_go, out_of_room, unharmed, untouched, untouched_but, untouched_file, untouched_same};
use crate::value::Value;
use crate::views::rows_of;

verus! {

broadcast use crate::views::lemma_rows_of_push;

struct Scan {
    inner_file: TempFileId,
    outer_batch: Vec<Row>,
    inner_reader: TempRunReader,
    output_buf: Vec<Row>,
}

enum BlockNestedLoopState {
    NotStarted,
    Spilling(TempRunWriter),
    NeedOuterBatch { inner_file: TempFileId, outer_batch: Vec<Row>, bytes: usize },
    ScanningInner(Scan),
    Done,
}

/// Joins two inputs by testing every pair of rows.
pub struct BlockNestedLoopJoinOperator {
    params: JoinParams,
    inner_is_left: bool,
    merged_schema: RowSchema,
    sort_run_bytes: usize,
    state: BlockNestedLoopState,
    inner_rows: Ghost<Seq<Seq<Value>>>,
    joined: Ghost<Seq<Seq<Value>>>,
    outer_rows: Ghost<Seq<Seq<Value>>>,
    emitted: Ghost<Multiset<Seq<Value>>>,
    faithful: Ghost<bool>,
    failed: Ghost<bool>,
}

/// Whether the left side is taken as the inner one: it is unless both sizes are given and the
/// left one is not at most the right one. The sizes are the bits of 64 bit floats.
pub open spec fn spills_left(left_hint: Option<u64>, right_hint: Option<u64>) -> bool {
    match (left_hint, right_hint) {
        (Some(l), Some(r)) => f64_order(l, r) == Some(Comparison::Less) || f64_order(l, r) == Some(
            Comparison::Equal,
        ),
        _ => true,
    }
}

proof fn lemma_batch_joined(
    on: JoinOn,
    inner_is_left: bool,
    inner: Seq<Seq<Value>>,
    joined: Seq<Seq<Value>>,
    batch: Seq<Seq<Value>>,
)
    ensures
        join_sides(on, inner_is_left, inner, joined + batch) == join_sides(
            on,
            inner_is_left,
            inner,
            joined,
        ).add(join_sides(on, !inner_is_left, batch, inner)),
{
    if inner_is_left {
        join_splits_right(on, inner, joined, batch);
    } else {
        join_splits_left(on, joined, batch, inner);
    }
}

impl BlockNestedLoopJoinOperator {
    /// What the rows are joined on.
    pub closed spec fn on(&self) -> JoinOn {
        self.params@
    }

    pub closed spec fn left_len(&self) -> nat {
        self.params.left_len as nat
    }

    pub closed spec fn right_len(&self) -> nat {
        self.params.right_len as nat
    }

    pub closed spec fn schema_view(&self) -> Seq<Seq<char>> {
        self.merged_schema@
    }

    /// Whether the left side is the inner one.
    pub closed spec fn left_is_inner(&self) -> bool {
        self.inner_is_left
    }

    /// The rows that the left input handed over.
    pub closed spec fn left_rows(&self) -> Seq<Seq<Value>> {
        if self.inner_is_left {
            self.inner_rows@
        } else {
            self.outer_rows@
        }
    }

    /// The rows that the right input handed over.
    pub closed spec fn right_rows(&self) -> Seq<Seq<Value>> {
        if self.inner_is_left {
            self.outer_rows@
        } else {
            self.inner_rows@
        }
    }

    /// The rows given out, order aside.
    pub closed spec fn emitted(&self) -> Multiset<Seq<Value>> {
        self.emitted@
    }

    /// Whether all data that was supplied is what the storage held.
    pub closed spec fn faithful(&self) -> bool {
        self.faithful@
    }

    /// Whether an error ended the join.
    pub closed spec fn failed(&self) -> bool {
        self.failed@
    }

    /// Whether the join has come to its end, well or not.
    pub closed spec fn ended(&self) -> bool {
        self.state is Done
    }

    /// Whether the join has begun.
    pub closed spec fn started(&self) -> bool {
        !(self.state is NotStarted)
    }

    /// The side whose next row is asked for.
    pub closed spec fn wants(&self) -> Option<Side> {
        match self.state {
            BlockNestedLoopState::Spilling(_) => Some(Side::of(self.inner_is_left)),
            BlockNestedLoopState::NeedOuterBatch { .. } => Some(Side::of(!self.inner_is_left)),
            _ => None,
        }
    }

    /// How many outer rows are gathered for the next batch.
    pub closed spec fn gathered(&self) -> nat {
        match self.state {
            BlockNestedLoopState::NeedOuterBatch { outer_batch, .. } => outer_batch@.len(),
            _ => 0,
        }
    }

    /// Whether blocks are asked for.
    pub closed spec fn waiting(&self) -> bool {
        match self.state {
            BlockNestedLoopState::ScanningInner(s) => s.inner_reader.waiting(),
            _ => false,
        }
    }

    /// Whether `data` is what the storage held in the blocks that are asked for.
    pub closed spec fn expects(&self, data: Seq<u8>) -> bool {
        match self.state {
            BlockNestedLoopState::ScanningInner(s) => s.inner_reader.expects(data),
            _ => false,
        }
    }

    /// The rows that were found and not given out yet.
    pub closed spec fn buffered(&self) -> Seq<Seq<Value>> {
        match self.state {
            BlockNestedLoopState::ScanningInner(s) => rows_of(s.output_buf@),
            _ => Seq::empty(),
        }
    }

    /// How much is left to do: the stages, whether a batch waits for its scan or is in one, of
    /// the inner run, and the rows that were found.
    pub closed spec fn left_to_do(&self) -> Seq<nat> {
        match self.state {
            BlockNestedLoopState::NotStarted => seq![3nat, 0nat, 0nat, 0nat],
            BlockNestedLoopState::Spilling(_) => seq![2nat, 0nat, 0nat, 0nat],
            BlockNestedLoopState::NeedOuterBatch { outer_batch, .. } => seq![
                1nat,
                if outer_batch@.len() > 0 {
                    2nat
                } else {
                    0nat
                },
                0nat,
                0nat,
            ],
            BlockNestedLoopState::ScanningInner(s) => seq![
                1nat,
                1nat,
                s.inner_reader.left_to_do(),
                s.output_buf@.len(),
            ],
            BlockNestedLoopState::Done => seq![0nat, 0nat, 0nat, 0nat],
        }
    }

    pub proof fn left_is_four(&self)
        ensures
            self.left_to_do().len() == 4,
    {
    }

    /// How many pages are written at a time.
    pub closed spec fn write_batch(&self) -> nat {
        match self.state {
            BlockNestedLoopState::Spilling(w) => w.batch() as nat,
            _ => 0,
        }
    }

    /// The temporary files of the join.
    pub closed spec fn files(&self) -> Set<u64> {
        match self.state {
            BlockNestedLoopState::Spilling(w) => Set::<u64>::empty().insert(w.file()),
            BlockNestedLoopState::NeedOuterBatch { inner_file, .. } => Set::<u64>::empty().insert(
                inner_file.0,
            ),
            BlockNestedLoopState::ScanningInner(s) => Set::<u64>::empty().insert(s.inner_file.0),
            _ => Set::empty(),
        }
    }

    /// The length of a side's rows.
    pub open spec fn side_len(&self, side: Side) -> nat {
        match side {
            Side::Left => self.left_len(),
            Side::Right => self.right_len(),
        }
    }

    spec fn state_ok(&self, storage: &TempStorageManager) -> bool {
        let none = Multiset::<Seq<Value>>::empty();
        let left = self.inner_is_left;
        match self.state {
            BlockNestedLoopState::NotStarted => {
                &&& self.inner_rows@.len() == 0
                &&& self.outer_rows@.len() == 0
                &&& self.joined@.len() == 0
                &&& self.emitted@ == none
                &&& !self.failed@
            },
            BlockNestedLoopState::Spilling(w) => {
                &&& w.inv(storage)
                &&& w.batch() <= MAX_BATCH_PAGES
                &&& w.rows() == self.inner_rows@
                &&& self.outer_rows@.len() == 0
                &&& self.joined@.len() == 0
                &&& self.emitted@ == none
                &&& !self.failed@
            },
            BlockNestedLoopState::NeedOuterBatch { inner_file, outer_batch, bytes } => {
                &&& run_of(storage, inner_file.0) == Some(self.inner_rows@)
                &&& self.outer_rows@ == self.joined@ + rows_of(outer_batch@)
                &&& all_len(rows_of(outer_batch@), self.params.build_len(!left))
                &&& !self.failed@
                &&& self.faithful@ ==> self.emitted@ == join_sides(
                    self.params@,
                    left,
                    self.inner_rows@,
                    self.joined@,
                )
            },
            BlockNestedLoopState::ScanningInner(s) => {
                &&& run_of(storage, s.inner_file.0) == Some(self.inner_rows@)
                &&& self.outer_rows@ == self.joined@ + rows_of(s.outer_batch@)
                &&& all_len(rows_of(s.outer_batch@), self.params.build_len(!left))
                &&& reader_ok(&s.inner_reader, storage)
                &&& s.inner_reader.file() == s.inner_file.0
                &&& !self.failed@
                &&& self.faithful@ ==> {
                    &&& reader_good(&s.inner_reader, self.params.build_len(left))
                    &&& decided_sides(self.params@, left, self.inner_rows@, self.outer_rows@)
                        ==> decided_sides(
                        self.params@,
                        left,
                        s.inner_reader.remaining(),
                        rows_of(s.outer_batch@),
                    )
                    &&& self.emitted@.add(bag(s.output_buf@)).add(
                        join_sides(
                            self.params@,
                            !left,
                            rows_of(s.outer_batch@),
                            s.inner_reader.remaining(),
                        ),
                    ) == join_sides(self.params@, left, self.inner_rows@, self.outer_rows@)
                }
            },
            BlockNestedLoopState::Done => self.faithful@ && !self.failed@ ==> self.emitted@
                == join_sides(self.params@, left, self.inner_rows@, self.outer_rows@),
        }
    }

    pub closed spec fn inv(&self, storage: &TempStorageManager) -> bool {
        &&& self.params.inv()
        &&& storage.inv()
        &&& all_len(self.inner_rows@, self.params.build_len(self.inner_is_left))
        &&& all_len(self.outer_rows@, self.params.build_len(!self.inner_is_left))
        &&& self.merged_schema@.len() == self.params.left_len + self.params.right_len
        &&& self.state_ok(storage)
    }

    /// Whether a side has told that it has no more rows.
    pub closed spec fn exhausted(&self, side: Side) -> bool {
        match self.state {
            BlockNestedLoopState::NeedOuterBatch { .. } => side == Side::of(self.inner_is_left),
            BlockNestedLoopState::ScanningInner(_) => side == Side::of(self.inner_is_left),
            BlockNestedLoopState::Done => true,
            _ => false,
        }
    }

    /// The end of a join is the end of both its sides.
    pub proof fn ended_is_exhausted(&self, side: Side)
        requires
            self.ended(),
        ensures
            self.exhausted(side),
    {
    }

    /// No more pages are written at a time than a batch may have.
    pub proof fn batch_is_small(&self, storage: &TempStorageManager)
        requires
            self.inv(storage),
        ensures
            self.write_batch() <= MAX_BATCH_PAGES,
    {
    }

    /// A join at its end has no temporary file any more: what it lets go of is gone.
    pub proof fn ended_join_has_no_files(&self)
        requires
            self.ended(),
        ensures
            self.files() == Set::<u64>::empty(),
    {
    }

    /// A join that waits for blocks has not come to its end.
    pub proof fn waiting_is_not_ended(&self)
        requires
            self.waiting(),
        ensures
            !self.ended(),
    {
    }

    /// The files of a join exist.
    pub proof fn inv_gives(&self, storage: &TempStorageManager)
        requires
            self.inv(storage),
        ensures
            storage.inv(),
            forall|f: u64| #[trigger] self.files().contains(f) ==> storage.has_file(f),
    {
        if let BlockNestedLoopState::Spilling(w) = self.state {
            w.inv_gives(storage);
        }
    }

    /// A join depends on its own files alone.
    pub proof fn inv_kept(
        &self,
        before: &TempStorageManager,
        after: &TempStorageManager,
        touched: Set<u64>,
    )
        requires
            self.inv(before),
            after.inv(),
            unharmed(before, after, touched),
            touched.disjoint(self.files()),
        ensures
            self.inv(after),
    {
        match self.state {
            BlockNestedLoopState::Spilling(w) => {
                w.inv_gives(before);
                assert(self.files().contains(w.file()));
                untouched_file(before, after, touched, w.file());
                w.inv_kept(before, after);
            },
            BlockNestedLoopState::NeedOuterBatch { inner_file, .. } => {
                assert(self.files().contains(inner_file.0));
                untouched_file(before, after, touched, inner_file.0);
            },
            BlockNestedLoopState::ScanningInner(s) => {
                assert(self.files().contains(s.inner_file.0));
                untouched_file(before, after, touched, s.inner_file.0);
            },
            _ => {},
        }
    }

    /// A join that came to its end without an error, and was supplied with what the storage
    /// held, has given out exactly the join of its inputs.
    pub proof fn join_is_complete(&self, storage: &TempStorageManager)
        requires
            self.inv(storage),
            self.ended(),
            !self.failed(),
            self.faithful(),
        ensures
            self.emitted() == join_of(self.on(), self.left_rows(), self.right_rows()),
    {
    }

    /// Makes a join of two inputs with the given schemas that tests the predicates on every
    /// merged row. The hints are the expected sizes of the inputs, as the bits of 64 bit floats.
    pub fn new(
        left_schema: &RowSchema,
        right_schema: &RowSchema,
        predicates: &[Predicate],
        left_rows_hint: Option<u64>,
        right_rows_hint: Option<u64>,
        sort_run_bytes: usize,
    ) -> (r: Result<BlockNestedLoopJoinOperator, DbError>)
        ensures
            ({
                let merged = left_schema@ + right_schema@;
                let missing = first_missing_column(merged, conditions(predicates@));
                match r {
                    Ok(j) => {
                        &&& missing is None
                        &&& j.schema_view() == merged
                        &&& j.on() == (JoinOn {
                            left_keys: Seq::empty(),
                            right_keys: Seq::empty(),
                            extra: conditions(predicates@).map_values(
                                |c: Condition| resolved(merged, c),
                            ),
                            by_order: false,
                        })
                        &&& j.left_is_inner() == spills_left(left_rows_hint, right_rows_hint)
                        &&& j.left_len() == left_schema@.len()
                        &&& j.right_len() == right_schema@.len()
                        &&& j.left_rows() == Seq::<Seq<Value>>::empty()
                        &&& j.right_rows() == Seq::<Seq<Value>>::empty()
                        &&& j.emitted() == Multiset::<Seq<Value>>::empty()
                        &&& j.faithful()
                        &&& !j.failed()
                        &&& !j.started()
                        &&& forall|s: Side| !(#[trigger] j.exhausted(s))
                        &&& !j.ended()
                        &&& j.files() == Set::<u64>::empty()
                        &&& forall|s: &TempStorageManager| s.inv() ==> #[trigger] j.inv(s)
                    },
                    Err(e) => e matches DbError::ColumnNotFound(c) && Some(c@) == missing,
                }
            }),
    {
        let merged_schema = RowSchema::merge(left_schema, right_schema);
        let extra = match resolve_predicates(&merged_schema, predicates) {
            Ok(v) => v,
            Err(e) => {
                return Err(e);
            },
        };
        let params = JoinParams {
            left_keys: Vec::new(),
            right_keys: Vec::new(),
            extra,
            left_len: left_schema.len(),
            right_len: right_schema.len(),
        };
        let inner_is_left = match (left_rows_hint, right_rows_hint) {
            (Some(l), Some(r)) => match compare_f64(l, r) {
                Some(Comparison::Less) => true,
                Some(Comparison::Equal) => true,
                _ => false,
            },
            _ => true,
        };
        let j = BlockNestedLoopJoinOperator {
            params,
            inner_is_left,
            merged_schema,
            sort_run_bytes,
            state: BlockNestedLoopState::NotStarted,
            inner_rows: Ghost(Seq::empty()),
            joined: Ghost(Seq::empty()),
            outer_rows: Ghost(Seq::empty()),
            emitted: Ghost(Multiset::empty()),
            faithful: Ghost(true),
            failed: Ghost(false),
        };
        proof {
            assert(j.params@.left_keys =~= Seq::<int>::empty());
            assert(j.params@.right_keys =~= Seq::<int>::empty());
        }
        Ok(j)
    }

    pub fn schema(&self) -> (r: &RowSchema)
        ensures
            r@ == self.schema_view(),
    {
        &self.merged_schema
    }

    /// Ends the join with an error.
    fn fail(&mut self)
        ensures
            *final(self) == (BlockNestedLoopJoinOperator {
                state: BlockNestedLoopState::Done,
                failed: Ghost(true),
                ..*old(self)
            }),
    {
        self.state = BlockNestedLoopState::Done;
        proof {
            self.failed@ = true;
        }
    }

    fn inner_side(&self) -> (r: Side)
        ensures
            r == Side::of(self.inner_is_left),
    {
        if self.inner_is_left {
            Side::Left
        } else {
            Side::Right
        }
    }

    fn outer_side(&self) -> (r: Side)
        ensures
            r == Side::of(!self.inner_is_left),
    {
        if self.inner_is_left {
            Side::Right
        } else {
            Side::Left
        }
    }

    /// Does the next piece of work: asks for a row or for blocks, or gives a row out. A row that
    /// was found comes before anything else, the last one found first.
    pub fn step(&mut self, storage: &mut TempStorageManager) -> (r: Result<JoinStep, DbError>)
        requires
            old(self).inv(old(storage)),
        ensures
            final(self).inv(final(storage)),
            final(storage).inv(),
            untouched(old(storage), final(storage), old(self).files()),
            final(self).on() == old(self).on(),
            final(self).left_len() == old(self).left_len(),
            final(self).right_len() == old(self).right_len(),
            final(self).left_is_inner() == old(self).left_is_inner(),
            final(self).schema_view() == old(self).schema_view(),
            final(self).left_rows() == old(self).left_rows(),
            final(self).right_rows() == old(self).right_rows(),
            final(self).faithful() == old(self).faithful(),
            forall|f: u64| #[trigger]
                final(self).files().contains(f) ==> old(self).files().contains(f) || !old(
                    storage,
                ).has_file(f),
            final(self).emitted() == match r {
                Ok(JoinStep::Row(row)) => old(self).emitted().insert(row@),
                _ => old(self).emitted(),
            },
            r is Ok ==> forall|s: Side| #[trigger]
                final(self).exhausted(s) ==> old(self).exhausted(s),
            r is Ok ==> final(self).failed() == old(self).failed(),
            r is Ok ==> let_go(old(self).files(), final(self).files(), final(storage)),
            step_nearer(r, final(self).left_to_do(), old(self).left_to_do()),
            match r {
                Ok(JoinStep::Pull(side)) => final(self).wants() == Some(side),
                Ok(JoinStep::Need(ranges)) => final(self).waiting() && (forall|data: Seq<u8>|
                    is_content(
                        final(storage).disk(),
                        blocks_of(ranges@),
                        data,
                        final(storage).size() as int,
                    ) ==> #[trigger] final(self).expects(data)),
                Ok(JoinStep::NeedAnonStart) => final(storage).frontier() is None,
                Ok(JoinStep::Done) => final(self).ended(),
                Ok(JoinStep::Again) => !final(self).ended(),
                Ok(JoinStep::Row(_)) => !final(self).ended(),
                Err(e) => {
                    &&& final(self).ended()
                    &&& final(self).failed()
                    &&& old(self).faithful() ==> out_of_room(e, final(storage)) || undecided(
                        old(self).on(),
                        e,
                        old(self).left_rows(),
                        old(self).right_rows(),
                    )
                },
            },
            r matches Err(e) ==> old(self).started() && old(self).faithful() ==> undecided(
                old(self).on(),
                e,
                old(self).left_rows(),
                old(self).right_rows(),
            ),
            old(self).faithful() && old(storage).roomy(MAX_BATCH_PAGES as nat) && decided(
                old(self).on(),
                old(self).left_rows(),
                old(self).right_rows(),
            ) ==> r is Ok,
            !old(self).started() && old(storage).frontier() is Some && old(storage).names_given()
                < u64::MAX && old(storage).size() * 64 <= usize::MAX ==> r is Ok,
            r matches Ok(JoinStep::Row(row)) ==> old(self).faithful() ==> row@.len()
                == old(self).schema_view().len(),
            old(self).ended() ==> r matches Ok(JoinStep::Done),
            old(self).wants() matches Some(side) ==> r matches Ok(JoinStep::Pull(s)) && s == side,
            !old(self).started() ==> match r {
                Ok(JoinStep::NeedAnonStart) => old(storage).frontier() is None
                    && !final(self).started(),
                Ok(JoinStep::Pull(side)) => old(storage).frontier() is Some && side == Side::of(
                    old(self).left_is_inner(),
                ),
                Err(e) => e is TooManyTempFiles || e is BatchCapacityOverflow,
                _ => false,
            },
            old(self).buffered().len() > 0 ==> match r {
                Ok(JoinStep::Row(row)) => old(self).buffered() == final(self).buffered().push(row@),
                _ => false,
            },
    {
        let ghost s0 = *storage;
        let mut state = BlockNestedLoopState::Done;
        core::mem::swap(&mut self.state, &mut state);
        proof {
            untouched_same(&s0, storage, old(self).files());
        }
        match state {
            BlockNestedLoopState::NotStarted => {
                if !storage.anon_region_known() {
                    self.state = BlockNestedLoopState::NotStarted;
                    return Ok(JoinStep::NeedAnonStart);
                }
                let batch: usize = choose_spill_batch(self.sort_run_bytes, storage.block_size());
                proof {
                    assert(s0.size() * batch <= s0.size() * 64) by (nonlinear_arith)
                        requires
                            batch <= 64,
                    ;
                }
                match TempRunWriter::with_batch_pages(storage, batch) {
                    Ok(w) => {
                        proof {
                            untouched_but(&s0, storage, w.file(), old(self).files());
                            assert(self.inner_rows@ =~= Seq::<Seq<Value>>::empty());
                        }
                        self.state = BlockNestedLoopState::Spilling(w);
                        proof {
                            nearer_at(self.left_to_do(), old(self).left_to_do(), 0);
                        }
                        Ok(JoinStep::Pull(self.inner_side()))
                    },
                    Err(e) => {
                        proof {
                            untouched_same(&s0, storage, old(self).files());
                        }
                        self.fail();
                        Err(e)
                    },
                }
            },
            BlockNestedLoopState::Spilling(w) => {
                self.state = BlockNestedLoopState::Spilling(w);
                Ok(JoinStep::Pull(self.inner_side()))
            },
            BlockNestedLoopState::NeedOuterBatch { inner_file, outer_batch, bytes } => {
                self.state =
                BlockNestedLoopState::NeedOuterBatch { inner_file, outer_batch, bytes };
                Ok(JoinStep::Pull(self.outer_side()))
            },
            BlockNestedLoopState::Done => Ok(JoinStep::Done),
            BlockNestedLoopState::ScanningInner(scan) => {
                let mut scan = scan;
                let ghost before = scan;
                if let Some(row) = scan.output_buf.pop() {
                    proof {
                        self.emitted@ = self.emitted@.insert(row@);
                        lemma_bag_pop(before.output_buf@);
                        assert(rows_of(before.output_buf@) =~= rows_of(scan.output_buf@).push(
                            row@,
                        ));
                        assert(self.emitted@.add(bag(scan.output_buf@)) =~= old(self).emitted@.add(
                            bag(before.output_buf@),
                        ));
                        if self.faithful@ {
                            assert(bag(before.output_buf@).count(row@) > 0);
                            lemma_join_row_len(
                                self.params@,
                                old(self).left_rows(),
                                old(self).right_rows(),
                                self.params.left_len as nat,
                                self.params.right_len as nat,
                                row@,
                            );
                        }
                    }
                    self.state = BlockNestedLoopState::ScanningInner(scan);
                    proof {
                        nearer_at(self.left_to_do(), old(self).left_to_do(), 3);
                    }
                    return Ok(JoinStep::Row(row));
                }
                proof {
                    assert(rows_of(scan.output_buf@).len() == 0);
                }
                self.scan(scan, storage)
            },
        }
    }

    /// Reads the next inner row and joins it with the batch.
    #[verifier::rlimit(100)]
    #[verifier::spinoff_prover]
    fn scan(&mut self, scan: Scan, storage: &TempStorageManager) -> (r: Result<JoinStep, DbError>)
        requires
            (BlockNestedLoopJoinOperator {
                state: BlockNestedLoopState::ScanningInner(scan),
                ..*old(self)
            }).inv(storage),
            scan.output_buf@.len() == 0,
            old(self).state is Done,
        ensures
            final(self).inv(storage),
            final(self).params == old(self).params,
            final(self).merged_schema == old(self).merged_schema,
            final(self).inner_is_left == old(self).inner_is_left,
            final(self).sort_run_bytes == old(self).sort_run_bytes,
            final(self).inner_rows == old(self).inner_rows,
            final(self).outer_rows == old(self).outer_rows,
            final(self).emitted == old(self).emitted,
            final(self).faithful == old(self).faithful,
            forall|f: u64| #[trigger] final(self).files().contains(f) ==> f == scan.inner_file.0,
            r is Ok ==> final(self).files().contains(scan.inner_file.0),
            step_nearer(
                r,
                final(self).left_to_do(),
                seq![1nat, 1nat, scan.inner_reader.left_to_do(), 0nat],
            ),
            match r {
                Ok(JoinStep::Need(ranges)) => !final(self).failed@ && final(self).waiting() && (
                forall|data: Seq<u8>|
                    is_content(
                        storage.disk(),
                        blocks_of(ranges@),
                        data,
                        storage.size() as int,
                    ) ==> #[trigger] final(self).expects(data)),
                Ok(JoinStep::Again) => !final(self).failed@ && !(final(self).state is Done),
                Ok(_) => false,
                Err(e) => {
                    &&& final(self).ended()
                    &&& final(self).failed()
                    &&& old(self).faithful@ ==> undecided(
                        old(self).on(),
                        e,
                        old(self).left_rows(),
                        old(self).right_rows(),
                    )
                },
            },
    {
        let ghost on = self.params@;
        let ghost left = self.inner_is_left;
        let ghost batch = rows_of(scan.outer_batch@);
        let ghost before = scan.inner_reader.remaining();
        let ghost all = join_sides(on, left, self.inner_rows@, self.outer_rows@);
        let ghost none = Multiset::<Seq<Value>>::empty();
        let ghost left_then = seq![1nat, 1nat, scan.inner_reader.left_to_do(), 0nat];
        let mut scan = scan;
        proof {
            lemma_bag_empty();
            assert(rows_of(scan.output_buf@) =~= Seq::<Seq<Value>>::empty());
        }
        let read = match scan.inner_reader.next_row(storage) {
            Ok(s) => s,
            Err(e) => {
                self.fail();
                return Err(e);
            },
        };
        match read {
            ReadStep::Need(ranges) => {
                self.state = BlockNestedLoopState::ScanningInner(scan);
                proof {
                    not_farther_if(self.left_to_do(), left_then);
                }
                Ok(JoinStep::Need(ranges))
            },
            ReadStep::End => {
                proof {
                    if self.faithful@ {
                        assert(before =~= Seq::<Seq<Value>>::empty());
                        crate::join_spec::lemma_join_empty_right(on, batch);
                        assert(join_sides(on, !left, batch, before) == none);
                        assert(self.emitted@.add(none).add(none) =~= self.emitted@);
                    }
                    self.joined@ = self.outer_rows@;
                }
                let outer_batch: Vec<Row> = Vec::new();
                proof {
                    assert(rows_of(outer_batch@) =~= Seq::<Seq<Value>>::empty());
                    assert(self.outer_rows@ =~= self.joined@ + rows_of(outer_batch@));
                }
                self.state =
                BlockNestedLoopState::NeedOuterBatch {
                    inner_file: scan.inner_file,
                    outer_batch,
                    bytes: 0,
                };
                proof {
                    nearer_at(self.left_to_do(), left_then, 1);
                }
                Ok(JoinStep::Again)
            },
            ReadStep::Row(row) => {
                proof {
                    if self.faithful@ {
                        lemma_all_len_drop(before, self.params.build_len(left));
                    }
                }
                match self.params.check_len(self.inner_is_left, &row) {
                    Ok(_) => {},
                    Err(e) => {
                        self.fail();
                        return Err(e);
                    },
                }
                let rows = match nested_matches(
                    &self.params,
                    self.inner_is_left,
                    &row,
                    scan.outer_batch.as_slice(),
                ) {
                    Ok(v) => v,
                    Err(e) => {
                        proof {
                            let i = choose|i: int|
                                0 <= i < scan.outer_batch@.len() && sides_fail(
                                    on,
                                    !left,
                                    #[trigger] batch[i],
                                    row@,
                                );
                            if self.faithful@ {
                                lemma_undecided(on, left, before, batch, 0, i);
                            }
                        }
                        self.fail();
                        return Err(e);
                    },
                };
                proof {
                    if self.faithful@ {
                        if decided_sides(on, left, before, batch) {
                            decided_for_tail(on, left, before, batch);
                        }
                        lemma_probe_first(on, !left, batch, before);
                        let tail = join_sides(on, !left, batch, before.drop_first());
                        assert(self.emitted@.add(bag(rows@)).add(tail) =~= self.emitted@.add(
                            none,
                        ).add(bag(rows@).add(tail)));
                    }
                }
                scan.output_buf = rows;
                self.state = BlockNestedLoopState::ScanningInner(scan);
                proof {
                    nearer_at(self.left_to_do(), left_then, 2);
                }
                Ok(JoinStep::Again)
            },
        }
    }

    /// Opens the inner run for the batch that was filled.
    fn start_scan(
        &mut self,
        inner_file: TempFileId,
        outer_batch: Vec<Row>,
        storage: &TempStorageManager,
    ) -> (r: Result<(), DbError>)
        requires
            (BlockNestedLoopJoinOperator {
                state: BlockNestedLoopState::NeedOuterBatch { inner_file, outer_batch, bytes: 0 },
                ..*old(self)
            }).inv(storage),
        ensures
            final(self).inv(storage),
            final(self).params == old(self).params,
            final(self).merged_schema == old(self).merged_schema,
            final(self).inner_is_left == old(self).inner_is_left,
            final(self).sort_run_bytes == old(self).sort_run_bytes,
            final(self).inner_rows == old(self).inner_rows,
            final(self).outer_rows == old(self).outer_rows,
            final(self).emitted == old(self).emitted,
            final(self).faithful == old(self).faithful,
            forall|f: u64| #[trigger] final(self).files().contains(f) ==> f == inner_file.0,
            r is Ok ==> final(self).state is ScanningInner && !final(self).failed@
                && final(self).files().contains(inner_file.0),
            r is Ok <==> storage.size() * DEFAULT_TEMP_IO_BATCH_PAGES <= usize::MAX,
            r matches Err(e) ==> out_of_room(e, storage),
            r is Err ==> final(self).failed() && final(self).ended(),
    {
        let reader = match TempRunReader::new(storage, inner_file) {
            Ok(r) => r,
            Err(e) => {
                self.fail();
                return Err(e);
            },
        };
        let scan = Scan { inner_file, outer_batch, inner_reader: reader, output_buf: Vec::new() };
        proof {
            let on = self.params@;
            let left = self.inner_is_left;
            let batch = rows_of(outer_batch@);
            lemma_bag_empty();
            assert(rows_of(scan.output_buf@) =~= Seq::<Seq<Value>>::empty());
            lemma_batch_joined(on, left, self.inner_rows@, self.joined@, batch);
            if decided_sides(on, left, self.inner_rows@, self.outer_rows@) {
                lemma_all_in_self(self.inner_rows@);
                lemma_all_in_sum(self.joined@, batch);
                decided_for_fewer(
                    on,
                    left,
                    self.inner_rows@,
                    self.outer_rows@,
                    self.inner_rows@,
                    batch,
                );
            }
            assert(self.emitted@.add(Multiset::<Seq<Value>>::empty()) =~= self.emitted@);
        }
        self.state = BlockNestedLoopState::ScanningInner(scan);
        Ok(())
    }

    /// Takes the next row of the side that is asked for, or that it has no more. A batch of outer
    /// rows is complete when its estimated size reaches the limit for batches, or when there are
    /// no more rows.
    #[verifier::rlimit(60)]
    #[verifier::spinoff_prover]
    pub fn feed(&mut self, side: Side, row: Option<Row>, storage: &mut TempStorageManager) -> (r:
        Result<(), DbError>)
        requires
            old(self).inv(old(storage)),
            old(self).wants() == Some(side),
        ensures
            final(self).inv(final(storage)),
            final(storage).inv(),
            untouched(old(storage), final(storage), old(self).files()),
            final(self).on() == old(self).on(),
            final(self).left_len() == old(self).left_len(),
            final(self).right_len() == old(self).right_len(),
            final(self).left_is_inner() == old(self).left_is_inner(),
            final(self).schema_view() == old(self).schema_view(),
            final(self).faithful() == old(self).faithful(),
            final(self).emitted() == old(self).emitted(),
            forall|f: u64| #[trigger]
                final(self).files().contains(f) ==> old(self).files().contains(f) || !old(
                    storage,
                ).has_file(f),
            r is Ok ==> {
                let inner = side == Side::of(old(self).left_is_inner());
                &&& let_go(old(self).files(), final(self).files(), final(storage))
                &&& row is None ==> nearer(final(self).left_to_do(), old(self).left_to_do())
                &&& forall|s: Side| #[trigger]
                    final(self).exhausted(s) ==> old(self).exhausted(s) || (s == side && row is None)
                &&& !final(self).failed()
                &&& row is Some && inner ==> final(self).wants() == Some(side)
                &&& row is Some && !inner ==> if final(self).wants() is Some {
                    &&& final(self).wants() == Some(side)
                    &&& final(self).gathered() == old(self).gathered() + 1
                } else {
                    final(self).gathered() == 0
                }
                &&& row is None && inner ==> final(self).wants() == Some(
                    Side::of(!old(self).left_is_inner()),
                ) && final(self).gathered() == 0
                &&& row is None && !inner ==> final(self).wants() is None && (final(self).ended()
                    <==> old(self).gathered() == 0)
                &&& row is Some ==> !final(self).ended()
                &&& final(self).left_rows() == match row {
                    Some(row) if side is Left => old(self).left_rows().push(row@),
                    _ => old(self).left_rows(),
                }
                &&& final(self).right_rows() == match row {
                    Some(row) if side is Right => old(self).right_rows().push(row@),
                    _ => old(self).right_rows(),
                }
            },
            r matches Err(e) ==> {
                &&& final(self).failed()
                &&& final(self).ended()
                &&& match e {
                    DbError::RowSchemaMismatch(n, m) => row is Some && n == row->0@.len() && m
                        == old(self).side_len(side) && n != m,
                    _ => match row {
                        Some(x) => cannot_store(e, x@, final(storage)),
                        None => out_of_room(e, final(storage)),
                    },
                }
            },
            row is Some && row->0@.len() != old(self).side_len(side) ==> r is Err
                && r->Err_0 is RowSchemaMismatch,
            side == Side::of(old(self).left_is_inner()) && old(storage).roomy(
                old(self).write_batch(),
            ) ==> (r is Ok <==> (row matches Some(x) ==> x@.len() == old(self).side_len(side)
                && fits_page(x@, old(storage).size()))),
            side != Side::of(old(self).left_is_inner()) && old(storage).size()
                * DEFAULT_TEMP_IO_BATCH_PAGES <= usize::MAX ==> (r is Ok <==> (row matches Some(x)
                ==> x@.len() == old(self).side_len(side))),
    {
        let ghost s0 = *storage;
        let mut state = BlockNestedLoopState::Done;
        core::mem::swap(&mut self.state, &mut state);
        proof {
            untouched_same(&s0, storage, old(self).files());
        }
        match state {
            BlockNestedLoopState::Spilling(w) => {
                let mut w = w;
                proof {
                    w.inv_gives(storage);
                    if storage.roomy(w.batch() as nat) {
                        storage.pages_below_frontier(w.file());
                    }
                }
                match row {
                    Some(row) => {
                        match self.params.check_len(self.inner_is_left, &row) {
                            Ok(_) => {},
                            Err(e) => {
                                self.fail();
                                return Err(e);
                            },
                        }
                        let r = w.append_row(&row, storage);
                        proof {
                            untouched_but(&s0, storage, w.file(), old(self).files());
                        }
                        match r {
                            Ok(_) => {},
                            Err(e) => {
                                self.fail();
                                return Err(e);
                            },
                        }
                        proof {
                            self.inner_rows@ = self.inner_rows@.push(row@);
                        }
                        self.state = BlockNestedLoopState::Spilling(w);
                        Ok(())
                    },
                    None => {
                        let ghost f = w.file();
                        let r = w.finish(storage);
                        proof {
                            untouched_but(&s0, storage, f, old(self).files());
                        }
                        match r {
                            Ok(inner_file) => {
                                let outer_batch: Vec<Row> = Vec::new();
                                proof {
                                    let on = self.params@;
                                    assert(rows_of(outer_batch@) =~= Seq::<Seq<Value>>::empty());
                                    assert(self.joined@ =~= Seq::<Seq<Value>>::empty());
                                    assert(self.outer_rows@ =~= self.joined@ + rows_of(
                                        outer_batch@,
                                    ));
                                    crate::join_spec::lemma_join_empty_right(on, self.inner_rows@);
                                }
                                self.state =
                                BlockNestedLoopState::NeedOuterBatch {
                                    inner_file,
                                    outer_batch,
                                    bytes: 0,
                                };
                                proof {
                                    nearer_at(self.left_to_do(), old(self).left_to_do(), 0);
                                }
                                Ok(())
                            },
                            Err(e) => {
                                self.fail();
                                Err(e)
                            },
                        }
                    },
                }
            },
            BlockNestedLoopState::NeedOuterBatch { inner_file, outer_batch, bytes } => {
                let mut outer_batch = outer_batch;
                match row {
                    Some(row) => {
                        match self.params.check_len(!self.inner_is_left, &row) {
                            Ok(_) => {},
                            Err(e) => {
                                self.fail();
                                return Err(e);
                            },
                        }
                        let bytes: usize = bytes.saturating_add(row.estimate_heap_size());
                        let ghost was = rows_of(outer_batch@);
                        proof {
                            self.outer_rows@ = self.outer_rows@.push(row@);
                        }
                        let ghost rv = row@;
                        outer_batch.push(row);
                        proof {
                            assert(self.outer_rows@ =~= self.joined@ + was.push(rv));
                        }
                        let target: usize = choose_bnlj_outer_batch_bytes(
                            self.sort_run_bytes,
                            storage.block_size(),
                        );
                        if bytes >= target {
                            return self.start_scan(inner_file, outer_batch, storage);
                        }
                        self.state =
                        BlockNestedLoopState::NeedOuterBatch { inner_file, outer_batch, bytes };
                        Ok(())
                    },
                    None => {
                        if outer_batch.len() == 0 {
                            let r = storage.delete_temp_file(inner_file);
                            proof {
                                untouched_but(&s0, storage, inner_file.0, old(self).files());
                                assert(self.outer_rows@ =~= self.joined@);
                            }
                            return match r {
                                Ok(_) => {
                                    proof {
                                        nearer_at(
                                            self.left_to_do(),
                                            old(self).left_to_do(),
                                            0,
                                        );
                                    }
                                    Ok(())
                                },
                                Err(e) => {
                                    self.fail();
                                    Err(e)
                                },
                            };
                        }
                        let r = self.start_scan(inner_file, outer_batch, storage);
                        proof {
                            if r is Ok {
                                nearer_at(self.left_to_do(), old(self).left_to_do(), 1);
                            }
                        }
                        r
                    },
                }
            },
            _ => Ok(()),
        }
    }

    /// Takes the contents of the blocks that were asked for.
    pub fn supply(&mut self, data: Vec<u8>, storage: &TempStorageManager) -> (r: Result<
        (),
        DbError,
    >)
        requires
            old(self).inv(storage),
            old(self).waiting(),
        ensures
            final(self).inv(storage),
            final(self).on() == old(self).on(),
            final(self).left_len() == old(self).left_len(),
            final(self).right_len() == old(self).right_len(),
            final(self).left_is_inner() == old(self).left_is_inner(),
            final(self).schema_view() == old(self).schema_view(),
            final(self).left_rows() == old(self).left_rows(),
            final(self).right_rows() == old(self).right_rows(),
            final(self).emitted() == old(self).emitted(),
            final(self).faithful() == (old(self).faithful() && old(self).expects(data@)),
            final(self).files().subset_of(old(self).files()),
            r is Ok ==> forall|s: Side| #[trigger]
                final(self).exhausted(s) ==> old(self).exhausted(s),
            old(self).expects(data@) ==> r is Ok,
            r is Ok ==> nearer(final(self).left_to_do(), old(self).left_to_do()),
            r is Ok ==> final(self).files() == old(self).files(),
            r is Ok ==> !final(self).failed() && !final(self).ended() && final(self).buffered()
                == old(self).buffered(),
            r is Err ==> final(self).failed() && final(self).ended(),
    {
        let mut state = BlockNestedLoopState::Done;
        core::mem::swap(&mut self.state, &mut state);
        let ghost good_data = old(self).expects(data@);
        proof {
            self.faithful@ = self.faithful@ && good_data;
        }
        match state {
            BlockNestedLoopState::ScanningInner(scan) => {
                let mut scan = scan;
                match scan.inner_reader.supply(data) {
                    Ok(_) => {},
                    Err(e) => {
                        self.fail();
                        return Err(e);
                    },
                }
                self.state = BlockNestedLoopState::ScanningInner(scan);
                proof {
                    nearer_at(self.left_to_do(), old(self).left_to_do(), 2);
                }
                Ok(())
            },
            _ => Ok(()),
        }
    }
}

} // verus!

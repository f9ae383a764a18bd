//! The adaptive equi-join: a hash join in memory, a hybrid hash join, or a sort-merge join.

use vstd::multiset::Multiset;
use vstd::prelude::*;
use crate::adaptive_spec::{JoinOutputMode, lemma_total_is_join, lemma_total_is_semijoin, output_of, total};
use crate::error::DbError;
use crate::filter::{first_missing_column, resolve_predicates, resolved};
use crate::floats::{Comparison, compare_f64, f64_order};
use crate::hash_family::HashFamily;
use crate::join_spec::{JoinOn, join_of, keys_match};
use crate::join_step::{JoinStep, Side, step_nearer};
use crate::join_table::{JoinParams, undecided};
use crate::key_ordering::key_typed;
use crate::memory::{MemoryAccount, QueryMemoryManager};
use crate::merge_spec::{keys_comparable, keys_typed, lemma_join_without_keys};
use crate::ordering::{key_order, sort_order};
use crate::part_join::parts_fail;
use crate::query::{Condition, Predicate, conditions};
use crate::progress::{nearer, nearer_at, nearer_back, nearer_front, no_work, not_farther};
use crate::row::{Row, RowSchema, in_bounds, pick};
use crate::sort_merge::{SortMergeJoin, by_order, merge_fails, named_first, room_for_rows};
use crate::temp_run::{blocks_of, cannot_store, cannot_store_all, is_content, no_room_for_all};
use crate::temp_storage::{MAX_BATCH_PAGES, TempStorageManager, out_of_pages, unharmed, untouched, untouched_same};
use crate::value::{DataType, Value};
use crate::views::positions;
use crate::hybrid_build::filters_short;
use crate::adaptive_plan::FINISH_PAGES;

verus! {

enum AdaptiveEquiJoinState {
    NotStarted,
    Hash(HashFamily),
    Merge(SortMergeJoin),
    Done,
}

/// Joins two inputs on equal keys, or keeps the rows of one side that have a match.
pub struct AdaptiveEquiJoinOperator {
    params: JoinParams,
    left_schema: RowSchema,
    right_schema: RowSchema,
    output_schema: RowSchema,
    output_mode: JoinOutputMode,
    build_left: bool,
    sort_merge: bool,
    sort_run_bytes: usize,
    state: AdaptiveEquiJoinState,
    left_rows: Ghost<Seq<Seq<Value>>>,
    right_rows: Ghost<Seq<Seq<Value>>>,
    emitted: Ghost<Multiset<Seq<Value>>>,
    faithful: Ghost<bool>,
    failed: Ghost<bool>,
}

/// The side that a hash join builds its table of. A semijoin builds the side that it does not
/// keep; a full join builds the smaller one, as far as the hints tell.
pub open spec fn prefers_left(mode: JoinOutputMode, left_hint: Option<u64>, right_hint: Option<
    u64,
>) -> bool {
    match mode {
        JoinOutputMode::KeepLeft => false,
        JoinOutputMode::KeepRight => true,
        JoinOutputMode::Full => match (left_hint, right_hint) {
            (Some(l), Some(r)) => f64_order(l, r) == Some(Comparison::Less) || f64_order(l, r)
                == Some(Comparison::Equal),
            _ => true,
        },
    }
}

/// Which side a hash join builds its table of.
pub fn prefer_build_left(mode: JoinOutputMode, left_hint: Option<u64>, right_hint: Option<u64>) -> (r:
    bool)
    ensures
        r == prefers_left(mode, left_hint, right_hint),
{
    match mode {
        JoinOutputMode::KeepLeft => false,
        JoinOutputMode::KeepRight => true,
        JoinOutputMode::Full => match (left_hint, right_hint) {
            (Some(l), Some(r)) => match compare_f64(l, r) {
                Some(Comparison::Less) => true,
                Some(Comparison::Equal) => true,
                _ => false,
            },
            _ => true,
        },
    }
}

/// Whether the inputs are sorted and merged: both are expected to be large, and merged rows are
/// asked for.
pub fn should_use_sort_merge(
    mode: JoinOutputMode,
    left_hint: Option<u64>,
    right_hint: Option<u64>,
    both_large: bool,
) -> (r: bool)
    ensures
        r == (mode is Full && left_hint is Some && right_hint is Some && both_large),
{
    match (mode, left_hint, right_hint) {
        (JoinOutputMode::Full, Some(_), Some(_)) => both_large,
        _ => false,
    }
}

/// Whether values of this type compare as equal only if they are the same.
pub open spec fn exact_type(t: DataType) -> bool {
    t is Int32 || t is Int64 || t is String
}

proof fn lemma_exact_keys(types: Seq<DataType>, a: Seq<Value>, b: Seq<Value>)
    requires
        key_typed(types, a),
        key_typed(types, b),
        forall|i: int| 0 <= i < types.len() ==> exact_type(#[trigger] types[i]),
    ensures
        key_order(a, b) == Comparison::Equal <==> a == b,
    decreases types.len(),
{
    if types.len() == 0 {
        assert(a =~= b);
    } else {
        let ta = types.drop_first();
        let ra = a.drop_first();
        let rb = b.drop_first();
        assert forall|i: int| 0 <= i < ta.len() implies exact_type(#[trigger] ta[i]) by {
            assert(ta[i] == types[i + 1]);
        }
        assert forall|i: int| 0 <= i < ra.len() implies crate::value::has_type(
            #[trigger] ra[i],
            ta[i],
        ) && crate::value::order_of(ra[i], ra[i]) is Some by {
            assert(ra[i] == a[i + 1]);
        }
        assert forall|i: int| 0 <= i < rb.len() implies crate::value::has_type(
            #[trigger] rb[i],
            ta[i],
        ) && crate::value::order_of(rb[i], rb[i]) is Some by {
            assert(rb[i] == b[i + 1]);
        }
        lemma_exact_keys(ta, ra, rb);
        assert(exact_type(types[0]));
        assert(sort_order(a[0], b[0]) == Comparison::Equal <==> a[0] == b[0]) by {
            if a[0] is Str && b[0] is Str {
                crate::value::equal_strings_are_the_same(a[0]->Str_0, b[0]->Str_0);
            }
        }
        assert(a =~= Seq::empty().push(a[0]) + ra);
        assert(b =~= Seq::empty().push(b[0]) + rb);
    }
}

/// Where the key columns of both sides hold integers or texts of the same types, merging by the
/// order of the keys makes the same join as comparing the keys for equality.
pub proof fn order_join_is_equi_join(
    on: JoinOn,
    types: Seq<DataType>,
    ls: Seq<Seq<Value>>,
    rs: Seq<Seq<Value>>,
)
    requires
        !on.by_order,
        keys_typed(types, on.left_keys, ls),
        keys_typed(types, on.right_keys, rs),
        forall|i: int| 0 <= i < types.len() ==> exact_type(#[trigger] types[i]),
    ensures
        join_of(by_order(on), ls, rs) == join_of(on, ls, rs),
{
    assert forall|i: int, j: int|
        0 <= i < ls.len() && 0 <= j < rs.len() implies keys_match(
        by_order(on),
        #[trigger] ls[i],
        #[trigger] rs[j],
    ) == keys_match(on, ls[i], rs[j]) by {
        lemma_exact_keys(types, pick(ls[i], on.left_keys), pick(rs[j], on.right_keys));
    }
    lemma_join_without_keys(by_order(on), on, ls, rs);
}

/// What the probe rows contribute is the output.
proof fn lemma_whole_output(
    mode: JoinOutputMode,
    on: JoinOn,
    bl: bool,
    ls: Seq<Seq<Value>>,
    rs: Seq<Seq<Value>>,
)
    requires
        mode is KeepLeft ==> !bl,
        mode is KeepRight ==> bl,
    ensures
        total(
            mode is Full,
            on,
            bl,
            if bl {
                ls
            } else {
                rs
            },
            if bl {
                rs
            } else {
                ls
            },
        ) == output_of(mode, on, ls, rs),
{
    let build = if bl {
        ls
    } else {
        rs
    };
    let probe = if bl {
        rs
    } else {
        ls
    };
    if mode is Full {
        lemma_total_is_join(on, bl, build, probe);
    } else {
        lemma_total_is_semijoin(on, bl, build, probe);
    }
}

impl AdaptiveEquiJoinOperator {
    /// What the rows are joined on.
    pub closed spec fn on(&self) -> JoinOn {
        self.params@
    }

    pub closed spec fn mode(&self) -> JoinOutputMode {
        self.output_mode
    }

    /// Whether the left side is the build side of a hash join.
    pub closed spec fn builds_left(&self) -> bool {
        self.build_left
    }

    /// Whether the inputs are sorted and merged.
    pub closed spec fn merges(&self) -> bool {
        self.sort_merge
    }

    pub closed spec fn left_len(&self) -> nat {
        self.params.left_len as nat
    }

    pub closed spec fn right_len(&self) -> nat {
        self.params.right_len as nat
    }

    pub closed spec fn schema_view(&self) -> Seq<Seq<char>> {
        self.output_schema@
    }

    /// The rows that the left input handed over.
    pub closed spec fn left_rows(&self) -> Seq<Seq<Value>> {
        self.left_rows@
    }

    /// The rows that the right input handed over.
    pub closed spec fn right_rows(&self) -> Seq<Seq<Value>> {
        self.right_rows@
    }

    /// The rows given out, order aside.
    pub closed spec fn emitted(&self) -> Multiset<Seq<Value>> {
        self.emitted@
    }

    /// Whether all data that was supplied is what the storage held.
    pub closed spec fn faithful(&self) -> bool {
        self.faithful@
    }

    /// Whether an error ended the join.
    pub closed spec fn failed(&self) -> bool {
        self.failed@
    }

    pub closed spec fn ended(&self) -> bool {
        self.state is Done
    }

    pub closed spec fn started(&self) -> bool {
        !(self.state is NotStarted)
    }

    /// The length of a side's rows.
    pub open spec fn side_len(&self, side: Side) -> nat {
        match side {
            Side::Left => self.left_len(),
            Side::Right => self.right_len(),
        }
    }

    /// The side whose next row is asked for.
    pub closed spec fn wants(&self) -> Option<Side> {
        match self.state {
            AdaptiveEquiJoinState::Hash(h) => h.wants(),
            AdaptiveEquiJoinState::Merge(m) => m.wants(),
            _ => None,
        }
    }

    /// Whether blocks are asked for.
    pub closed spec fn waiting(&self) -> bool {
        match self.state {
            AdaptiveEquiJoinState::Hash(h) => h.waiting(),
            AdaptiveEquiJoinState::Merge(m) => m.waiting(),
            _ => false,
        }
    }

    /// Whether `data` is what the storage held in the blocks that are asked for.
    pub closed spec fn expects(&self, data: Seq<u8>) -> bool {
        match self.state {
            AdaptiveEquiJoinState::Hash(h) => h.expects(data),
            AdaptiveEquiJoinState::Merge(m) => m.expects(data),
            _ => false,
        }
    }

    /// How much is left to do: the stages, and of the join that was chosen.
    #[verifier::opaque]
    pub closed spec fn left_to_do(&self) -> Seq<nat> {
        match self.state {
            AdaptiveEquiJoinState::NotStarted => seq![2nat] + no_work(12),
            AdaptiveEquiJoinState::Hash(h) => (seq![1nat] + h.left_to_do()) + no_work(6),
            AdaptiveEquiJoinState::Merge(m) => seq![1nat] + m.left_to_do(),
            AdaptiveEquiJoinState::Done => seq![0nat] + no_work(12),
        }
    }

    pub proof fn left_is_thirteen(&self)
        ensures
            self.left_to_do().len() == 13,
    {
        reveal(AdaptiveEquiJoinOperator::left_to_do);
        match self.state {
            AdaptiveEquiJoinState::Hash(h) => {
                h.left_is_six();
            },
            AdaptiveEquiJoinState::Merge(m) => {
                m.left_is_twelve();
            },
            _ => {},
        }
    }

    /// To start, or to end, is work.
    proof fn stage_nearer(&self, before: &AdaptiveEquiJoinOperator)
        requires
            !before.ended(),
            self.ended() || (!before.started() && self.started()),
        ensures
            nearer(self.left_to_do(), before.left_to_do()),
    {
        self.left_is_thirteen();
        before.left_is_thirteen();
        reveal(AdaptiveEquiJoinOperator::left_to_do);
        nearer_at(self.left_to_do(), before.left_to_do(), 0);
    }

    /// Work of the join that was chosen is work.
    proof fn chosen_nearer(&self, before: &AdaptiveEquiJoinOperator)
        requires
            match (self.state, before.state) {
                (AdaptiveEquiJoinState::Hash(a), AdaptiveEquiJoinState::Hash(b)) => not_farther(
                    a.left_to_do(),
                    b.left_to_do(),
                ),
                (AdaptiveEquiJoinState::Merge(a), AdaptiveEquiJoinState::Merge(b)) => not_farther(
                    a.left_to_do(),
                    b.left_to_do(),
                ),
                _ => false,
            },
        ensures
            not_farther(self.left_to_do(), before.left_to_do()),
            match (self.state, before.state) {
                (AdaptiveEquiJoinState::Hash(a), AdaptiveEquiJoinState::Hash(b)) => nearer(
                    a.left_to_do(),
                    b.left_to_do(),
                ) ==> nearer(self.left_to_do(), before.left_to_do()),
                (AdaptiveEquiJoinState::Merge(a), AdaptiveEquiJoinState::Merge(b)) => nearer(
                    a.left_to_do(),
                    b.left_to_do(),
                ) ==> nearer(self.left_to_do(), before.left_to_do()),
                _ => true,
            },
    {
        reveal(AdaptiveEquiJoinOperator::left_to_do);
        let one = seq![1nat];
        match (self.state, before.state) {
            (AdaptiveEquiJoinState::Hash(a), AdaptiveEquiJoinState::Hash(b)) => {
                if nearer(a.left_to_do(), b.left_to_do()) {
                    nearer_back(one, a.left_to_do(), b.left_to_do());
                    nearer_front(
                        one + a.left_to_do(),
                        one + b.left_to_do(),
                        no_work(6),
                        no_work(6),
                    );
                }
            },
            (AdaptiveEquiJoinState::Merge(a), AdaptiveEquiJoinState::Merge(b)) => {
                if nearer(a.left_to_do(), b.left_to_do()) {
                    nearer_back(one, a.left_to_do(), b.left_to_do());
                }
            },
            _ => {},
        }
    }

    /// The temporary files of the join.
    pub closed spec fn files(&self) -> Set<u64> {
        match self.state {
            AdaptiveEquiJoinState::Hash(h) => h.files(),
            AdaptiveEquiJoinState::Merge(m) => m.files(),
            _ => Set::empty(),
        }
    }

    /// The bytes that the join has reserved.
    pub closed spec fn reserved(&self) -> nat {
        match self.state {
            AdaptiveEquiJoinState::Hash(h) => h.reserved(),
            _ => 0,
        }
    }

    /// Whether a hash join gathers its build side in memory.
    pub closed spec fn gathers(&self) -> bool {
        self.state matches AdaptiveEquiJoinState::Hash(h) && h.gathers()
    }

    /// Whether a hash join is to go over from memory to temporary storage.
    pub closed spec fn overflows(&self) -> bool {
        self.state matches AdaptiveEquiJoinState::Hash(h) && h.overflows()
    }

    /// Whether a hash join has its whole build side as a table in memory.
    pub closed spec fn has_table(&self) -> bool {
        self.state matches AdaptiveEquiJoinState::Hash(h) && h.has_table()
    }

    /// How many rows of a side a merge has gathered in memory to be sorted.
    pub closed spec fn gathered(&self, side: Side) -> nat {
        match self.state {
            AdaptiveEquiJoinState::Merge(m) => m.gathered(side),
            _ => 0,
        }
    }

    /// Whether a merge can store the rows of both sides.
    pub open spec fn has_room(&self, storage: &TempStorageManager) -> bool {
        &&& room_for_rows(self.left_rows(), self.gathered(Side::Left), storage)
        &&& room_for_rows(self.right_rows(), self.gathered(Side::Right), storage)
    }

    /// Whether a hash join wrote rows to temporary storage.
    pub closed spec fn stores(&self) -> bool {
        self.state matches AdaptiveEquiJoinState::Hash(h) && h.stores()
    }

    /// A hash join that has its build side in memory, or gathers it there, has no file.
    pub proof fn memory_join_has_no_files(&self)
        requires
            self.gathers() || self.overflows() || self.has_table(),
        ensures
            self.files() == Set::<u64>::empty(),
            !self.stores(),
    {
        if let AdaptiveEquiJoinState::Hash(h) = self.state {
            h.memory_join_has_no_files();
        }
    }

    spec fn full(&self) -> bool {
        self.output_mode is Full
    }

    spec fn fixed_ok(&self) -> bool {
        &&& self.params.inv()
        &&& self.left_schema@.len() == self.params.left_len
        &&& self.right_schema@.len() == self.params.right_len
        &&& self.sort_merge ==> named_first(self.left_schema@, self.params@.left_keys)
            && named_first(self.right_schema@, self.params@.right_keys)
        &&& self.output_mode is KeepLeft ==> !self.build_left
        &&& self.output_mode is KeepRight ==> self.build_left
        &&& self.sort_merge ==> self.output_mode is Full
    }

    spec fn state_ok(&self, storage: &TempStorageManager) -> bool {
        match self.state {
            AdaptiveEquiJoinState::NotStarted => {
                &&& self.left_rows@.len() == 0
                &&& self.right_rows@.len() == 0
                &&& self.emitted@ == Multiset::<Seq<Value>>::empty()
                &&& !self.failed@
                &&& self.faithful@
            },
            AdaptiveEquiJoinState::Hash(h) => {
                &&& h.inv(self.full(), &self.params, storage)
                &&& h.builds_left() == self.build_left
                &&& h.build_rows() == (if self.build_left {
                    self.left_rows@
                } else {
                    self.right_rows@
                })
                &&& h.probe_rows() == (if self.build_left {
                    self.right_rows@
                } else {
                    self.left_rows@
                })
                &&& h.emitted() == self.emitted@
                &&& h.faithful() == self.faithful@
                &&& !h.ended()
                &&& !self.failed@
                &&& !self.sort_merge
            },
            AdaptiveEquiJoinState::Merge(m) => {
                &&& m.inv(&self.params, storage)
                &&& m.left_rows() == self.left_rows@
                &&& m.right_rows() == self.right_rows@
                &&& m.emitted() == self.emitted@
                &&& m.faithful() == self.faithful@
                &&& !m.ended()
                &&& !self.failed@
                &&& self.sort_merge
            },
            AdaptiveEquiJoinState::Done => self.faithful@ && !self.failed@ ==> if self.sort_merge {
                keys_comparable(by_order(self.params@), self.left_rows@, self.right_rows@)
                    ==> self.emitted@ == join_of(
                    by_order(self.params@),
                    self.left_rows@,
                    self.right_rows@,
                )
            } else {
                self.emitted@ == output_of(
                    self.output_mode,
                    self.params@,
                    self.left_rows@,
                    self.right_rows@,
                )
            },
        }
    }

    pub closed spec fn inv(&self, storage: &TempStorageManager) -> bool {
        &&& storage.inv()
        &&& self.fixed_ok()
        &&& self.state_ok(storage)
    }

    /// A join depends on its own files alone.
    pub proof fn inv_kept(
        &self,
        before: &TempStorageManager,
        after: &TempStorageManager,
        touched: Set<u64>,
    )
        requires
            self.inv(before),
            after.inv(),
            unharmed(before, after, touched),
            touched.disjoint(self.files()),
        ensures
            self.inv(after),
    {
        match self.state {
            AdaptiveEquiJoinState::Hash(h) => {
                h.inv_kept(self.full(), &self.params, before, after, touched);
            },
            AdaptiveEquiJoinState::Merge(m) => {
                m.inv_kept(&self.params, before, after, touched);
            },
            _ => {},
        }
    }

    /// A hash join that came to its end without an error, and was supplied with what the storage
    /// held, has given out exactly its output: the join of its inputs, or the rows of one side
    /// that have a match.
    pub proof fn join_is_complete(&self, storage: &TempStorageManager)
        requires
            self.inv(storage),
            self.ended(),
            !self.failed(),
            self.faithful(),
            !self.merges(),
        ensures
            self.emitted() == output_of(
                self.mode(),
                self.on(),
                self.left_rows(),
                self.right_rows(),
            ),
    {
    }

    /// A merge that came to its end without an error, and was supplied with what the storage
    /// held, has given out exactly the join of its inputs, where keys match that compare as
    /// equal. The keys of both sides have the same types, and none is a NaN.
    pub proof fn merge_is_complete(&self, storage: &TempStorageManager)
        requires
            self.inv(storage),
            self.ended(),
            !self.failed(),
            self.faithful(),
            self.merges(),
            keys_comparable(by_order(self.on()), self.left_rows(), self.right_rows()),
        ensures
            self.emitted() == join_of(
                by_order(self.on()),
                self.left_rows(),
                self.right_rows(),
            ),
    {
    }

    /// A full join that came to its end without an error, and was supplied with what the storage
    /// held, has given out exactly the join of its inputs, whichever way it went: where the keys
    /// of both sides are integers or texts of the same types.
    pub proof fn every_way_gives_the_join(
        &self,
        storage: &TempStorageManager,
        types: Seq<DataType>,
    )
        requires
            self.inv(storage),
            self.ended(),
            !self.failed(),
            self.faithful(),
            self.mode() is Full,
            !self.on().by_order,
            keys_typed(types, self.on().left_keys, self.left_rows()),
            keys_typed(types, self.on().right_keys, self.right_rows()),
            forall|i: int| 0 <= i < types.len() ==> exact_type(#[trigger] types[i]),
        ensures
            self.emitted() == join_of(self.on(), self.left_rows(), self.right_rows()),
    {
        if self.merges() {
            order_join_is_equi_join(self.on(), types, self.left_rows(), self.right_rows());
            self.merge_is_complete(storage);
        } else {
            self.join_is_complete(storage);
        }
    }

    /// A join that came to its end has no memory reserved.
    pub proof fn ended_join_holds_no_memory(&self)
        requires
            self.ended(),
        ensures
            self.reserved() == 0,
    {
    }

    /// Makes a join of two inputs with the given schemas and key columns. The hints are the
    /// expected sizes of the inputs, as the bits of 64 bit floats; `both_large` says whether both
    /// inputs are expected to reach the size from which they are sorted and merged.
    pub fn new(
        left_schema: &RowSchema,
        right_schema: &RowSchema,
        left_key_indices: Vec<usize>,
        right_key_indices: Vec<usize>,
        extra_predicates: &[Predicate],
        left_rows_hint: Option<u64>,
        right_rows_hint: Option<u64>,
        both_large: bool,
        output_mode: JoinOutputMode,
        sort_run_bytes: usize,
    ) -> (r: Result<AdaptiveEquiJoinOperator, DbError>)
        requires
            left_key_indices@.len() == right_key_indices@.len(),
            in_bounds(positions(left_key_indices@), left_schema@.len() as int),
            in_bounds(positions(right_key_indices@), right_schema@.len() as int),
            output_mode is Full && left_rows_hint is Some && right_rows_hint is Some && both_large
                ==> named_first(left_schema@, positions(left_key_indices@)) && named_first(
                right_schema@,
                positions(right_key_indices@),
            ),
        ensures
            ({
                let merged = left_schema@ + right_schema@;
                let missing = first_missing_column(merged, conditions(extra_predicates@));
                match r {
                    Ok(j) => {
                        &&& missing is None
                        &&& j.schema_view() == match output_mode {
                            JoinOutputMode::Full => merged,
                            JoinOutputMode::KeepLeft => left_schema@,
                            JoinOutputMode::KeepRight => right_schema@,
                        }
                        &&& j.on() == (JoinOn {
                            left_keys: positions(left_key_indices@),
                            right_keys: positions(right_key_indices@),
                            extra: conditions(extra_predicates@).map_values(
                                |c: Condition| resolved(merged, c),
                            ),
                            by_order: false,
                        })
                        &&& j.mode() == output_mode
                        &&& j.builds_left() == prefers_left(
                            output_mode,
                            left_rows_hint,
                            right_rows_hint,
                        )
                        &&& j.merges() == (output_mode is Full && left_rows_hint is Some
                            && right_rows_hint is Some && both_large)
                        &&& j.left_len() == left_schema@.len()
                        &&& j.right_len() == right_schema@.len()
                        &&& j.left_rows() == Seq::<Seq<Value>>::empty()
                        &&& j.right_rows() == Seq::<Seq<Value>>::empty()
                        &&& j.emitted() == Multiset::<Seq<Value>>::empty()
                        &&& j.faithful()
                        &&& !j.failed()
                        &&& !j.ended()
                        &&& !j.started()
                        &&& j.reserved() == 0
                        &&& j.files() == Set::<u64>::empty()
                        &&& forall|s: &TempStorageManager| s.inv() ==> #[trigger] j.inv(s)
                    },
                    Err(e) => e matches DbError::ColumnNotFound(c) && Some(c@) == missing,
                }
            }),
    {
        let merged_schema = RowSchema::merge(left_schema, right_schema);
        let extra = match resolve_predicates(&merged_schema, extra_predicates) {
            Ok(v) => v,
            Err(e) => {
                return Err(e);
            },
        };
        let output_schema = match output_mode {
            JoinOutputMode::Full => merged_schema,
            JoinOutputMode::KeepLeft => left_schema.clone(),
            JoinOutputMode::KeepRight => right_schema.clone(),
        };
        let params = JoinParams {
            left_keys: left_key_indices,
            right_keys: right_key_indices,
            extra,
            left_len: left_schema.len(),
            right_len: right_schema.len(),
        };
        Ok(
            AdaptiveEquiJoinOperator {
                params,
                left_schema: left_schema.clone(),
                right_schema: right_schema.clone(),
                output_schema,
                output_mode,
                build_left: prefer_build_left(output_mode, left_rows_hint, right_rows_hint),
                sort_merge: should_use_sort_merge(
                    output_mode,
                    left_rows_hint,
                    right_rows_hint,
                    both_large,
                ),
                sort_run_bytes,
                state: AdaptiveEquiJoinState::NotStarted,
                left_rows: Ghost(Seq::empty()),
                right_rows: Ghost(Seq::empty()),
                emitted: Ghost(Multiset::empty()),
                faithful: Ghost(true),
                failed: Ghost(false),
            },
        )
    }

    pub fn schema(&self) -> (r: &RowSchema)
        ensures
            r@ == self.schema_view(),
    {
        &self.output_schema
    }

    /// Ends the join with an error.
    fn fail(&mut self)
        ensures
            *final(self) == (AdaptiveEquiJoinOperator {
                state: AdaptiveEquiJoinState::Done,
                failed: Ghost(true),
                ..*old(self)
            }),
    {
        self.state = AdaptiveEquiJoinState::Done;
        proof {
            self.failed@ = true;
        }
    }

    spec fn same_join(&self, other: &AdaptiveEquiJoinOperator) -> bool {
        &&& self.params == other.params
        &&& self.left_schema == other.left_schema
        &&& self.right_schema == other.right_schema
        &&& self.output_schema == other.output_schema
        &&& self.output_mode == other.output_mode
        &&& self.build_left == other.build_left
        &&& self.sort_merge == other.sort_merge
        &&& self.sort_run_bytes == other.sort_run_bytes
    }

    /// Begins with the hash join or the merge.
    fn start(&mut self, Ghost(storage): Ghost<TempStorageManager>) -> (r: Result<(), DbError>)
        requires
            old(self).inv(&storage),
            !old(self).started(),
        ensures
            r is Ok,
            final(self).inv(&storage),
            final(self).same_join(old(self)),
            final(self).started(),
            !final(self).ended(),
            final(self).reserved() == 0,
            final(self).files() == Set::<u64>::empty(),
            final(self).left_rows == old(self).left_rows,
            final(self).right_rows == old(self).right_rows,
            final(self).emitted == old(self).emitted,
            final(self).faithful == old(self).faithful,
            final(self).failed == old(self).failed,
    {
        proof {
            assert(self.left_rows@ =~= Seq::<Seq<Value>>::empty());
            assert(self.right_rows@ =~= Seq::<Seq<Value>>::empty());
        }
        if self.sort_merge {
            match SortMergeJoin::new(
                &self.left_schema,
                &self.right_schema,
                &self.params,
                self.sort_run_bytes,
            ) {
                Ok(m) => {
                    self.state = AdaptiveEquiJoinState::Merge(m);
                    Ok(())
                },
                Err(e) => Err(e),
            }
        } else {
            let h = HashFamily::start(self.build_left);
            self.state = AdaptiveEquiJoinState::Hash(h);
            Ok(())
        }
    }
}

impl AdaptiveEquiJoinOperator {
    /// Does the next piece of work: asks for a row or for blocks, or gives a row out.
    #[verifier::rlimit(40)]
    pub fn step(&mut self, memory: &mut QueryMemoryManager, storage: &mut TempStorageManager) -> (r:
        Result<JoinStep, DbError>)
        requires
            old(self).inv(old(storage)),
            old(memory)@.inv(),
            old(self).reserved() <= old(memory)@.used,
        ensures
            final(self).inv(final(storage)),
            final(storage).inv(),
            final(memory)@.inv(),
            untouched(old(storage), final(storage), old(self).files()),
            final(self).on() == old(self).on(),
            final(self).mode() == old(self).mode(),
            final(self).merges() == old(self).merges(),
            final(self).builds_left() == old(self).builds_left(),
            final(self).left_len() == old(self).left_len(),
            final(self).right_len() == old(self).right_len(),
            final(self).schema_view() == old(self).schema_view(),
            final(self).left_rows() == old(self).left_rows(),
            final(self).right_rows() == old(self).right_rows(),
            final(self).faithful() == old(self).faithful(),
            forall|f: u64| #[trigger]
                final(self).files().contains(f) ==> old(self).files().contains(f) || !old(
                    storage,
                ).has_file(f),
            final(self).emitted() == match r {
                Ok(JoinStep::Row(row)) => old(self).emitted().insert(row@),
                _ => old(self).emitted(),
            },
            r is Ok ==> final(self).failed() == old(self).failed() && final(memory)@.used + old(
                self,
            ).reserved() == old(memory)@.used + final(self).reserved(),
            match r {
                Ok(JoinStep::Pull(side)) => final(self).wants() == Some(side),
                Ok(JoinStep::Need(ranges)) => final(self).waiting() && (forall|data: Seq<u8>|
                    is_content(
                        final(storage).disk(),
                        blocks_of(ranges@),
                        data,
                        final(storage).size() as int,
                    ) ==> #[trigger] final(self).expects(data)),
                Ok(JoinStep::NeedAnonStart) => {
                    &&& final(storage).frontier() is None
                    &&& old(self).started() && !old(self).ended()
                    &&& !old(self).merges() ==> old(self).overflows() && final(self).overflows()
                },
                Ok(JoinStep::Done) => final(self).ended(),
                Ok(JoinStep::Again) => !final(self).ended(),
                Ok(JoinStep::Row(_)) => !final(self).ended(),
                Err(e) => {
                    &&& final(self).ended()
                    &&& final(self).failed()
                    &&& old(self).faithful() ==> if old(self).merges() {
                        ||| !old(self).has_room(old(storage)) && (cannot_store_all(
                            e,
                            old(self).left_rows(),
                            final(storage),
                        ) || cannot_store_all(e, old(self).right_rows(), final(storage)))
                        ||| merge_fails(
                            old(self).on(),
                            e,
                            old(self).left_rows(),
                            old(self).right_rows(),
                        )
                    } else {
                        ||| undecided(
                            old(self).on(),
                            e,
                            old(self).left_rows(),
                            old(self).right_rows(),
                        )
                        ||| old(self).stores() && parts_fail(
                            old(self).on(),
                            e,
                            old(self).left_rows(),
                            old(self).right_rows(),
                            old(memory)@,
                            old(storage),
                        )
                        ||| old(self).overflows() && (cannot_store_all(
                            e,
                            if old(self).builds_left() {
                                old(self).left_rows()
                            } else {
                                old(self).right_rows()
                            },
                            final(storage),
                        ) && no_room_for_all(
                            e,
                            if old(self).builds_left() {
                                old(self).left_rows()
                            } else {
                                old(self).right_rows()
                            },
                            old(storage),
                        ) || filters_short(
                            e,
                            MemoryAccount {
                                used: (old(memory)@.used - old(self).reserved()) as nat,
                                ..old(memory)@
                            },
                        ))
                    }
                },
            },
            step_nearer(r, final(self).left_to_do(), old(self).left_to_do()),
            old(self).ended() ==> r matches Ok(JoinStep::Done),
            old(self).wants() matches Some(side) ==> r matches Ok(JoinStep::Pull(s)) && s == side,
            !old(self).started() ==> r is Ok && r->Ok_0 is Again && final(self).started(),
    {
        let ghost s0 = *storage;
        let ghost me = *self;
        proof {
            untouched_same(&s0, storage, me.files());
        }
        match self.state {
            AdaptiveEquiJoinState::NotStarted => {
                return match self.start(Ghost(*storage)) {
                    Ok(_) => {
                        proof {
                            self.stage_nearer(&me);
                        }
                        Ok(JoinStep::Again)
                    },
                    Err(e) => {
                        self.fail();
                        Err(e)
                    },
                };
            },
            _ => {},
        }
        let mut state = AdaptiveEquiJoinState::Done;
        core::mem::swap(&mut self.state, &mut state);
        let full = match self.output_mode {
            JoinOutputMode::Full => true,
            _ => false,
        };
        match state {
            AdaptiveEquiJoinState::Hash(h) => {
                let mut h = h;
                match h.step(full, &self.params, self.sort_run_bytes, memory, storage) {
                    Ok(step) => {
                        proof {
                            self.emitted@ = h.emitted();
                        }
                        match step {
                            JoinStep::Done => {
                                proof {
                                    self.lemma_hash_done(&h, storage);
                                    h.ended_wants_nothing();
                                    self.stage_nearer(&me);
                                }
                                Ok(JoinStep::Done)
                            },
                            step => {
                                proof {
                                    assert(!h.ended()) by {
                                        h.ended_wants_nothing();
                                    }
                                }
                                self.state = AdaptiveEquiJoinState::Hash(h);
                                proof {
                                    self.chosen_nearer(&me);
                                }
                                Ok(step)
                            },
                        }
                    },
                    Err(e) => {
                        self.fail();
                        Err(e)
                    },
                }
            },
            AdaptiveEquiJoinState::Merge(m) => {
                let mut m = m;
                match m.step(&self.params, storage) {
                    Ok(step) => {
                        proof {
                            self.emitted@ = m.emitted();
                        }
                        match step {
                            JoinStep::Done => {
                                proof {
                                    if m.faithful() && keys_comparable(
                                        by_order(self.params@),
                                        m.left_rows(),
                                        m.right_rows(),
                                    ) {
                                        m.merge_is_complete(&self.params, storage);
                                    }
                                    self.stage_nearer(&me);
                                }
                                Ok(JoinStep::Done)
                            },
                            step => {
                                proof {
                                    assert(!m.ended()) by {
                                        m.ended_wants_nothing();
                                    }
                                }
                                self.state = AdaptiveEquiJoinState::Merge(m);
                                proof {
                                    self.chosen_nearer(&me);
                                }
                                Ok(step)
                            },
                        }
                    },
                    Err(e) => {
                        self.fail();
                        Err(e)
                    },
                }
            },
            _ => Ok(JoinStep::Done),
        }
    }

    /// A hash join at its end gives the operator its result.
    proof fn lemma_hash_done(&self, h: &HashFamily, storage: &TempStorageManager)
        requires
            h.inv(self.full(), &self.params, storage),
            h.ended(),
            h.builds_left() == self.build_left,
            self.output_mode is KeepLeft ==> !self.build_left,
            self.output_mode is KeepRight ==> self.build_left,
            h.build_rows() == (if self.build_left {
                self.left_rows@
            } else {
                self.right_rows@
            }),
            h.probe_rows() == (if self.build_left {
                self.right_rows@
            } else {
                self.left_rows@
            }),
        ensures
            h.faithful() ==> h.emitted() == output_of(
                self.output_mode,
                self.params@,
                self.left_rows@,
                self.right_rows@,
            ),
    {
        if h.faithful() {
            h.family_is_complete(self.full(), &self.params, storage);
            lemma_whole_output(
                self.output_mode,
                self.params@,
                self.build_left,
                self.left_rows@,
                self.right_rows@,
            );
        }
    }

    /// Takes the next row of the side that is asked for, or that it has no more.
    #[verifier::rlimit(40)]
    pub fn feed(
        &mut self,
        side: Side,
        row: Option<Row>,
        memory: &mut QueryMemoryManager,
        storage: &mut TempStorageManager,
    ) -> (r: Result<(), DbError>)
        requires
            old(self).inv(old(storage)),
            old(self).wants() == Some(side),
            old(memory)@.inv(),
            old(self).reserved() <= old(memory)@.used,
        ensures
            final(self).inv(final(storage)),
            final(storage).inv(),
            final(memory)@.inv(),
            untouched(old(storage), final(storage), old(self).files()),
            final(self).on() == old(self).on(),
            final(self).mode() == old(self).mode(),
            final(self).merges() == old(self).merges(),
            final(self).builds_left() == old(self).builds_left(),
            final(self).left_len() == old(self).left_len(),
            final(self).right_len() == old(self).right_len(),
            final(self).schema_view() == old(self).schema_view(),
            final(self).faithful() == old(self).faithful(),
            final(self).emitted() == old(self).emitted(),
            forall|f: u64| #[trigger]
                final(self).files().contains(f) ==> old(self).files().contains(f) || !old(
                    storage,
                ).has_file(f),
            r is Ok && row is None ==> nearer(final(self).left_to_do(), old(self).left_to_do()),
            r is Ok ==> {
                &&& !final(self).failed()
                &&& final(self).left_rows() == match row {
                    Some(row) if side is Left => old(self).left_rows().push(row@),
                    _ => old(self).left_rows(),
                }
                &&& final(self).right_rows() == match row {
                    Some(row) if side is Right => old(self).right_rows().push(row@),
                    _ => old(self).right_rows(),
                }
                &&& final(memory)@.used + old(self).reserved() == old(memory)@.used + final(
                    self).reserved()
            },
            r matches Err(e) ==> {
                &&& final(self).failed()
                &&& final(self).ended()
                &&& match e {
                    DbError::RowSchemaMismatch(n, m) => row is Some && n == row->0@.len() && m
                        == old(self).side_len(side) && n != m,
                    _ => {
                        let ls = match row {
                            Some(x) if side is Left => old(self).left_rows().push(x@),
                            _ => old(self).left_rows(),
                        };
                        let rs = match row {
                            Some(x) if side is Right => old(self).right_rows().push(x@),
                            _ => old(self).right_rows(),
                        };
                        ||| !old(self).has_table() && (row is None || !old(self).merges()) && (
                        cannot_store_all(e, ls, final(storage)) || cannot_store_all(
                            e,
                            rs,
                            final(storage),
                        )) && (if old(self).merges() {
                            !old(self).has_room(old(storage))
                        } else {
                            match row {
                                Some(x) => if old(self).gathers() {
                                    no_room_for_all(
                                        e,
                                        if old(self).builds_left() {
                                            ls
                                        } else {
                                            rs
                                        },
                                        old(storage),
                                    )
                                } else {
                                    cannot_store(e, x@, old(storage))
                                },
                                None => out_of_pages(
                                    e,
                                    old(storage),
                                    FINISH_PAGES as nat + MAX_BATCH_PAGES as nat,
                                ),
                            }
                        })
                        ||| old(self).has_table() && undecided(old(self).on(), e, ls, rs)
                        ||| old(self).gathers() && filters_short(
                            e,
                            MemoryAccount {
                                used: (old(memory)@.used - old(self).reserved()) as nat,
                                ..old(memory)@
                            },
                        )
                    },
                }
            },
            row is Some && row->0@.len() != old(self).side_len(side) ==> r is Err
                && r->Err_0 is RowSchemaMismatch,
    {
        let ghost s0 = *storage;
        let ghost me = *self;
        let ghost given = row;
        proof {
            untouched_same(&s0, storage, me.files());
        }
        if let Some(x) = &row {
            let is_left = match side {
                Side::Left => true,
                Side::Right => false,
            };
            match self.params.check_len(is_left, x) {
                Ok(_) => {},
                Err(e) => {
                    self.fail();
                    return Err(e);
                },
            }
        }
        let mut state = AdaptiveEquiJoinState::Done;
        core::mem::swap(&mut self.state, &mut state);
        let full = match self.output_mode {
            JoinOutputMode::Full => true,
            _ => false,
        };
        match state {
            AdaptiveEquiJoinState::Hash(h) => {
                let mut h = h;
                match h.feed(
                    side,
                    row,
                    full,
                    &self.params,
                    self.sort_run_bytes,
                    memory,
                    storage,
                ) {
                    Ok(_) => {
                        proof {
                            if given is Some {
                                if side is Left {
                                    self.left_rows@ = self.left_rows@.push(given->0@);
                                } else {
                                    self.right_rows@ = self.right_rows@.push(given->0@);
                                }
                            }
                        }
                        if h.is_done() {
                            proof {
                                self.lemma_hash_done(&h, storage);
                                h.ended_wants_nothing();
                                self.stage_nearer(&me);
                            }
                        } else {
                            self.state = AdaptiveEquiJoinState::Hash(h);
                            proof {
                                if given is None {
                                    self.chosen_nearer(&me);
                                }
                            }
                        }
                        Ok(())
                    },
                    Err(e) => {
                        self.fail();
                        Err(e)
                    },
                }
            },
            AdaptiveEquiJoinState::Merge(m) => {
                let mut m = m;
                match m.feed(side, row, &self.params, storage) {
                    Ok(_) => {
                        proof {
                            if given is Some {
                                if side is Left {
                                    self.left_rows@ = self.left_rows@.push(given->0@);
                                } else {
                                    self.right_rows@ = self.right_rows@.push(given->0@);
                                }
                            }
                        }
                        self.state = AdaptiveEquiJoinState::Merge(m);
                        proof {
                            self.chosen_nearer(&me);
                        }
                        Ok(())
                    },
                    Err(e) => {
                        self.fail();
                        Err(e)
                    },
                }
            },
            _ => Ok(()),
        }
    }

    /// Takes the contents of the blocks that were asked for.
    pub fn supply(&mut self, data: Vec<u8>, storage: &TempStorageManager) -> (r: Result<
        (),
        DbError,
    >)
        requires
            old(self).inv(storage),
            old(self).waiting(),
        ensures
            final(self).inv(storage),
            final(self).on() == old(self).on(),
            final(self).mode() == old(self).mode(),
            final(self).merges() == old(self).merges(),
            final(self).builds_left() == old(self).builds_left(),
            final(self).left_len() == old(self).left_len(),
            final(self).right_len() == old(self).right_len(),
            final(self).schema_view() == old(self).schema_view(),
            final(self).left_rows() == old(self).left_rows(),
            final(self).right_rows() == old(self).right_rows(),
            final(self).emitted() == old(self).emitted(),
            final(self).faithful() == (old(self).faithful() && old(self).expects(data@)),
            final(self).files().subset_of(old(self).files()),
            old(self).expects(data@) ==> r is Ok,
            r is Ok ==> nearer(final(self).left_to_do(), old(self).left_to_do()),
            r is Ok ==> !final(self).failed() && !final(self).ended() && final(self).reserved()
                == old(self).reserved(),
            r is Err ==> final(self).failed() && final(self).ended(),
    {
        let ghost me = *self;
        let ghost good_data = self.expects(data@);
        proof {
            self.faithful@ = self.faithful@ && good_data;
        }
        let mut state = AdaptiveEquiJoinState::Done;
        core::mem::swap(&mut self.state, &mut state);
        let ghost full = self.full();
        let ghost params = self.params;
        match state {
            AdaptiveEquiJoinState::Hash(h) => {
                let mut h = h;
                match h.supply(data, Ghost(full), Ghost(params), Ghost(*storage)) {
                    Ok(_) => {
                        self.state = AdaptiveEquiJoinState::Hash(h);
                        proof {
                            self.chosen_nearer(&me);
                        }
                        Ok(())
                    },
                    Err(e) => {
                        self.fail();
                        Err(e)
                    },
                }
            },
            AdaptiveEquiJoinState::Merge(m) => {
                let mut m = m;
                match m.supply(data, storage, Ghost(params)) {
                    Ok(_) => {
                        self.state = AdaptiveEquiJoinState::Merge(m);
                        proof {
                            self.chosen_nearer(&me);
                        }
                        Ok(())
                    },
                    Err(e) => {
                        self.fail();
                        Err(e)
                    },
                }
            },
            _ => Ok(()),
        }
    }
}

} // verus!

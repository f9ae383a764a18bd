//! The sort-merge join: both inputs are sorted by their keys and merged.

use vstd::multiset::Multiset;
use vstd::prelude::*;
use crate::error::DbError;
use crate::filter::eval_resolved;
use crate::floats::Comparison;
use crate::join_spec::{JoinOn, join_of, left_with, lemma_join_push_left, lemma_left_with_push, pair};
use crate::join_step::{JoinStep, Side, step_nearer};
use crate::join_table::{JoinParams, all_len, decided, lemma_undecided, pair_fails, undecided};
use crate::key_ordering::{ascending_keys, compare_join_keys, compare_same_side_keys, key_order_flips, key_typed, lemma_row_order_is_key_order, lemma_row_typed_key};
use crate::merge_spec::{cross, is_group, keyless, keys_comparable, keys_typed, leads, lemma_before, lemma_merged, lemma_pass_groups, lemma_pass_left, lemma_pass_right, passed_by};
use crate::ordering::{all_typed, key_order, not_after, sortable};
use crate::partition_join::{bag, lemma_bag_empty, lemma_bag_pop};
use crate::query::SortSpec;
use crate::progress::{nearer, nearer_at, nearer_back, nearer_front, not_farther};
use crate::row::{Row, RowSchema, column_position, in_bounds, pick};
use crate::sort::{SortOperator, SortStep, sort_keys_of, spec_names};
use crate::temp_run::{all_fit, blocks_of, cannot_store_all, is_content};
use crate::temp_storage::{MAX_BATCH_PAGES, TempStorageManager, unharmed, untouched, untouched_more};
use crate::value::{DataType, Value};
use crate::views::{positions, rows_of};
use crate::pairs::shares;

verus! {

broadcast use crate::views::lemma_rows_of_push;

/// Whether a sort that has gathered so many rows of its input can store them: they fit a page, and
/// there is room for a batch for each, and for two more.
pub open spec fn room_for_rows(
    rows: Seq<Seq<Value>>,
    gathered: nat,
    storage: &TempStorageManager,
) -> bool {
    all_fit(rows, storage.size()) && storage.roomy(shares(gathered + 2, MAX_BATCH_PAGES as nat))
}

/// What is fetched from a sorted input.
enum Fetch {
    Step(JoinStep),
    Row(Row),
    End,
}

/// Makes a step of one of the sorts.
fn fetch(op: &mut SortOperator, side: Side, storage: &mut TempStorageManager) -> (r: Result<
    Fetch,
    DbError,
>)
    requires
        old(op).inv(old(storage)),
    ensures
        final(op).inv(final(storage)),
        final(storage).inv(),
        untouched(old(storage), final(storage), old(op).files()),
        final(op).keys() == old(op).keys(),
        final(op).schema_view() == old(op).schema_view(),
        final(op).input() == old(op).input(),
        final(op).faithful() == old(op).faithful(),
        forall|f: u64| #[trigger]
            final(op).files().contains(f) ==> old(op).files().contains(f) || !old(storage).has_file(
                f,
            ),
        final(op).emitted() == match r {
            Ok(Fetch::Row(row)) => old(op).emitted().push(row@),
            _ => old(op).emitted(),
        },
        r is Ok ==> final(op).failed() == old(op).failed(),
        match r {
            Ok(Fetch::Step(JoinStep::Again)) | Ok(Fetch::Row(_)) => nearer(
                final(op).left_to_do(),
                old(op).left_to_do(),
            ),
            Ok(_) => not_farther(final(op).left_to_do(), old(op).left_to_do()),
            Err(_) => true,
        },
        !old(op).wants() && !old(op).spills() ==> !final(op).wants() && !final(op).spills(),
        old(op).wants() ==> r matches Ok(Fetch::Step(JoinStep::Pull(_))),
        match r {
            Ok(Fetch::Row(row)) => row@.len() == old(op).schema_view().len() && !final(op).wants()
                && !final(op).spills(),
            Ok(Fetch::End) => final(op).ended() && !final(op).wants() && !final(op).spills(),
            Ok(Fetch::Step(JoinStep::Pull(s))) => s == side && final(op).wants(),
            Ok(Fetch::Step(JoinStep::Need(ranges))) => final(op).waiting() && (forall|
                data: Seq<u8>,
            |
                is_content(
                    final(storage).disk(),
                    blocks_of(ranges@),
                    data,
                    final(storage).size() as int,
                ) ==> #[trigger] final(op).expects(data)),
            Ok(Fetch::Step(JoinStep::NeedAnonStart)) => final(storage).frontier() is None,
            Ok(Fetch::Step(JoinStep::Again)) => true,
            Ok(Fetch::Step(_)) => false,
            Err(e) => old(op).faithful() ==> cannot_store_all(e, old(op).input(), final(storage))
                && !room_for_rows(old(op).input(), old(op).gathered(), old(storage)),
        },
{
    match op.step(storage) {
        Ok(SortStep::Pull) => Ok(Fetch::Step(JoinStep::Pull(side))),
        Ok(SortStep::Again) => Ok(Fetch::Step(JoinStep::Again)),
        Ok(SortStep::Need(ranges)) => Ok(Fetch::Step(JoinStep::Need(ranges))),
        Ok(SortStep::NeedAnonStart) => Ok(Fetch::Step(JoinStep::NeedAnonStart)),
        Ok(SortStep::Row(row)) => Ok(Fetch::Row(row)),
        Ok(SortStep::Done) => Ok(Fetch::End),
        Err(e) => Err(e),
    }
}

/// The columns of a key, to be sorted ascending.
pub fn build_sort_specs(schema: &RowSchema, key_indices: &[usize]) -> (r: Vec<SortSpec>)
    requires
        in_bounds(positions(key_indices@), schema@.len() as int),
    ensures
        r@.len() == key_indices@.len(),
        forall|i: int|
            0 <= i < r@.len() ==> (#[trigger] r@[i]).column_name@ == schema@[key_indices@[i] as int]
                && r@[i].ascending,
{
    let names = schema.column_names();
    let mut specs: Vec<SortSpec> = Vec::new();
    let mut i: usize = 0;
    while i < key_indices.len()
        invariant
            i <= key_indices@.len(),
            specs@.len() == i,
            in_bounds(positions(key_indices@), schema@.len() as int),
            crate::views::texts(names@) == schema@,
            forall|j: int|
                0 <= j < i ==> (#[trigger] specs@[j]).column_name@
                    == schema@[key_indices@[j] as int] && specs@[j].ascending,
        decreases key_indices@.len() - i,
    {
        assert(positions(key_indices@)[i as int] == key_indices@[i as int]);
        assert(crate::views::texts(names@).len() == names@.len());
        let idx: usize = key_indices[i];
        specs.push(SortSpec { column_name: names[idx].clone(), ascending: true });
        i += 1;
    }
    specs
}

/// Whether each key column is the first one of its name.
pub open spec fn named_first(schema: Seq<Seq<char>>, at: Seq<int>) -> bool {
    forall|i: int|
        0 <= i < at.len() ==> column_position(schema, schema[#[trigger] at[i]]) == at[i]
}

enum MergePhase {
    FirstLeft,
    FirstRight,
    Comparing,
    NextLeft,
    NextRight,
    GroupLeft,
    GroupRight,
    Done,
}

/// Merges two sorted inputs.
pub struct SortMergeJoin {
    left: SortOperator,
    right: SortOperator,
    current_left: Option<Row>,
    current_right: Option<Row>,
    left_group: Vec<Row>,
    right_group: Vec<Row>,
    phase: MergePhase,
    output: Vec<Row>,
    done_left: Ghost<Seq<Seq<Value>>>,
    done_right: Ghost<Seq<Seq<Value>>>,
    emitted: Ghost<Multiset<Seq<Value>>>,
}

/// The row, where there is one.
pub open spec fn maybe_row(row: Option<Row>) -> Seq<Seq<Value>> {
    match row {
        Some(r) => Seq::empty().push(r@),
        None => Seq::empty(),
    }
}

/// The join as a merge makes it: keys match that compare as equal.
pub open spec fn by_order(on: JoinOn) -> JoinOn {
    JoinOn { by_order: true, ..on }
}

/// Whether all rows of a group have the key of its first row.
pub open spec fn one_key(at: Seq<int>, group: Seq<Seq<Value>>) -> bool {
    forall|i: int|
        0 <= i < group.len() ==> key_order(pick(#[trigger] group[i], at), pick(group[0], at))
            == Comparison::Equal
}

impl SortMergeJoin {
    pub closed spec fn left_rows(&self) -> Seq<Seq<Value>> {
        self.left.input()
    }

    pub closed spec fn right_rows(&self) -> Seq<Seq<Value>> {
        self.right.input()
    }

    pub closed spec fn emitted(&self) -> Multiset<Seq<Value>> {
        self.emitted@
    }

    /// How many rows of a side are gathered in memory to be sorted.
    pub closed spec fn gathered(&self, side: Side) -> nat {
        match side {
            Side::Left => self.left.gathered(),
            Side::Right => self.right.gathered(),
        }
    }

    /// Whether both sides can store their rows.
    pub open spec fn has_room(&self, storage: &TempStorageManager) -> bool {
        &&& room_for_rows(self.left_rows(), self.gathered(Side::Left), storage)
        &&& room_for_rows(self.right_rows(), self.gathered(Side::Right), storage)
    }

    /// Whether all data that was supplied is what the storage held.
    pub closed spec fn faithful(&self) -> bool {
        self.left.faithful() && self.right.faithful()
    }

    pub closed spec fn ended(&self) -> bool {
        self.phase is Done
    }

    /// The side whose next row is asked for.
    pub closed spec fn wants(&self) -> Option<Side> {
        match self.phase {
            MergePhase::FirstLeft => if self.left.wants() {
                Some(Side::Left)
            } else {
                None
            },
            MergePhase::FirstRight => if self.right.wants() {
                Some(Side::Right)
            } else {
                None
            },
            _ => None,
        }
    }

    spec fn on_left(&self) -> bool {
        self.phase is FirstLeft || self.phase is NextLeft || self.phase is GroupLeft
    }

    spec fn on_right(&self) -> bool {
        self.phase is FirstRight || self.phase is NextRight || self.phase is GroupRight
    }

    /// How far the merge is from its end, where the sorts stay as they are.
    spec fn stages(&self) -> nat {
        match self.phase {
            MergePhase::FirstLeft => 8,
            MergePhase::FirstRight => 7,
            MergePhase::Comparing => if self.current_left is Some && self.current_right is Some {
                6
            } else {
                1
            },
            MergePhase::NextLeft | MergePhase::NextRight | MergePhase::GroupLeft => 5,
            MergePhase::GroupRight => 4,
            MergePhase::Done => 0,
        }
    }

    /// How much is left to do: of the sorts, of the merge, and the rows that were merged.
    #[verifier::opaque]
    pub closed spec fn left_to_do(&self) -> Seq<nat> {
        (self.left.left_to_do() + self.right.left_to_do()) + seq![self.stages(), self.output@.len()]
    }

    pub proof fn left_is_twelve(&self)
        ensures
            self.left_to_do().len() == 12,
    {
        reveal(SortMergeJoin::left_to_do);
        self.left.left_is_five();
        self.right.left_is_five();
    }

    /// What counts of the sorts counts first, then what counts of the merge.
    proof fn merge_nearer(&self, before: &SortMergeJoin)
        requires
            not_farther(self.left.left_to_do(), before.left.left_to_do()),
            not_farther(self.right.left_to_do(), before.right.left_to_do()),
            nearer(self.left.left_to_do(), before.left.left_to_do()) || nearer(
                self.right.left_to_do(),
                before.right.left_to_do(),
            ) || self.stages() < before.stages() || (self.stages() == before.stages()
                && self.output@.len() < before.output@.len()),
        ensures
            nearer(self.left_to_do(), before.left_to_do()),
    {
        reveal(SortMergeJoin::left_to_do);
        let (a, b) = (self.left.left_to_do(), before.left.left_to_do());
        let (c, d) = (self.right.left_to_do(), before.right.left_to_do());
        let x = seq![self.stages(), self.output@.len()];
        let y = seq![before.stages(), before.output@.len()];
        self.left.left_is_five();
        self.right.left_is_five();
        before.left.left_is_five();
        before.right.left_is_five();
        if nearer(a, b) {
            nearer_front(a, b, c, d);
            nearer_front(a + c, b + d, x, y);
        } else if nearer(c, d) {
            nearer_back(a, c, d);
            nearer_front(a + c, b + d, x, y);
        } else {
            if self.stages() < before.stages() {
                nearer_at(x, y, 0);
            } else {
                nearer_at(x, y, 1);
            }
            nearer_back(a + c, x, y);
        }
    }

    proof fn merge_not_farther(&self, before: &SortMergeJoin)
        requires
            not_farther(self.left.left_to_do(), before.left.left_to_do()),
            not_farther(self.right.left_to_do(), before.right.left_to_do()),
            self.stages() == before.stages(),
            self.output == before.output,
        ensures
            not_farther(self.left_to_do(), before.left_to_do()),
    {
        reveal(SortMergeJoin::left_to_do);
        if nearer(self.left.left_to_do(), before.left.left_to_do()) || nearer(
            self.right.left_to_do(),
            before.right.left_to_do(),
        ) {
            self.merge_nearer(before);
        }
    }

    /// Whether blocks are asked for.
    pub closed spec fn waiting(&self) -> bool {
        if self.on_left() {
            self.left.waiting()
        } else {
            self.on_right() && self.right.waiting()
        }
    }

    spec fn side_expects(&self, is_left: bool, data: Seq<u8>) -> bool {
        if is_left {
            self.left.expects(data)
        } else {
            self.right.expects(data)
        }
    }

    /// Whether `data` is what the storage held in the blocks that are asked for.
    pub closed spec fn expects(&self, data: Seq<u8>) -> bool {
        self.side_expects(self.on_left(), data)
    }

    pub closed spec fn files(&self) -> Set<u64> {
        self.left.files().union(self.right.files())
    }

    spec fn sorts_ok(&self, params: &JoinParams, storage: &TempStorageManager) -> bool {
        &&& params.inv()
        &&& storage.inv()
        &&& self.left.inv(storage)
        &&& self.right.inv(storage)
        &&& !self.left.failed()
        &&& !self.right.failed()
        &&& self.left.files().disjoint(self.right.files())
        &&& self.left.keys() == ascending_keys(params@.left_keys)
        &&& self.right.keys() == ascending_keys(params@.right_keys)
        &&& self.left.schema_view().len() == params.left_len
        &&& self.right.schema_view().len() == params.right_len
    }

    spec fn rows_ok(&self, params: &JoinParams) -> bool {
        &&& self.left.emitted() == self.done_left@ + rows_of(self.left_group@) + maybe_row(
            self.current_left,
        )
        &&& self.right.emitted() == self.done_right@ + rows_of(self.right_group@) + maybe_row(
            self.current_right,
        )
        &&& all_len(rows_of(self.left_group@), params.left_len as nat)
        &&& all_len(rows_of(self.right_group@), params.right_len as nat)
        &&& self.current_left matches Some(r) ==> r@.len() == params.left_len
        &&& self.current_right matches Some(r) ==> r@.len() == params.right_len
    }

    spec fn groups_none(&self) -> bool {
        self.left_group@.len() == 0 && self.right_group@.len() == 0
    }

    spec fn inputs_read(&self) -> bool {
        !self.left.wants() && !self.left.spills() && !self.right.wants() && !self.right.spills()
    }

    spec fn phase_ok(&self, params: &JoinParams) -> bool {
        let none = Seq::<Seq<Value>>::empty();
        match self.phase {
            MergePhase::FirstLeft => {
                &&& self.groups_none()
                &&& self.current_left is None
                &&& self.current_right is None
                &&& self.done_left@ == none
                &&& self.done_right@ == none
                &&& self.output@.len() == 0
                &&& self.emitted@ == Multiset::<Seq<Value>>::empty()
                &&& self.right.input() == none
                &&& self.right.wants()
            },
            MergePhase::FirstRight => {
                &&& self.groups_none()
                &&& self.current_right is None
                &&& self.done_left@ == none
                &&& self.done_right@ == none
                &&& self.output@.len() == 0
                &&& self.emitted@ == Multiset::<Seq<Value>>::empty()
                &&& !self.left.wants()
                &&& !self.left.spills()
                &&& self.current_left is None ==> self.left.ended()
            },
            MergePhase::Comparing => {
                &&& self.groups_none()
                &&& self.inputs_read()
                &&& self.current_left is None ==> self.left.ended()
                &&& self.current_right is None ==> self.right.ended()
            },
            MergePhase::NextLeft => {
                &&& self.groups_none()
                &&& self.inputs_read()
                &&& self.current_left is None
                &&& self.current_right is Some
                &&& self.output@.len() == 0
            },
            MergePhase::NextRight => {
                &&& self.groups_none()
                &&& self.inputs_read()
                &&& self.current_left is Some
                &&& self.current_right is None
                &&& self.output@.len() == 0
            },
            MergePhase::GroupLeft => {
                &&& self.inputs_read()
                &&& self.left_group@.len() > 0
                &&& self.right_group@.len() == 1
                &&& self.current_left is None
                &&& self.current_right is None
                &&& self.output@.len() == 0
                &&& one_key(params@.left_keys, rows_of(self.left_group@))
                &&& cross(params@, self.left_group@[0]@, self.right_group@[0]@)
                    == Comparison::Equal
            },
            MergePhase::GroupRight => {
                &&& self.inputs_read()
                &&& self.left_group@.len() > 0
                &&& self.right_group@.len() > 0
                &&& self.current_right is None
                &&& self.output@.len() == 0
                &&& one_key(params@.left_keys, rows_of(self.left_group@))
                &&& one_key(params@.right_keys, rows_of(self.right_group@))
                &&& cross(params@, self.left_group@[0]@, self.right_group@[0]@)
                    == Comparison::Equal
                &&& match self.current_left {
                    Some(c) => key_order(
                        pick(c@, params@.left_keys),
                        pick(self.left_group@[0]@, params@.left_keys),
                    ) != Comparison::Equal,
                    None => self.left.ended(),
                }
            },
            MergePhase::Done => {
                &&& self.groups_none()
                &&& self.inputs_read()
                &&& self.output@.len() == 0
                &&& (self.current_left is None && self.left.ended()) || (self.current_right is None
                    && self.right.ended())
            },
        }
    }

    spec fn left_rest(&self) -> Multiset<Seq<Value>> {
        self.left.input().to_multiset().sub(self.done_left@.to_multiset())
    }

    spec fn right_rest(&self) -> Multiset<Seq<Value>> {
        self.right.input().to_multiset().sub(self.done_right@.to_multiset())
    }

    spec fn merged_ok(&self, params: &JoinParams) -> bool {
        let on = by_order(params@);
        self.faithful() && keys_comparable(on, self.left.input(), self.right.input()) ==> {
            &&& passed_by(
                on,
                self.done_left@,
                self.done_right@,
                self.left_rest(),
                self.right_rest(),
            )
            &&& self.emitted@.add(bag(self.output@)) == join_of(
                on,
                self.done_left@,
                self.done_right@,
            )
        }
    }

    pub closed spec fn inv(&self, params: &JoinParams, storage: &TempStorageManager) -> bool {
        &&& self.sorts_ok(params, storage)
        &&& self.rows_ok(params)
        &&& self.phase_ok(params)
        &&& self.merged_ok(params)
    }

    /// The files of a merge exist.
    pub proof fn inv_gives(&self, params: &JoinParams, storage: &TempStorageManager)
        requires
            self.inv(params, storage),
        ensures
            storage.inv(),
            forall|f: u64| #[trigger] self.files().contains(f) ==> storage.has_file(f),
    {
        self.left.inv_gives(storage);
        self.right.inv_gives(storage);
    }

    /// A merge depends on its own files alone.
    pub proof fn inv_kept(
        &self,
        params: &JoinParams,
        before: &TempStorageManager,
        after: &TempStorageManager,
        touched: Set<u64>,
    )
        requires
            self.inv(params, before),
            after.inv(),
            unharmed(before, after, touched),
            touched.disjoint(self.files()),
        ensures
            self.inv(params, after),
    {
        assert(touched.disjoint(self.left.files()));
        assert(touched.disjoint(self.right.files()));
        self.left.inv_kept(before, after, touched);
        self.right.inv_kept(before, after, touched);
    }

    /// A merge at its end asks for nothing.
    pub proof fn ended_wants_nothing(&self)
        ensures
            self.ended() ==> self.wants() is None && !self.waiting(),
    {
    }

    /// A merge that came to its end has given out the join of its inputs, where the keys of both
    /// sides can be compared.
    pub proof fn merge_is_complete(&self, params: &JoinParams, storage: &TempStorageManager)
        requires
            self.inv(params, storage),
            self.ended(),
            self.faithful(),
            keys_comparable(by_order(params@), self.left_rows(), self.right_rows()),
        ensures
            self.emitted() == join_of(by_order(params@), self.left_rows(), self.right_rows()),
    {
        broadcast use vstd::seq_lib::group_to_multiset_ensures;

        let on = by_order(params@);
        lemma_bag_empty();
        assert(rows_of(self.output@) =~= Seq::<Seq<Value>>::empty());
        assert(self.emitted@.add(bag(self.output@)) =~= self.emitted@);
        assert(rows_of(self.left_group@) =~= Seq::<Seq<Value>>::empty());
        assert(rows_of(self.right_group@) =~= Seq::<Seq<Value>>::empty());
        lemma_parts_within(&self.left, storage, self.done_left@, maybe_row(self.current_left));
        lemma_parts_within(&self.right, storage, self.done_right@, maybe_row(self.current_right));
        assert(self.left.emitted() =~= self.done_left@ + maybe_row(self.current_left));
        assert(self.right.emitted() =~= self.done_right@ + maybe_row(self.current_right));
        if self.current_left is None && self.left.ended() {
            self.left.sort_is_complete(storage);
            assert(self.left.emitted() =~= self.done_left@);
        } else {
            self.right.sort_is_complete(storage);
            assert(self.right.emitted() =~= self.done_right@);
        }
        lemma_merged(
            on,
            self.left.input(),
            self.right.input(),
            self.done_left@,
            self.done_right@,
        );
    }
}

/// What was passed is part of the input.
proof fn lemma_parts_within(
    op: &SortOperator,
    storage: &TempStorageManager,
    done: Seq<Seq<Value>>,
    more: Seq<Seq<Value>>,
)
    requires
        op.inv(storage),
        !op.failed(),
        op.faithful(),
        op.emitted() == done + more,
    ensures
        done.to_multiset().subset_of(op.input().to_multiset()),
        (done + more).to_multiset().subset_of(op.input().to_multiset()),
        more.to_multiset().subset_of(op.input().to_multiset().sub(done.to_multiset())),
        op.input().to_multiset().sub((done + more).to_multiset()) == op.input().to_multiset().sub(
            done.to_multiset(),
        ).sub(more.to_multiset()),
{
    op.emitted_comes_first(storage);
    vstd::seq_lib::lemma_multiset_commutative(done, more);
    let all = op.input().to_multiset();
    assert((done + more).to_multiset() == done.to_multiset().add(more.to_multiset()));
    assert forall|x: Seq<Value>| done.to_multiset().count(x) + more.to_multiset().count(x)
        <= all.count(x) by {
        assert((done + more).to_multiset().count(x) <= all.count(x));
    }
    assert(all.sub((done + more).to_multiset()) =~= all.sub(done.to_multiset()).sub(
        more.to_multiset(),
    ));
}

/// A row of a group is a row of the input.
proof fn lemma_group_row(
    op: &SortOperator,
    storage: &TempStorageManager,
    done: Seq<Seq<Value>>,
    group: Seq<Seq<Value>>,
    next: Option<Row>,
    i: int,
) -> (k: int)
    requires
        op.inv(storage),
        !op.failed(),
        op.faithful(),
        op.emitted() == done + group + maybe_row(next),
        0 <= i < group.len(),
    ensures
        0 <= k < op.input().len(),
        op.input()[k] == group[i],
{
    broadcast use vstd::seq_lib::group_to_multiset_ensures;

    op.emitted_comes_first(storage);
    let x = group[i];
    assert(op.emitted()[done.len() + i] == x);
    assert(op.emitted().contains(x));
    assert(op.emitted().to_multiset().count(x) > 0);
    assert(op.input().to_multiset().count(x) > 0);
    assert(op.input().contains(x));
    choose|k: int| 0 <= k < op.input().len() && op.input()[k] == x
}

/// Typed keys make an input sortable.
proof fn lemma_sortable(at: Seq<int>, types: Seq<DataType>, rows: Seq<Seq<Value>>, len: usize)
    requires
        in_bounds(at, len as int),
        keys_typed(types, at, rows),
    ensures
        sortable(ascending_keys(at), rows),
        forall|i: int| 0 <= i < at.len() ==> 0 <= #[trigger] at[i] <= usize::MAX,
{
    assert forall|i: int| 0 <= i < at.len() implies 0 <= #[trigger] at[i] <= usize::MAX by {}
    assert forall|i: int| 0 <= i < rows.len() implies crate::ordering::row_typed(
        ascending_keys(at),
        types,
        #[trigger] rows[i],
    ) by {
        lemma_row_typed_key(at, types, rows[i]);
    }
    assert(all_typed(ascending_keys(at), types, rows));
}

/// Rows of a bag of typed rows are typed.
proof fn lemma_rest_typed(
    at: Seq<int>,
    types: Seq<DataType>,
    rows: Seq<Seq<Value>>,
    done: Seq<Seq<Value>>,
)
    requires
        keys_typed(types, at, rows),
    ensures
        forall|y: Seq<Value>| #[trigger]
            rows.to_multiset().sub(done.to_multiset()).count(y) > 0 ==> key_typed(
                types,
                pick(y, at),
            ),
{
    broadcast use vstd::seq_lib::group_to_multiset_ensures;

    assert forall|y: Seq<Value>| #[trigger]
        rows.to_multiset().sub(done.to_multiset()).count(y) > 0 implies key_typed(
        types,
        pick(y, at),
    ) by {
        assert(rows.to_multiset().count(y) > 0);
        assert(rows.contains(y));
        let i = choose|i: int| 0 <= i < rows.len() && rows[i] == y;
        assert(key_typed(types, pick(rows[i], at)));
    }
}

/// The foremost row comes before all that is left.
proof fn lemma_foremost(
    op: &SortOperator,
    storage: &TempStorageManager,
    at: Seq<int>,
    types: Seq<DataType>,
    len: usize,
    done: Seq<Seq<Value>>,
    c: Seq<Value>,
)
    requires
        op.inv(storage),
        !op.failed(),
        op.faithful(),
        in_bounds(at, len as int),
        op.keys() == ascending_keys(at),
        keys_typed(types, at, op.input()),
        op.emitted() == done.push(c),
    ensures
        ({
            let rest = op.input().to_multiset().sub(done.to_multiset());
            &&& leads(at, c, rest)
            &&& rest.count(c) > 0
            &&& key_typed(types, pick(c, at))
            &&& op.input().to_multiset().sub(done.push(c).to_multiset()) == rest.remove(c)
        }),
{
    broadcast use vstd::seq_lib::group_to_multiset_ensures;

    let one = Seq::<Seq<Value>>::empty().push(c);
    assert(done.push(c) =~= done + one);
    lemma_parts_within(op, storage, done, one);
    op.emitted_comes_first(storage);
    lemma_sortable(at, types, op.input(), len);
    let all = op.input().to_multiset();
    let rest = all.sub(done.to_multiset());
    assert(one.contains(one[0]));
    assert(one.to_multiset().count(c) > 0);
    lemma_rest_typed(at, types, op.input(), done);
    vstd::seq_lib::to_multiset_build(done, c);
    assert(all.sub(done.push(c).to_multiset()) =~= rest.remove(c));
    assert forall|y: Seq<Value>| #[trigger] rest.count(y) > 0 implies key_order(
        pick(c, at),
        pick(y, at),
    ) != Comparison::Greater by {
        if y == c {
            key_order_flips(pick(c, at), pick(c, at));
        } else {
            assert(op.rest() == all.sub(done.push(c).to_multiset()));
            assert(op.rest().count(y) > 0);
            let i = done.len() as int;
            assert(op.emitted()[i] == c);
            assert(not_after(op.keys(), op.emitted()[i], y));
            lemma_row_order_is_key_order(at, c, y);
        }
    }
}

/// Rows given out earlier have no greater key.
proof fn lemma_in_turn(
    op: &SortOperator,
    storage: &TempStorageManager,
    at: Seq<int>,
    types: Seq<DataType>,
    len: usize,
    i: int,
    j: int,
)
    requires
        op.inv(storage),
        !op.failed(),
        op.faithful(),
        in_bounds(at, len as int),
        op.keys() == ascending_keys(at),
        keys_typed(types, at, op.input()),
        0 <= i < j < op.emitted().len(),
    ensures
        key_order(pick(op.emitted()[i], at), pick(op.emitted()[j], at)) != Comparison::Greater,
{
    op.emitted_comes_first(storage);
    lemma_sortable(at, types, op.input(), len);
    assert(not_after(op.keys(), op.emitted()[i], op.emitted()[j]));
    lemma_row_order_is_key_order(at, op.emitted()[i], op.emitted()[j]);
}

/// A complete group: its rows have one key, and what is left comes after it.
proof fn lemma_group_closed(
    op: &SortOperator,
    storage: &TempStorageManager,
    at: Seq<int>,
    types: Seq<DataType>,
    len: usize,
    done: Seq<Seq<Value>>,
    group: Seq<Seq<Value>>,
    next: Option<Row>,
)
    requires
        op.inv(storage),
        !op.failed(),
        op.faithful(),
        in_bounds(at, len as int),
        op.keys() == ascending_keys(at),
        keys_typed(types, at, op.input()),
        op.emitted() == done + group + maybe_row(next),
        group.len() > 0,
        one_key(at, group),
        match next {
            Some(c) => key_order(pick(c@, at), pick(group[0], at)) != Comparison::Equal,
            None => op.ended(),
        },
    ensures
        ({
            let rest = op.input().to_multiset().sub(done.to_multiset());
            &&& group.to_multiset().subset_of(rest)
            &&& key_typed(types, pick(group[0], at))
            &&& is_group(at, pick(group[0], at), group, rest.sub(group.to_multiset()))
            &&& rest.sub(group.to_multiset()) == op.input().to_multiset().sub(
                (done + group).to_multiset(),
            )
        }),
{
    broadcast use vstd::seq_lib::group_to_multiset_ensures;

    let all = op.input().to_multiset();
    let rest = all.sub(done.to_multiset());
    let key = pick(group[0], at);
    let more = group + maybe_row(next);
    assert(op.emitted() =~= done + more);
    lemma_parts_within(op, storage, done, more);
    vstd::seq_lib::lemma_multiset_commutative(group, maybe_row(next));
    assert(group.to_multiset().subset_of(rest)) by {
        assert forall|x: Seq<Value>| group.to_multiset().count(x) <= rest.count(x) by {
            assert(more.to_multiset().count(x) <= rest.count(x));
        }
    }
    vstd::seq_lib::lemma_multiset_commutative(done, group);
    assert(rest.sub(group.to_multiset()) =~= all.sub((done + group).to_multiset()));
    lemma_rest_typed(at, types, op.input(), done);
    assert(group.contains(group[0]));
    assert(group.to_multiset().count(group[0]) > 0);
    assert(rest.count(group[0]) > 0);
    assert forall|i: int| 0 <= i < group.len() implies key_order(
        key,
        pick(#[trigger] group[i], at),
    ) == Comparison::Equal by {
        key_order_flips(pick(group[i], at), key);
    }
    let left = rest.sub(group.to_multiset());
    lemma_rest_typed(at, types, op.input(), done + group);
    match next {
        Some(c) => {
            let before = done + group;
            assert(op.emitted() =~= before.push(c@));
            lemma_foremost(op, storage, at, types, len, before, c@);
            lemma_in_turn(
                op,
                storage,
                at,
                types,
                len,
                done.len() as int,
                (done.len() + group.len()) as int,
            );
            assert(op.emitted()[done.len() as int] == group[0]);
            assert(op.emitted()[(done.len() + group.len()) as int] == c@);
            key_order_flips(key, pick(c@, at));
            assert(key_order(key, pick(c@, at)) == Comparison::Less);
            assert forall|y: Seq<Value>| #[trigger] left.count(y) > 0 implies key_order(
                key,
                pick(y, at),
            ) == Comparison::Less by {
                lemma_before(types, key, pick(c@, at), pick(y, at));
            }
        },
        None => {
            op.sort_is_complete(storage);
            assert(op.emitted() =~= done + group);
            assert(left =~= Multiset::<Seq<Value>>::empty());
        },
    }
}

/// Merges two rows of a group, if they pass the tests.
fn merge_pair(l: &Row, r: &Row, params: &JoinParams, out: &mut Vec<Row>) -> (res: Result<
    (),
    DbError,
>)
    requires
        params.inv(),
        l@.len() == params.left_len,
        r@.len() == params.right_len,
    ensures
        res is Ok ==> bag(final(out)@) == bag(old(out)@).add(pair(keyless(params@), l@, r@)),
        res matches Err(e) ==> e is IncomparableValues && pair_fails(keyless(params@), l@, r@),
{
    let ghost on = keyless(params@);
    proof {
        assert(pick(l@, on.left_keys) =~= pick(r@, on.right_keys));
    }
    let merged = Row::merge(l, r);
    match eval_resolved(&merged, params.extra.as_slice()) {
        Ok(true) => {
            proof {
                vstd::seq_lib::to_multiset_build(rows_of(out@), merged@);
                assert(bag(out@).insert(merged@) =~= bag(out@).add(pair(on, l@, r@)));
            }
            out.push(merged);
            Ok(())
        },
        Ok(false) => {
            proof {
                assert(bag(out@).add(pair(on, l@, r@)) =~= bag(out@));
            }
            Ok(())
        },
        Err(e) => Err(e),
    }
}

proof fn lemma_left_with_first(on: JoinOn, l: Seq<Value>, r: Seq<Value>, rs: Seq<Seq<Value>>)
    ensures
        left_with(on, l, Seq::empty().push(r) + rs) == left_with(on, l, rs).add(pair(on, l, r)),
    decreases rs.len(),
{
    let one = Seq::<Seq<Value>>::empty().push(r);
    if rs.len() == 0 {
        assert(one + rs =~= one);
        lemma_left_with_push(on, l, Seq::empty(), r);
        assert(left_with(on, l, one) =~= left_with(on, l, rs).add(pair(on, l, r)));
    } else {
        let init = rs.drop_last();
        lemma_left_with_first(on, l, r, init);
        assert(one + rs =~= (one + init).push(rs.last()));
        lemma_left_with_push(on, l, one + init, rs.last());
        assert(left_with(on, l, one + rs) =~= left_with(on, l, rs).add(pair(on, l, r)));
    }
}

/// All pairs of rows of two groups that pass the tests, the last one first.
fn merge_groups(left_group: &Vec<Row>, right_group: &Vec<Row>, params: &JoinParams) -> (r: Result<
    Vec<Row>,
    DbError,
>)
    requires
        params.inv(),
        all_len(rows_of(left_group@), params.left_len as nat),
        all_len(rows_of(right_group@), params.right_len as nat),
    ensures
        r matches Ok(rows) ==> bag(rows@) == join_of(
            keyless(params@),
            rows_of(left_group@),
            rows_of(right_group@),
        ),
        r matches Err(e) ==> undecided(
            keyless(params@),
            e,
            rows_of(left_group@),
            rows_of(right_group@),
        ),
{
    let ghost on = keyless(params@);
    let ghost ls = rows_of(left_group@);
    let ghost rs = rows_of(right_group@);
    let mut out: Vec<Row> = Vec::new();
    let mut i: usize = left_group.len();
    proof {
        lemma_bag_empty();
        assert(rows_of(out@) =~= Seq::<Seq<Value>>::empty());
        assert(ls.skip(ls.len() as int) =~= Seq::<Seq<Value>>::empty());
    }
    while i > 0
        invariant
            i <= left_group@.len(),
            params.inv(),
            on == keyless(params@),
            ls == rows_of(left_group@),
            rs == rows_of(right_group@),
            all_len(ls, params.left_len as nat),
            all_len(rs, params.right_len as nat),
            bag(out@) == join_of(on, ls.skip(i as int), rs),
        decreases i,
    {
        i -= 1;
        let ghost before = bag(out@);
        let ghost l = ls[i as int];
        let mut j: usize = right_group.len();
        assert(l == left_group@[i as int]@);
        proof {
            assert(rs.skip(rs.len() as int) =~= Seq::<Seq<Value>>::empty());
            assert(before.add(Multiset::<Seq<Value>>::empty()) =~= before);
        }
        while j > 0
            invariant
                j <= right_group@.len(),
                i < left_group@.len(),
                params.inv(),
                on == keyless(params@),
                ls == rows_of(left_group@),
                rs == rows_of(right_group@),
                l == left_group@[i as int]@,
                l.len() == params.left_len,
                all_len(rs, params.right_len as nat),
                bag(out@) == before.add(left_with(on, l, rs.skip(j as int))),
            decreases j,
        {
            j -= 1;
            let ghost r = rs[j as int];
            assert(r == right_group@[j as int]@);
            match merge_pair(&left_group[i], &right_group[j], params, &mut out) {
                Ok(_) => {},
                Err(e) => {
                    proof {
                        lemma_undecided(on, true, ls, rs, i as int, j as int);
                    }
                    return Err(e);
                },
            }
            proof {
                lemma_left_with_first(on, l, r, rs.skip(j + 1));
                assert(Seq::<Seq<Value>>::empty().push(r) + rs.skip(j + 1) =~= rs.skip(j as int));
                assert(bag(out@) =~= before.add(left_with(on, l, rs.skip(j as int))));
            }
        }
        proof {
            let one = Seq::<Seq<Value>>::empty().push(l);
            assert(rs.skip(0) =~= rs);
            assert(one + ls.skip(i + 1) =~= ls.skip(i as int));
            crate::join_spec::join_splits_left(on, one, ls.skip(i + 1), rs);
            lemma_join_push_left(on, Seq::empty(), l, rs);
            assert(bag(out@) =~= join_of(on, ls.skip(i as int), rs));
        }
    }
    proof {
        assert(ls.skip(0) =~= ls);
    }
    Ok(out)
}

proof fn lemma_nothing_passed(on: JoinOn, lr: Multiset<Seq<Value>>, rr: Multiset<Seq<Value>>)
    ensures
        passed_by(on, Seq::empty(), Seq::empty(), lr, rr),
        join_of(on, Seq::empty(), Seq::empty()) == Multiset::<Seq<Value>>::empty(),
{
}

impl SortMergeJoin {
    /// Makes a merge of two inputs with the given schemas.
    pub fn new(
        left_schema: &RowSchema,
        right_schema: &RowSchema,
        params: &JoinParams,
        sort_run_bytes: usize,
    ) -> (r: Result<SortMergeJoin, DbError>)
        requires
            params.inv(),
            left_schema@.len() == params.left_len,
            right_schema@.len() == params.right_len,
            named_first(left_schema@, params@.left_keys),
            named_first(right_schema@, params@.right_keys),
        ensures
            r matches Ok(m) ==> {
                &&& m.left_rows() == Seq::<Seq<Value>>::empty()
                &&& m.right_rows() == Seq::<Seq<Value>>::empty()
                &&& m.emitted() == Multiset::<Seq<Value>>::empty()
                &&& m.faithful()
                &&& !m.ended()
                &&& m.wants() == Some(Side::Left)
                &&& m.files() == Set::<u64>::empty()
                &&& forall|storage: &TempStorageManager|
                    storage.inv() ==> #[trigger] m.inv(params, storage)
            },
            r is Ok,
    {
        let left_specs = build_sort_specs(left_schema, params.left_keys.as_slice());
        let right_specs = build_sort_specs(right_schema, params.right_keys.as_slice());
        proof {
            lemma_specs_found(left_schema@, params.left_keys@, left_specs@);
            lemma_specs_found(right_schema@, params.right_keys@, right_specs@);
        }
        let left = match SortOperator::new(left_schema, left_specs.as_slice(), sort_run_bytes) {
            Ok(s) => s,
            Err(e) => {
                return Err(e);
            },
        };
        let right = match SortOperator::new(right_schema, right_specs.as_slice(), sort_run_bytes) {
            Ok(s) => s,
            Err(e) => {
                return Err(e);
            },
        };
        let m = SortMergeJoin {
            left,
            right,
            current_left: None,
            current_right: None,
            left_group: Vec::new(),
            right_group: Vec::new(),
            phase: MergePhase::FirstLeft,
            output: Vec::new(),
            done_left: Ghost(Seq::empty()),
            done_right: Ghost(Seq::empty()),
            emitted: Ghost(Multiset::empty()),
        };
        proof {
            let none = Seq::<Seq<Value>>::empty();
            let nothing = Multiset::<Seq<Value>>::empty();
            assert(none + none + none =~= none);
            assert(rows_of(m.left_group@) =~= none);
            assert(rows_of(m.right_group@) =~= none);
            assert(rows_of(m.output@) =~= none);
            lemma_bag_empty();
            assert(nothing.add(nothing) =~= nothing);
            lemma_nothing_passed(by_order(params@), m.left_rest(), m.right_rest());
            assert(m.files() =~= Set::<u64>::empty());
        }
        Ok(m)
    }

    /// Fetches from one of the sorts.
    fn fetch_side(
        &mut self,
        is_left: bool,
        storage: &mut TempStorageManager,
        Ghost(params): Ghost<JoinParams>,
    ) -> (r: Result<Fetch, DbError>)
        requires
            old(self).sorts_ok(&params, old(storage)),
        ensures
            final(storage).inv(),
            untouched(old(storage), final(storage), old(self).files()),
            if is_left {
                *final(self) == (SortMergeJoin { left: final(self).left, ..*old(self) })
            } else {
                *final(self) == (SortMergeJoin { right: final(self).right, ..*old(self) })
            },
            final(self).left.input() == old(self).left.input(),
            final(self).right.input() == old(self).right.input(),
            final(self).left.faithful() == old(self).left.faithful(),
            final(self).right.faithful() == old(self).right.faithful(),
            forall|f: u64| #[trigger]
                final(self).files().contains(f) ==> old(self).files().contains(f) || !old(
                    storage,
                ).has_file(f),
            r is Ok ==> final(self).sorts_ok(&params, final(storage)),
            ({
                let before = if is_left {
                    old(self).left
                } else {
                    old(self).right
                };
                let after = if is_left {
                    final(self).left
                } else {
                    final(self).right
                };
                let len = if is_left {
                    params.left_len
                } else {
                    params.right_len
                };
                &&& match r {
                    Ok(Fetch::Step(JoinStep::Again)) | Ok(Fetch::Row(_)) => nearer(
                        after.left_to_do(),
                        before.left_to_do(),
                    ),
                    Ok(_) => not_farther(after.left_to_do(), before.left_to_do()),
                    Err(_) => true,
                }
                &&& after.emitted() == match r {
                    Ok(Fetch::Row(row)) => before.emitted().push(row@),
                    _ => before.emitted(),
                }
                &&& !before.wants() && !before.spills() ==> !after.wants() && !after.spills()
                &&& before.wants() ==> (r matches Ok(Fetch::Step(JoinStep::Pull(_))))
                &&& match r {
                    Ok(Fetch::Row(row)) => row@.len() == len && !after.wants() && !after.spills(),
                    Ok(Fetch::End) => after.ended() && !after.wants() && !after.spills(),
                    Ok(Fetch::Step(JoinStep::Pull(s))) => s == Side::of(is_left) && after.wants(),
                    Ok(Fetch::Step(JoinStep::Need(ranges))) => after.waiting() && (forall|
                        data: Seq<u8>,
                    |
                        is_content(
                            final(storage).disk(),
                            blocks_of(ranges@),
                            data,
                            final(storage).size() as int,
                        ) ==> #[trigger] final(self).side_expects(is_left, data)),
                    Ok(Fetch::Step(JoinStep::NeedAnonStart)) => final(storage).frontier() is None,
                    Ok(Fetch::Step(JoinStep::Again)) => true,
                    Ok(Fetch::Step(_)) => false,
                    Err(e) => old(self).faithful() ==> cannot_store_all(
                        e,
                        before.input(),
                        final(storage),
                    ) && !old(self).has_room(old(storage)),
                }
            }),
    {
        let ghost s0 = *storage;
        let ghost me = *self;
        proof {
            self.left.inv_gives(storage);
            self.right.inv_gives(storage);
        }
        if is_left {
            let r = fetch(&mut self.left, Side::Left, storage);
            proof {
                untouched_more(&s0, storage, me.left.files(), me.files());
                self.right.inv_kept(&s0, storage, me.left.files());
                assert(self.left.files().disjoint(self.right.files()));
            }
            r
        } else {
            let r = fetch(&mut self.right, Side::Right, storage);
            proof {
                untouched_more(&s0, storage, me.right.files(), me.files());
                self.left.inv_kept(&s0, storage, me.right.files());
                assert(self.left.files().disjoint(self.right.files()));
            }
            r
        }
    }
}

/// The columns of a key are found where the key says.
proof fn lemma_specs_found(schema: Seq<Seq<char>>, key: Seq<usize>, specs: Seq<SortSpec>)
    requires
        in_bounds(positions(key), schema.len() as int),
        named_first(schema, positions(key)),
        specs.len() == key.len(),
        forall|i: int|
            0 <= i < specs.len() ==> (#[trigger] specs[i]).column_name@ == schema[key[i] as int]
                && specs[i].ascending,
    ensures
        crate::row::all_present(schema, spec_names(specs)),
        sort_keys_of(schema, specs) == ascending_keys(positions(key)),
{
    let at = positions(key);
    assert forall|i: int| 0 <= i < specs.len() implies column_position(
        schema,
        (#[trigger] specs[i]).column_name@,
    ) == key[i] by {
        assert(at[i] == key[i]);
    }
    assert(sort_keys_of(schema, specs) =~= ascending_keys(at));
    assert forall|i: int| 0 <= i < spec_names(specs).len() implies schema.contains(
        #[trigger] spec_names(specs)[i],
    ) by {
        assert(at[i] == key[i]);
        assert(spec_names(specs)[i] == specs[i].column_name@);
    }
}

/// Whether an error is that of a merge: two rows of one group have no answer to a test. Where all
/// keys have the same types, their keys compare as equal.
pub open spec fn merge_fails(
    on: JoinOn,
    e: DbError,
    ls: Seq<Seq<Value>>,
    rs: Seq<Seq<Value>>,
) -> bool {
    &&& undecided(keyless(on), e, ls, rs)
    &&& keys_comparable(by_order(on), ls, rs) ==> undecided(by_order(on), e, ls, rs)
}

/// What a step of a merge does.
pub open spec fn merge_stepped(
    before: &SortMergeJoin,
    after: &SortMergeJoin,
    r: Result<JoinStep, DbError>,
    params: &JoinParams,
    s0: &TempStorageManager,
    s1: &TempStorageManager,
) -> bool {
    &&& s1.inv()
    &&& untouched(s0, s1, before.files())
    &&& after.left_rows() == before.left_rows()
    &&& after.right_rows() == before.right_rows()
    &&& after.faithful() == before.faithful()
    &&& forall|f: u64| #[trigger]
        after.files().contains(f) ==> before.files().contains(f) || !s0.has_file(f)
    &&& r is Ok ==> after.inv(params, s1)
    &&& step_nearer(r, after.left_to_do(), before.left_to_do())
    &&& before.wants() is Some ==> r is Ok && r->Ok_0 == JoinStep::Pull(before.wants()->0)
    &&& after.emitted() == match r {
        Ok(JoinStep::Row(row)) => before.emitted().insert(row@),
        _ => before.emitted(),
    }
    &&& match r {
        Ok(JoinStep::Pull(side)) => after.wants() == Some(side),
        Ok(JoinStep::Need(ranges)) => after.waiting() && (forall|data: Seq<u8>|
            is_content(s1.disk(), blocks_of(ranges@), data, s1.size() as int)
                ==> #[trigger] after.expects(data)),
        Ok(JoinStep::NeedAnonStart) => s1.frontier() is None && !after.ended(),
        Ok(JoinStep::Done) => after.ended(),
        Ok(_) => !after.ended(),
        Err(e) => before.faithful() ==> !before.has_room(s0) && (cannot_store_all(
            e,
            before.left_rows(),
            s1,
        ) || cannot_store_all(e, before.right_rows(), s1)) || merge_fails(
            params@,
            e,
            before.left_rows(),
            before.right_rows(),
        ),
    }
}

impl SortMergeJoin {
    /// Fetches the first row of a side.
    #[verifier::rlimit(40)]
    fn first_row(&mut self, params: &JoinParams, storage: &mut TempStorageManager) -> (r: Result<
        JoinStep,
        DbError,
    >)
        requires
            old(self).inv(params, old(storage)),
            old(self).phase is FirstLeft || old(self).phase is FirstRight,
        ensures
            merge_stepped(old(self), final(self), r, params, old(storage), final(storage)),
    {
        let ghost me = *self;
        let is_left = match self.phase {
            MergePhase::FirstLeft => true,
            _ => false,
        };
        let fetched = self.fetch_side(is_left, storage, Ghost(*params));
        let ghost mid = *self;
        proof {
            assert(mid.files() == mid.left.files().union(mid.right.files()));
        }
        match fetched {
            Ok(Fetch::Step(step)) => {
                proof {
                    assert(self.left.emitted() == me.left.emitted());
                    assert(self.right.emitted() == me.right.emitted());
                    assert(self.rows_ok(params));
                    assert(self.phase_ok(params));
                    assert(self.merged_ok(params));
                    if step is Again {
                        self.merge_nearer(&me);
                    } else {
                        self.merge_not_farther(&me);
                    }
                }
                Ok(step)
            },
            Ok(Fetch::Row(row)) => {
                proof {
                    let none = Seq::<Seq<Value>>::empty();
                    assert(rows_of(self.left_group@) =~= none);
                    assert(rows_of(self.right_group@) =~= none);
                    assert(none + none + none.push(row@) =~= none.push(row@));
                    assert(none + none + none =~= none);
                    lemma_nothing_passed(by_order(params@), self.left_rest(), self.right_rest());
                }
                if is_left {
                    self.current_left = Some(row);
                    self.phase = MergePhase::FirstRight;
                } else {
                    self.current_right = Some(row);
                    self.phase = MergePhase::Comparing;
                }
                proof {
                    assert(self.files() == mid.files());
                    self.merge_nearer(&me);
                }
                Ok(JoinStep::Again)
            },
            Ok(Fetch::End) => {
                if is_left {
                    self.phase = MergePhase::FirstRight;
                } else {
                    self.phase = MergePhase::Comparing;
                }
                proof {
                    assert(self.files() == mid.files());
                    self.merge_nearer(&me);
                }
                Ok(JoinStep::Again)
            },
            Err(e) => Err(e),
        }
    }

    /// Fetches the row that takes the place of one that was passed.
    fn next_row(&mut self, params: &JoinParams, storage: &mut TempStorageManager) -> (r: Result<
        JoinStep,
        DbError,
    >)
        requires
            old(self).inv(params, old(storage)),
            old(self).phase is NextLeft || old(self).phase is NextRight,
        ensures
            merge_stepped(old(self), final(self), r, params, old(storage), final(storage)),
    {
        let ghost me = *self;
        let is_left = match self.phase {
            MergePhase::NextLeft => true,
            _ => false,
        };
        let fetched = self.fetch_side(is_left, storage, Ghost(*params));
        let ghost mid = *self;
        proof {
            assert(mid.files() == mid.left.files().union(mid.right.files()));
        }
        match fetched {
            Ok(Fetch::Step(step)) => {
                proof {
                    assert(self.left.emitted() == me.left.emitted());
                    assert(self.right.emitted() == me.right.emitted());
                    assert(self.rows_ok(params));
                    assert(self.phase_ok(params));
                    assert(self.merged_ok(params));
                    if step is Again {
                        self.merge_nearer(&me);
                    } else {
                        self.merge_not_farther(&me);
                    }
                }
                Ok(step)
            },
            Ok(Fetch::Row(row)) => {
                proof {
                    let none = Seq::<Seq<Value>>::empty();
                    assert(rows_of(self.left_group@) =~= none);
                    assert(rows_of(self.right_group@) =~= none);
                    let d = if is_left {
                        self.done_left@
                    } else {
                        self.done_right@
                    };
                    assert((d + none + none).push(row@) =~= d + none + none.push(row@));
                }
                if is_left {
                    self.current_left = Some(row);
                } else {
                    self.current_right = Some(row);
                }
                self.phase = MergePhase::Comparing;
                proof {
                    assert(self.files() == mid.files());
                    self.merge_nearer(&me);
                }
                Ok(JoinStep::Again)
            },
            Ok(Fetch::End) => {
                self.phase = MergePhase::Comparing;
                proof {
                    assert(self.files() == mid.files());
                    self.merge_nearer(&me);
                }
                Ok(JoinStep::Again)
            },
            Err(e) => Err(e),
        }
    }

    /// Fetches the next row of the left group.
    fn left_group_row(&mut self, params: &JoinParams, storage: &mut TempStorageManager) -> (r:
        Result<JoinStep, DbError>)
        requires
            old(self).inv(params, old(storage)),
            old(self).phase is GroupLeft,
        ensures
            merge_stepped(old(self), final(self), r, params, old(storage), final(storage)),
    {
        let ghost me = *self;
        let ghost at = params@.left_keys;
        let ghost group = rows_of(self.left_group@);
        proof {
            assert(group[0] == self.left_group@[0]@);
            assert(rows_of(self.right_group@)[0] == self.right_group@[0]@);
            let kr = pick(self.right_group@[0]@, params@.right_keys);
            key_order_flips(kr, kr);
            assert(one_key(params@.right_keys, rows_of(self.right_group@)));
        }
        let fetched = self.fetch_side(true, storage, Ghost(*params));
        let ghost mid = *self;
        proof {
            assert(mid.files() == mid.left.files().union(mid.right.files()));
        }
        match fetched {
            Ok(Fetch::Step(step)) => {
                proof {
                    assert(self.rows_ok(params));
                    assert(self.phase_ok(params));
                    assert(self.merged_ok(params));
                    if step is Again {
                        self.merge_nearer(&me);
                    } else {
                        self.merge_not_farther(&me);
                    }
                }
                Ok(step)
            },
            Ok(Fetch::Row(row)) => {
                let ghost x = row@;
                let ghost d = self.done_left@;
                let ghost none = Seq::<Seq<Value>>::empty();
                match compare_same_side_keys(&row, &self.left_group[0], params.left_keys.as_slice()) {
                    Comparison::Equal => {
                        self.left_group.push(row);
                        proof {
                            assert(rows_of(self.left_group@) == group.push(x));
                            assert(group.push(x)[0] == group[0]);
                            assert((d + group + none).push(x) =~= d + group.push(x) + none);
                            assert forall|i: int| 0 <= i < group.push(x).len() implies key_order(
                                pick(#[trigger] group.push(x)[i], at),
                                pick(group.push(x)[0], at),
                            ) == Comparison::Equal by {
                                if i < group.len() {
                                    assert(group.push(x)[i] == group[i]);
                                }
                            }
                        }
                    },
                    _ => {
                        self.current_left = Some(row);
                        self.phase = MergePhase::GroupRight;
                        proof {
                            assert((d + group + none).push(x) =~= d + group + none.push(x));
                        }
                    },
                }
                proof {
                    assert(self.files() == mid.files());
                    self.merge_nearer(&me);
                }
                Ok(JoinStep::Again)
            },
            Ok(Fetch::End) => {
                self.phase = MergePhase::GroupRight;
                proof {
                    assert(self.files() == mid.files());
                    self.merge_nearer(&me);
                }
                Ok(JoinStep::Again)
            },
            Err(e) => Err(e),
        }
    }
}

impl SortMergeJoin {
    /// Closing the groups passes them on both sides.
    proof fn lemma_closed(
        &self,
        params: &JoinParams,
        storage: &TempStorageManager,
        next: Option<Row>,
        out: Seq<Row>,
    )
        requires
            self.sorts_ok(params, storage),
            self.left.emitted() == self.done_left@ + rows_of(self.left_group@) + maybe_row(
                self.current_left,
            ),
            self.right.emitted() == self.done_right@ + rows_of(self.right_group@) + maybe_row(next),
            self.left_group@.len() > 0,
            self.right_group@.len() > 0,
            self.output@.len() == 0,
            one_key(params@.left_keys, rows_of(self.left_group@)),
            one_key(params@.right_keys, rows_of(self.right_group@)),
            cross(params@, self.left_group@[0]@, self.right_group@[0]@) == Comparison::Equal,
            match self.current_left {
                Some(c) => key_order(
                    pick(c@, params@.left_keys),
                    pick(self.left_group@[0]@, params@.left_keys),
                ) != Comparison::Equal,
                None => self.left.ended(),
            },
            match next {
                Some(c) => key_order(
                    pick(c@, params@.right_keys),
                    pick(self.right_group@[0]@, params@.right_keys),
                ) != Comparison::Equal,
                None => self.right.ended(),
            },
            self.merged_ok(params),
            bag(out) == join_of(
                keyless(params@),
                rows_of(self.left_group@),
                rows_of(self.right_group@),
            ),
        ensures
            ({
                let on = by_order(params@);
                let dl = self.done_left@ + rows_of(self.left_group@);
                let dr = self.done_right@ + rows_of(self.right_group@);
                self.faithful() && keys_comparable(on, self.left.input(), self.right.input()) ==> {
                    &&& passed_by(
                        on,
                        dl,
                        dr,
                        self.left.input().to_multiset().sub(dl.to_multiset()),
                        self.right.input().to_multiset().sub(dr.to_multiset()),
                    )
                    &&& self.emitted@.add(bag(out)) == join_of(on, dl, dr)
                }
            }),
    {
        let on = by_order(params@);
        if self.faithful() && keys_comparable(on, self.left.input(), self.right.input()) {
            let types = choose|types: Seq<DataType>|
                keys_typed(types, on.left_keys, self.left.input()) && #[trigger] keys_typed(
                    types,
                    on.right_keys,
                    self.right.input(),
                );
            let gl = rows_of(self.left_group@);
            let gr = rows_of(self.right_group@);
            assert(gl[0] == self.left_group@[0]@);
            assert(gr[0] == self.right_group@[0]@);
            lemma_group_closed(
                &self.left,
                storage,
                on.left_keys,
                types,
                params.left_len,
                self.done_left@,
                gl,
                self.current_left,
            );
            lemma_group_closed(
                &self.right,
                storage,
                on.right_keys,
                types,
                params.right_len,
                self.done_right@,
                gr,
                next,
            );
            lemma_rest_typed(on.left_keys, types, self.left.input(), self.done_left@);
            lemma_rest_typed(on.right_keys, types, self.right.input(), self.done_right@);
            lemma_pass_groups(
                on,
                types,
                self.done_left@,
                self.done_right@,
                self.left_rest(),
                self.right_rest(),
                gl,
                gr,
                pick(gl[0], on.left_keys),
                pick(gr[0], on.right_keys),
            );
            lemma_bag_empty();
            assert(rows_of(self.output@) =~= Seq::<Seq<Value>>::empty());
            assert(self.emitted@.add(bag(self.output@)) =~= self.emitted@);
            assert(keyless(on) == keyless(params@));
        }
    }

    /// Rows of the groups that have no answer to a test are rows of the inputs.
    proof fn lemma_groups_fail(
        &self,
        params: &JoinParams,
        storage: &TempStorageManager,
        next: Option<Row>,
    )
        requires
            self.sorts_ok(params, storage),
            self.faithful(),
            self.left.emitted() == self.done_left@ + rows_of(self.left_group@) + maybe_row(
                self.current_left,
            ),
            self.right.emitted() == self.done_right@ + rows_of(self.right_group@) + maybe_row(next),
            self.left_group@.len() > 0,
            self.right_group@.len() > 0,
            one_key(params@.left_keys, rows_of(self.left_group@)),
            one_key(params@.right_keys, rows_of(self.right_group@)),
            cross(params@, self.left_group@[0]@, self.right_group@[0]@) == Comparison::Equal,
            !decided(keyless(params@), rows_of(self.left_group@), rows_of(self.right_group@)),
        ensures
            !decided(keyless(params@), self.left.input(), self.right.input()),
            keys_comparable(by_order(params@), self.left.input(), self.right.input()) ==> !decided(
                by_order(params@),
                self.left.input(),
                self.right.input(),
            ),
    {
        reveal(decided);
        let bare = keyless(params@);
        let on = by_order(params@);
        let ls = self.left.input();
        let rs = self.right.input();
        let gl = rows_of(self.left_group@);
        let gr = rows_of(self.right_group@);
        let (i, j) = choose|i: int, j: int|
            0 <= i < gl.len() && 0 <= j < gr.len() && pair_fails(
                bare,
                #[trigger] gl[i],
                #[trigger] gr[j],
            );
        assert(gl[0] == self.left_group@[0]@);
        assert(gr[0] == self.right_group@[0]@);
        let a = lemma_group_row(&self.left, storage, self.done_left@, gl, self.current_left, i);
        let b = lemma_group_row(&self.right, storage, self.done_right@, gr, next, j);
        assert(pair_fails(bare, ls[a], rs[b]));
        if keys_comparable(on, ls, rs) {
            let types = choose|types: Seq<DataType>|
                keys_typed(types, on.left_keys, ls) && #[trigger] keys_typed(
                    types,
                    on.right_keys,
                    rs,
                );
            let a0 = lemma_group_row(
                &self.left,
                storage,
                self.done_left@,
                gl,
                self.current_left,
                0,
            );
            let b0 = lemma_group_row(&self.right, storage, self.done_right@, gr, next, 0);
            let ka = pick(ls[a], on.left_keys);
            let kb = pick(rs[b], on.right_keys);
            let kl = pick(ls[a0], on.left_keys);
            let kr = pick(rs[b0], on.right_keys);
            key_order_flips(kb, kr);
            lemma_before(types, ka, kl, kr);
            lemma_before(types, ka, kr, kb);
            assert(pair_fails(on, ls[a], rs[b]));
        }
    }

    /// Merges the groups and goes on with the row behind the right one.
    fn close_groups(
        &mut self,
        next: Option<Row>,
        params: &JoinParams,
        Ghost(storage): Ghost<TempStorageManager>,
    ) -> (r: Result<(), DbError>)
        requires
            old(self).sorts_ok(params, &storage),
            old(self).inputs_read(),
            old(self).left.emitted() == old(self).done_left@ + rows_of(
                old(self).left_group@,
            ) + maybe_row(old(self).current_left),
            old(self).right.emitted() == old(self).done_right@ + rows_of(
                old(self).right_group@,
            ) + maybe_row(next),
            all_len(rows_of(old(self).left_group@), params.left_len as nat),
            all_len(rows_of(old(self).right_group@), params.right_len as nat),
            old(self).current_left matches Some(r) ==> r@.len() == params.left_len,
            next matches Some(r) ==> r@.len() == params.right_len,
            old(self).left_group@.len() > 0,
            old(self).right_group@.len() > 0,
            old(self).output@.len() == 0,
            one_key(params@.left_keys, rows_of(old(self).left_group@)),
            one_key(params@.right_keys, rows_of(old(self).right_group@)),
            cross(params@, old(self).left_group@[0]@, old(self).right_group@[0]@)
                == Comparison::Equal,
            match old(self).current_left {
                Some(c) => key_order(
                    pick(c@, params@.left_keys),
                    pick(old(self).left_group@[0]@, params@.left_keys),
                ) != Comparison::Equal,
                None => old(self).left.ended(),
            },
            match next {
                Some(c) => key_order(
                    pick(c@, params@.right_keys),
                    pick(old(self).right_group@[0]@, params@.right_keys),
                ) != Comparison::Equal,
                None => old(self).right.ended(),
            },
            old(self).merged_ok(params),
        ensures
            final(self).left == old(self).left,
            final(self).right == old(self).right,
            final(self).emitted == old(self).emitted,
            r is Ok ==> final(self).inv(params, &storage) && final(self).phase is Comparing
                && final(self).current_right == next,
            r matches Err(e) ==> old(self).faithful() ==> merge_fails(
                params@,
                e,
                old(self).left.input(),
                old(self).right.input(),
            ),
    {
        let ghost me = *self;
        let out = match merge_groups(&self.left_group, &self.right_group, params) {
            Ok(v) => v,
            Err(e) => {
                proof {
                    if me.faithful() {
                        me.lemma_groups_fail(params, &storage, next);
                    }
                }
                return Err(e);
            },
        };
        proof {
            me.lemma_closed(params, &storage, next, out@);
            self.done_left@ = self.done_left@ + rows_of(self.left_group@);
            self.done_right@ = self.done_right@ + rows_of(self.right_group@);
        }
        self.left_group = Vec::new();
        self.right_group = Vec::new();
        self.current_right = next;
        self.output = out;
        self.phase = MergePhase::Comparing;
        proof {
            let none = Seq::<Seq<Value>>::empty();
            assert(rows_of(self.left_group@) =~= none);
            assert(rows_of(self.right_group@) =~= none);
            assert(self.done_left@ + none =~= self.done_left@);
            assert(self.done_right@ + none =~= self.done_right@);
            assert(self.rows_ok(params));
            assert(self.phase_ok(params));
            assert(self.merged_ok(params));
        }
        Ok(())
    }

    /// Fetches the next row of the right group.
    #[verifier::rlimit(40)]
    fn right_group_row(&mut self, params: &JoinParams, storage: &mut TempStorageManager) -> (r:
        Result<JoinStep, DbError>)
        requires
            old(self).inv(params, old(storage)),
            old(self).phase is GroupRight,
        ensures
            merge_stepped(old(self), final(self), r, params, old(storage), final(storage)),
    {
        let ghost me = *self;
        let ghost at = params@.right_keys;
        let ghost group = rows_of(self.right_group@);
        proof {
            assert(group[0] == self.right_group@[0]@);
        }
        let fetched = self.fetch_side(false, storage, Ghost(*params));
        let ghost mid = *self;
        proof {
            assert(mid.files() == mid.left.files().union(mid.right.files()));
        }
        match fetched {
            Ok(Fetch::Step(step)) => {
                proof {
                    assert(self.rows_ok(params));
                    assert(self.phase_ok(params));
                    assert(self.merged_ok(params));
                    if step is Again {
                        self.merge_nearer(&me);
                    } else {
                        self.merge_not_farther(&me);
                    }
                }
                Ok(step)
            },
            Ok(Fetch::Row(row)) => {
                let ghost x = row@;
                let ghost d = self.done_right@;
                let ghost none = Seq::<Seq<Value>>::empty();
                match compare_same_side_keys(
                    &row,
                    &self.right_group[0],
                    params.right_keys.as_slice(),
                ) {
                    Comparison::Equal => {
                        self.right_group.push(row);
                        proof {
                            assert(rows_of(self.right_group@) == group.push(x));
                            assert(group.push(x)[0] == group[0]);
                            assert((d + group + none).push(x) =~= d + group.push(x) + none);
                            assert forall|i: int| 0 <= i < group.push(x).len() implies key_order(
                                pick(#[trigger] group.push(x)[i], at),
                                pick(group.push(x)[0], at),
                            ) == Comparison::Equal by {
                                if i < group.len() {
                                    assert(group.push(x)[i] == group[i]);
                                }
                            }
                            assert(self.files() == mid.files());
                            assert(self.rows_ok(params));
                            assert(self.phase_ok(params));
                            assert(self.merged_ok(params));
                            self.merge_nearer(&me);
                        }
                        Ok(JoinStep::Again)
                    },
                    _ => {
                        proof {
                            assert((d + group + none).push(x) =~= d + group + none.push(x));
                        }
                        match self.close_groups(Some(row), params, Ghost(*storage)) {
                            Ok(_) => {
                                proof {
                                    assert(self.files() == mid.files());
                                    self.merge_nearer(&me);
                                }
                                Ok(JoinStep::Again)
                            },
                            Err(e) => Err(e),
                        }
                    },
                }
            },
            Ok(Fetch::End) => {
                match self.close_groups(None, params, Ghost(*storage)) {
                    Ok(_) => {
                        proof {
                            assert(self.files() == mid.files());
                            self.merge_nearer(&me);
                        }
                        Ok(JoinStep::Again)
                    },
                    Err(e) => Err(e),
                }
            },
            Err(e) => Err(e),
        }
    }

    /// Passing the foremost left row.
    proof fn lemma_left_passed(
        &self,
        params: &JoinParams,
        storage: &TempStorageManager,
        l: Seq<Value>,
        r: Seq<Value>,
    )
        requires
            self.inv(params, storage),
            self.phase is Comparing,
            self.output@.len() == 0,
            self.current_left matches Some(x) && x@ == l,
            self.current_right matches Some(x) && x@ == r,
            cross(params@, l, r) == Comparison::Less,
        ensures
            ({
                let on = by_order(params@);
                let dl = self.done_left@.push(l);
                self.faithful() && keys_comparable(on, self.left.input(), self.right.input()) ==> {
                    &&& passed_by(
                        on,
                        dl,
                        self.done_right@,
                        self.left.input().to_multiset().sub(dl.to_multiset()),
                        self.right_rest(),
                    )
                    &&& join_of(on, dl, self.done_right@) == join_of(
                        on,
                        self.done_left@,
                        self.done_right@,
                    )
                }
            }),
    {
        let on = by_order(params@);
        if self.faithful() && keys_comparable(on, self.left.input(), self.right.input()) {
            let types = choose|types: Seq<DataType>|
                keys_typed(types, on.left_keys, self.left.input()) && #[trigger] keys_typed(
                    types,
                    on.right_keys,
                    self.right.input(),
                );
            let none = Seq::<Seq<Value>>::empty();
            assert(rows_of(self.left_group@) =~= none);
            assert(rows_of(self.right_group@) =~= none);
            assert(self.left.emitted() =~= self.done_left@.push(l));
            assert(self.right.emitted() =~= self.done_right@.push(r));
            lemma_foremost(
                &self.left,
                storage,
                on.left_keys,
                types,
                params.left_len,
                self.done_left@,
                l,
            );
            lemma_foremost(
                &self.right,
                storage,
                on.right_keys,
                types,
                params.right_len,
                self.done_right@,
                r,
            );
            lemma_rest_typed(on.right_keys, types, self.right.input(), self.done_right@);
            lemma_pass_left(
                on,
                types,
                self.done_left@,
                self.done_right@,
                self.left_rest(),
                self.right_rest(),
                l,
                r,
            );
        }
    }

    /// Passing the foremost right row.
    proof fn lemma_right_passed(
        &self,
        params: &JoinParams,
        storage: &TempStorageManager,
        l: Seq<Value>,
        r: Seq<Value>,
    )
        requires
            self.inv(params, storage),
            self.phase is Comparing,
            self.output@.len() == 0,
            self.current_left matches Some(x) && x@ == l,
            self.current_right matches Some(x) && x@ == r,
            cross(params@, l, r) == Comparison::Greater,
        ensures
            ({
                let on = by_order(params@);
                let dr = self.done_right@.push(r);
                self.faithful() && keys_comparable(on, self.left.input(), self.right.input()) ==> {
                    &&& passed_by(
                        on,
                        self.done_left@,
                        dr,
                        self.left_rest(),
                        self.right.input().to_multiset().sub(dr.to_multiset()),
                    )
                    &&& join_of(on, self.done_left@, dr) == join_of(
                        on,
                        self.done_left@,
                        self.done_right@,
                    )
                }
            }),
    {
        let on = by_order(params@);
        if self.faithful() && keys_comparable(on, self.left.input(), self.right.input()) {
            let types = choose|types: Seq<DataType>|
                keys_typed(types, on.left_keys, self.left.input()) && #[trigger] keys_typed(
                    types,
                    on.right_keys,
                    self.right.input(),
                );
            let none = Seq::<Seq<Value>>::empty();
            assert(rows_of(self.left_group@) =~= none);
            assert(rows_of(self.right_group@) =~= none);
            assert(self.left.emitted() =~= self.done_left@.push(l));
            assert(self.right.emitted() =~= self.done_right@.push(r));
            lemma_foremost(
                &self.left,
                storage,
                on.left_keys,
                types,
                params.left_len,
                self.done_left@,
                l,
            );
            lemma_foremost(
                &self.right,
                storage,
                on.right_keys,
                types,
                params.right_len,
                self.done_right@,
                r,
            );
            lemma_rest_typed(on.left_keys, types, self.left.input(), self.done_left@);
            lemma_pass_right(
                on,
                types,
                self.done_left@,
                self.done_right@,
                self.left_rest(),
                self.right_rest(),
                l,
                r,
            );
        }
    }

    /// Gives a merged row out, or compares the foremost rows.
    #[verifier::rlimit(40)]
    fn advance(&mut self, params: &JoinParams, Ghost(storage): Ghost<TempStorageManager>) -> (r:
        JoinStep)
        requires
            old(self).inv(params, &storage),
            old(self).phase is Comparing,
        ensures
            final(self).inv(params, &storage),
            final(self).left == old(self).left,
            final(self).right == old(self).right,
            final(self).emitted() == match r {
                JoinStep::Row(row) => old(self).emitted().insert(row@),
                _ => old(self).emitted(),
            },
            match r {
                JoinStep::Row(_) => !final(self).ended(),
                JoinStep::Again => !final(self).ended(),
                JoinStep::Done => final(self).ended(),
                _ => false,
            },
            nearer(final(self).left_to_do(), old(self).left_to_do()),
    {
        let ghost me = *self;
        let ghost on = by_order(params@);
        let ghost none = Seq::<Seq<Value>>::empty();
        proof {
            assert(rows_of(self.left_group@) =~= none);
            assert(rows_of(self.right_group@) =~= none);
        }
        if let Some(row) = self.output.pop() {
            proof {
                lemma_bag_pop(me.output@);
                self.emitted@ = self.emitted@.insert(row@);
                assert(self.emitted@.add(bag(self.output@)) =~= me.emitted@.add(bag(me.output@)));
                assert(self.rows_ok(params));
                assert(self.phase_ok(params));
                assert(self.merged_ok(params));
                self.merge_nearer(&me);
            }
            return JoinStep::Row(row);
        }
        let mut left: Option<Row> = None;
        core::mem::swap(&mut self.current_left, &mut left);
        let mut right: Option<Row> = None;
        core::mem::swap(&mut self.current_right, &mut right);
        match (left, right) {
            (Some(l), Some(r)) => {
                let ghost lv = l@;
                let ghost rv = r@;
                let c = compare_join_keys(
                    &l,
                    &r,
                    params.left_keys.as_slice(),
                    params.right_keys.as_slice(),
                );
                match c {
                    Comparison::Less => {
                        proof {
                            me.lemma_left_passed(params, &storage, lv, rv);
                            self.done_left@ = self.done_left@.push(lv);
                        }
                        self.current_right = Some(r);
                        self.phase = MergePhase::NextLeft;
                        proof {
                            assert(me.done_left@ + none + none.push(lv) =~= self.done_left@ + none
                                + none);
                            assert(self.rows_ok(params));
                            assert(self.phase_ok(params));
                            assert(self.merged_ok(params));
                        }
                    },
                    Comparison::Greater => {
                        proof {
                            me.lemma_right_passed(params, &storage, lv, rv);
                            self.done_right@ = self.done_right@.push(rv);
                        }
                        self.current_left = Some(l);
                        self.phase = MergePhase::NextRight;
                        proof {
                            assert(me.done_right@ + none + none.push(rv) =~= self.done_right@ + none
                                + none);
                            assert(self.rows_ok(params));
                            assert(self.phase_ok(params));
                            assert(self.merged_ok(params));
                        }
                    },
                    Comparison::Equal => {
                        self.left_group.push(l);
                        self.right_group.push(r);
                        self.phase = MergePhase::GroupLeft;
                        proof {
                            assert(rows_of(self.left_group@) =~= none.push(lv));
                            assert(rows_of(self.right_group@) =~= none.push(rv));
                            assert(me.done_left@ + none + none.push(lv) =~= me.done_left@
                                + none.push(lv) + none);
                            assert(me.done_right@ + none + none.push(rv) =~= me.done_right@
                                + none.push(rv) + none);
                            let k = pick(lv, params@.left_keys);
                            key_order_flips(k, k);
                            assert(self.rows_ok(params));
                            assert(self.phase_ok(params));
                            assert(self.merged_ok(params));
                        }
                    },
                }
                proof {
                    self.merge_nearer(&me);
                }
                JoinStep::Again
            },
            (left, right) => {
                self.current_left = left;
                self.current_right = right;
                self.phase = MergePhase::Done;
                proof {
                    assert(self.rows_ok(params));
                    assert(self.phase_ok(params));
                    assert(self.merged_ok(params));
                    self.merge_nearer(&me);
                }
                JoinStep::Done
            },
        }
    }

    /// Does the next piece of work.
    pub fn step(&mut self, params: &JoinParams, storage: &mut TempStorageManager) -> (r: Result<
        JoinStep,
        DbError,
    >)
        requires
            old(self).inv(params, old(storage)),
        ensures
            merge_stepped(old(self), final(self), r, params, old(storage), final(storage)),
            old(self).ended() ==> r matches Ok(JoinStep::Done),
    {
        match self.phase {
            MergePhase::FirstLeft => self.first_row(params, storage),
            MergePhase::FirstRight => self.first_row(params, storage),
            MergePhase::NextLeft => self.next_row(params, storage),
            MergePhase::NextRight => self.next_row(params, storage),
            MergePhase::GroupLeft => self.left_group_row(params, storage),
            MergePhase::GroupRight => self.right_group_row(params, storage),
            MergePhase::Comparing => {
                let ghost me = *self;
                let step = self.advance(params, Ghost(*storage));
                proof {
                    crate::temp_storage::untouched_same(storage, storage, me.files());
                    assert(self.files() == me.files());
                }
                Ok(step)
            },
            MergePhase::Done => {
                proof {
                    crate::temp_storage::untouched_same(storage, storage, self.files());
                }
                Ok(JoinStep::Done)
            },
        }
    }

    /// Takes the next row of the side that is asked for, or that it has no more.
    pub fn feed(
        &mut self,
        side: Side,
        row: Option<Row>,
        params: &JoinParams,
        storage: &mut TempStorageManager,
    ) -> (r: Result<(), DbError>)
        requires
            old(self).inv(params, old(storage)),
            old(self).wants() == Some(side),
        ensures
            final(storage).inv(),
            untouched(old(storage), final(storage), old(self).files()),
            final(self).faithful() == old(self).faithful(),
            final(self).emitted() == old(self).emitted(),
            forall|f: u64| #[trigger]
                final(self).files().contains(f) ==> old(self).files().contains(f) || !old(
                    storage,
                ).has_file(f),
            r is Ok ==> {
                &&& final(self).inv(params, final(storage))
                &&& !final(self).ended()
                &&& row is Some ==> final(self).left_to_do() == old(self).left_to_do()
                &&& row is None ==> nearer(final(self).left_to_do(), old(self).left_to_do())
                &&& final(self).left_rows() == match row {
                    Some(row) if side is Left => old(self).left_rows().push(row@),
                    _ => old(self).left_rows(),
                }
                &&& final(self).right_rows() == match row {
                    Some(row) if side is Right => old(self).right_rows().push(row@),
                    _ => old(self).right_rows(),
                }
            },
            r matches Err(e) ==> match row {
                Some(row) => e matches DbError::RowSchemaMismatch(n, m) && n == row@.len() && m
                    == params.build_len(side is Left) && n != m,
                None => cannot_store_all(
                    e,
                    if side is Left {
                        old(self).left_rows()
                    } else {
                        old(self).right_rows()
                    },
                    final(storage),
                ),
            },
            row is Some ==> (r is Ok <==> row->0@.len() == params.build_len(side is Left)),
            row is None && old(self).has_room(old(storage)) ==> r is Ok,
    {
        let ghost me = *self;
        let ghost s0 = *storage;
        proof {
            self.left.inv_gives(storage);
            self.right.inv_gives(storage);
        }
        let r = match side {
            Side::Left => {
                let r = self.left.feed(row, storage);
                proof {
                    untouched_more(&s0, storage, me.left.files(), me.files());
                    self.right.inv_kept(&s0, storage, me.left.files());
                    assert(self.left.files().disjoint(self.right.files()));
                }
                r
            },
            Side::Right => {
                let r = self.right.feed(row, storage);
                proof {
                    untouched_more(&s0, storage, me.right.files(), me.files());
                    self.left.inv_kept(&s0, storage, me.right.files());
                    assert(self.left.files().disjoint(self.right.files()));
                }
                r
            },
        };
        proof {
            let nothing = Multiset::<Seq<Value>>::empty();
            lemma_nothing_passed(by_order(params@), self.left_rest(), self.right_rest());
            lemma_bag_empty();
            assert(rows_of(self.output@) =~= Seq::<Seq<Value>>::empty());
            assert(nothing.add(nothing) =~= nothing);
            if r is Ok {
                if row is None {
                    self.merge_nearer(&me);
                } else {
                    reveal(SortMergeJoin::left_to_do);
                }
                assert(self.sorts_ok(params, storage));
                assert(self.rows_ok(params));
                assert(self.phase_ok(params));
                assert(self.merged_ok(params));
            }
        }
        r
    }

    /// Takes the contents of the blocks that were asked for.
    pub fn supply(
        &mut self,
        data: Vec<u8>,
        storage: &TempStorageManager,
        Ghost(params): Ghost<JoinParams>,
    ) -> (r: Result<(), DbError>)
        requires
            old(self).inv(&params, storage),
            old(self).waiting(),
        ensures
            r is Ok ==> final(self).inv(&params, storage),
            r is Ok ==> !final(self).ended(),
            r is Ok ==> nearer(final(self).left_to_do(), old(self).left_to_do()),
            final(self).left_rows() == old(self).left_rows(),
            final(self).right_rows() == old(self).right_rows(),
            final(self).emitted() == old(self).emitted(),
            final(self).faithful() == (old(self).faithful() && old(self).expects(data@)),
            final(self).files().subset_of(old(self).files()),
            old(self).expects(data@) ==> r is Ok,
    {
        let ghost me = *self;
        let is_left = match self.phase {
            MergePhase::FirstLeft => true,
            MergePhase::NextLeft => true,
            MergePhase::GroupLeft => true,
            _ => false,
        };
        let r = if is_left {
            self.left.supply(data, storage)
        } else {
            self.right.supply(data, storage)
        };
        proof {
            if r is Ok {
                self.merge_nearer(&me);
                assert(self.sorts_ok(&params, storage));
                assert(self.rows_ok(&params));
                assert(self.phase_ok(&params));
                assert(self.merged_ok(&params));
            }
        }
        r
    }
}

} // verus!

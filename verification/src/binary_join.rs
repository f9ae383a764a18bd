//! Hash joins and nested loops, driven alike.

use vstd::multiset::Multiset;
use vstd::prelude::*;
use crate::error::DbError;
use crate::join_builder::{JoinOperator, is_fresh_join, joined_on};
use crate::join_spec::{JoinOn, join_of};
use crate::join_step::{JoinStep, Side, step_nearer};
use crate::progress::nearer;
use crate::query::Condition;
use crate::row::{Row, RowSchema};
use crate::temp_run::{DEFAULT_TEMP_IO_BATCH_PAGES, blocks_of, cannot_store, fits_page, is_content};
use crate::temp_storage::{MAX_BATCH_PAGES, TempStorageManager, let_go, out_of_room, unharmed, untouched};
use crate::value::Value;
use crate::join_table::{decided, undecided};
use crate::join_plan::SPLIT_PAGES;

verus! {

impl JoinOperator {
    /// Whether this is a hash join or a nested loop.
    pub open spec fn is_plain(&self) -> bool {
        !(self is Adaptive)
    }

    /// How much is left to do.
    pub open spec fn left_to_do(&self) -> Seq<nat> {
        match self {
            JoinOperator::Hash(h) => h.left_to_do(),
            JoinOperator::Loop(h) => h.left_to_do(),
            JoinOperator::Adaptive(h) => h.left_to_do(),
        }
    }

    pub open spec fn on(&self) -> JoinOn {
        match self {
            JoinOperator::Hash(h) => h.on(),
            JoinOperator::Loop(h) => h.on(),
            JoinOperator::Adaptive(h) => h.on(),
        }
    }

    pub open spec fn schema_view(&self) -> Seq<Seq<char>> {
        match self {
            JoinOperator::Hash(h) => h.schema_view(),
            JoinOperator::Loop(h) => h.schema_view(),
            JoinOperator::Adaptive(h) => h.schema_view(),
        }
    }

    /// The rows of the left side so far.
    pub open spec fn left_rows(&self) -> Seq<Seq<Value>> {
        match self {
            JoinOperator::Hash(h) => h.left_rows(),
            JoinOperator::Loop(h) => h.left_rows(),
            JoinOperator::Adaptive(h) => h.left_rows(),
        }
    }

    /// The rows of the right side so far.
    pub open spec fn right_rows(&self) -> Seq<Seq<Value>> {
        match self {
            JoinOperator::Hash(h) => h.right_rows(),
            JoinOperator::Loop(h) => h.right_rows(),
            JoinOperator::Adaptive(h) => h.right_rows(),
        }
    }

    /// The rows given out so far.
    pub open spec fn emitted(&self) -> Multiset<Seq<Value>> {
        match self {
            JoinOperator::Hash(h) => h.emitted(),
            JoinOperator::Loop(h) => h.emitted(),
            JoinOperator::Adaptive(h) => h.emitted(),
        }
    }

    pub open spec fn faithful(&self) -> bool {
        match self {
            JoinOperator::Hash(h) => h.faithful(),
            JoinOperator::Loop(h) => h.faithful(),
            JoinOperator::Adaptive(h) => h.faithful(),
        }
    }

    pub open spec fn failed(&self) -> bool {
        match self {
            JoinOperator::Hash(h) => h.failed(),
            JoinOperator::Loop(h) => h.failed(),
            JoinOperator::Adaptive(h) => h.failed(),
        }
    }

    pub open spec fn ended(&self) -> bool {
        match self {
            JoinOperator::Hash(h) => h.ended(),
            JoinOperator::Loop(h) => h.ended(),
            JoinOperator::Adaptive(h) => h.ended(),
        }
    }

    /// The side whose next row is asked for.
    pub open spec fn wants(&self) -> Option<Side> {
        match self {
            JoinOperator::Hash(h) => h.wants(),
            JoinOperator::Loop(h) => h.wants(),
            JoinOperator::Adaptive(h) => h.wants(),
        }
    }

    pub open spec fn waiting(&self) -> bool {
        match self {
            JoinOperator::Hash(h) => h.waiting(),
            JoinOperator::Loop(h) => h.waiting(),
            JoinOperator::Adaptive(h) => h.waiting(),
        }
    }

    pub open spec fn expects(&self, data: Seq<u8>) -> bool {
        match self {
            JoinOperator::Hash(h) => h.expects(data),
            JoinOperator::Loop(h) => h.expects(data),
            JoinOperator::Adaptive(h) => h.expects(data),
        }
    }

    pub open spec fn files(&self) -> Set<u64> {
        match self {
            JoinOperator::Hash(h) => h.files(),
            JoinOperator::Loop(h) => h.files(),
            JoinOperator::Adaptive(h) => h.files(),
        }
    }

    /// Whether a side has told that it has no more rows.
    pub open spec fn exhausted(&self, side: Side) -> bool {
        match self {
            JoinOperator::Hash(h) => h.exhausted(side),
            JoinOperator::Loop(h) => h.exhausted(side),
            JoinOperator::Adaptive(h) => h.ended(),
        }
    }

    pub open spec fn inv(&self, storage: &TempStorageManager) -> bool {
        match self {
            JoinOperator::Hash(h) => h.inv(storage),
            JoinOperator::Loop(h) => h.inv(storage),
            JoinOperator::Adaptive(h) => h.inv(storage),
        }
    }

    /// How many pages are written at a time.
    pub open spec fn write_batch(&self) -> nat {
        match self {
            JoinOperator::Hash(h) => h.write_batch(),
            JoinOperator::Loop(h) => h.write_batch(),
            JoinOperator::Adaptive(_) => 0,
        }
    }

    /// The length of a side's rows.
    pub open spec fn side_len(&self, side: Side) -> nat {
        match self {
            JoinOperator::Hash(h) => h.side_len(side),
            JoinOperator::Loop(h) => h.side_len(side),
            JoinOperator::Adaptive(h) => h.side_len(side),
        }
    }

    /// How many parts there are of what is left to do.
    pub proof fn left_is_fixed(&self)
        ensures
            self.left_to_do().len() == match self {
                JoinOperator::Hash(_) => 11nat,
                JoinOperator::Loop(_) => 4,
                JoinOperator::Adaptive(_) => 13,
            },
    {
        match self {
            JoinOperator::Hash(h) => h.left_is_eleven(),
            JoinOperator::Loop(h) => h.left_is_four(),
            JoinOperator::Adaptive(h) => h.left_is_thirteen(),
        }
    }

    /// The files of a join exist.
    pub proof fn inv_gives(&self, storage: &TempStorageManager)
        requires
            self.is_plain(),
            self.inv(storage),
        ensures
            storage.inv(),
            forall|f: u64| #[trigger] self.files().contains(f) ==> storage.has_file(f),
    {
        match self {
            JoinOperator::Hash(h) => h.inv_gives(storage),
            JoinOperator::Loop(h) => h.inv_gives(storage),
            JoinOperator::Adaptive(_) => {},
        }
    }

    /// A join depends on its own files alone.
    pub proof fn inv_kept(
        &self,
        before: &TempStorageManager,
        after: &TempStorageManager,
        touched: Set<u64>,
    )
        requires
            self.is_plain(),
            self.inv(before),
            after.inv(),
            unharmed(before, after, touched),
            touched.disjoint(self.files()),
        ensures
            self.inv(after),
    {
        match self {
            JoinOperator::Hash(h) => h.inv_kept(before, after, touched),
            JoinOperator::Loop(h) => h.inv_kept(before, after, touched),
            JoinOperator::Adaptive(_) => {},
        }
    }

    /// A join that came to its end without an error, and was supplied with what the storage
    /// held, has taken all rows of both sides and has given out exactly their join.
    pub proof fn join_is_complete(&self, storage: &TempStorageManager)
        requires
            self.is_plain(),
            self.inv(storage),
            self.ended(),
            !self.failed(),
            self.faithful(),
        ensures
            self.emitted() == join_of(self.on(), self.left_rows(), self.right_rows()),
            self.exhausted(Side::Left),
            self.exhausted(Side::Right),
    {
        match self {
            JoinOperator::Hash(h) => {
                h.join_is_complete(storage);
                h.ended_is_exhausted(Side::Left);
                h.ended_is_exhausted(Side::Right);
            },
            JoinOperator::Loop(h) => {
                h.join_is_complete(storage);
                h.ended_is_exhausted(Side::Left);
                h.ended_is_exhausted(Side::Right);
            },
            JoinOperator::Adaptive(_) => {},
        }
    }

    /// The end of a join is the end of both its sides.
    pub proof fn ended_is_exhausted(&self, side: Side)
        requires
            self.is_plain(),
            self.ended(),
        ensures
            self.exhausted(side),
    {
        match self {
            JoinOperator::Hash(h) => h.ended_is_exhausted(side),
            JoinOperator::Loop(h) => h.ended_is_exhausted(side),
            JoinOperator::Adaptive(_) => {},
        }
    }

    /// A join that waits for blocks has not come to its end.
    pub proof fn waiting_is_not_ended(&self)
        requires
            self.is_plain(),
            self.waiting(),
        ensures
            !self.ended(),
    {
        match self {
            JoinOperator::Hash(h) => h.waiting_is_not_ended(),
            JoinOperator::Loop(h) => h.waiting_is_not_ended(),
            JoinOperator::Adaptive(_) => {},
        }
    }

    pub fn schema(&self) -> (r: &RowSchema)
        ensures
            r@ == self.schema_view(),
    {
        match self {
            JoinOperator::Hash(h) => h.schema(),
            JoinOperator::Loop(h) => h.schema(),
            JoinOperator::Adaptive(h) => h.schema(),
        }
    }

    /// Does the next piece of work of a hash join or a nested loop.
    pub fn step(&mut self, storage: &mut TempStorageManager) -> (r: Result<JoinStep, DbError>)
        requires
            old(self).is_plain(),
            old(self).inv(old(storage)),
        ensures
            final(self).is_plain(),
            final(self).inv(final(storage)),
            final(storage).inv(),
            untouched(old(storage), final(storage), old(self).files()),
            final(self).on() == old(self).on(),
            final(self).schema_view() == old(self).schema_view(),
            final(self).left_rows() == old(self).left_rows(),
            final(self).right_rows() == old(self).right_rows(),
            final(self).faithful() == old(self).faithful(),
            forall|f: u64| #[trigger]
                final(self).files().contains(f) ==> old(self).files().contains(f) || !old(
                    storage,
                ).has_file(f),
            final(self).emitted() == match r {
                Ok(JoinStep::Row(row)) => old(self).emitted().insert(row@),
                _ => old(self).emitted(),
            },
            r is Ok ==> final(self).failed() == old(self).failed(),
            r is Ok ==> forall|s: Side| #[trigger]
                final(self).exhausted(s) ==> old(self).exhausted(s),
            match r {
                Ok(JoinStep::Pull(side)) => final(self).wants() == Some(side),
                Ok(JoinStep::Need(ranges)) => final(self).waiting() && (forall|data: Seq<u8>|
                    is_content(
                        final(storage).disk(),
                        blocks_of(ranges@),
                        data,
                        final(storage).size() as int,
                    ) ==> #[trigger] final(self).expects(data)),
                Ok(JoinStep::NeedAnonStart) => final(storage).frontier() is None,
                Ok(JoinStep::Done) => final(self).ended(),
                Ok(_) => !final(self).ended(),
                Err(e) => {
                    &&& final(self).ended()
                    &&& final(self).failed()
                    &&& old(self).faithful() ==> out_of_room(e, final(storage)) || undecided(
                        old(self).on(),
                        e,
                        old(self).left_rows(),
                        old(self).right_rows(),
                    )
                },
            },
            step_nearer(r, final(self).left_to_do(), old(self).left_to_do()),
            r is Ok ==> let_go(old(self).files(), final(self).files(), final(storage)),
            forall|side: Side| #[trigger] final(self).side_len(side) == old(self).side_len(side),
            old(self).faithful() && old(storage).roomy(SPLIT_PAGES as nat) && decided(
                old(self).on(),
                old(self).left_rows(),
                old(self).right_rows(),
            ) ==> r is Ok,
            r matches Ok(JoinStep::Row(row)) ==> old(self).faithful() ==> row@.len()
                == old(self).schema_view().len(),
            old(self).ended() ==> r matches Ok(JoinStep::Done),
            old(self).wants() matches Some(side) ==> r matches Ok(JoinStep::Pull(s)) && s == side,
    {
        proof {
            if storage.roomy(SPLIT_PAGES as nat) {
                storage.roomy_for_fewer(SPLIT_PAGES as nat, MAX_BATCH_PAGES as nat);
            }
        }
        match self {
            JoinOperator::Hash(h) => h.step(storage),
            JoinOperator::Loop(h) => h.step(storage),
            JoinOperator::Adaptive(_) => Ok(JoinStep::Done),
        }
    }

    /// Takes the next row of the side that is asked for, or that it has no more.
    pub fn feed(&mut self, side: Side, row: Option<Row>, storage: &mut TempStorageManager) -> (r:
        Result<(), DbError>)
        requires
            old(self).is_plain(),
            old(self).inv(old(storage)),
            old(self).wants() == Some(side),
        ensures
            final(self).is_plain(),
            final(self).inv(final(storage)),
            final(storage).inv(),
            untouched(old(storage), final(storage), old(self).files()),
            final(self).on() == old(self).on(),
            final(self).schema_view() == old(self).schema_view(),
            final(self).faithful() == old(self).faithful(),
            final(self).emitted() == old(self).emitted(),
            forall|f: u64| #[trigger]
                final(self).files().contains(f) ==> old(self).files().contains(f) || !old(
                    storage,
                ).has_file(f),
            final(self).left_to_do().len() == old(self).left_to_do().len(),
            r is Ok && row is None ==> nearer(final(self).left_to_do(), old(self).left_to_do()),
            r is Ok ==> let_go(old(self).files(), final(self).files(), final(storage)),
            r is Ok ==> {
                &&& !final(self).failed()
                &&& forall|s: Side| #[trigger]
                    final(self).exhausted(s) ==> old(self).exhausted(s) || (s == side && row is None)
                &&& final(self).left_rows() == match row {
                    Some(row) if side is Left => old(self).left_rows().push(row@),
                    _ => old(self).left_rows(),
                }
                &&& final(self).right_rows() == match row {
                    Some(row) if side is Right => old(self).right_rows().push(row@),
                    _ => old(self).right_rows(),
                }
            },
            r matches Err(e) ==> {
                &&& final(self).failed()
                &&& final(self).ended()
                &&& match e {
                    DbError::RowSchemaMismatch(n, m) => row is Some && n == row->0@.len() && m
                        == old(self).side_len(side) && n != m,
                    _ => match row {
                        Some(x) => cannot_store(e, x@, final(storage)),
                        None => out_of_room(e, final(storage)),
                    },
                }
            },
            forall|s: Side| #[trigger] final(self).side_len(s) == old(self).side_len(s),
            row is None && old(storage).roomy(SPLIT_PAGES as nat) ==> r is Ok,
            row matches Some(x) ==> x@.len() == old(self).side_len(side) && fits_page(
                x@,
                old(storage).size(),
            ) && old(storage).roomy(old(self).write_batch()) && old(storage).size()
                * DEFAULT_TEMP_IO_BATCH_PAGES <= usize::MAX ==> r is Ok,
            row is Some && row->0@.len() != old(self).side_len(side) ==> r is Err
                && r->Err_0 is RowSchemaMismatch,
    {
        proof {
            self.left_is_fixed();
            if storage.roomy(SPLIT_PAGES as nat) {
                storage.roomy_for_fewer(SPLIT_PAGES as nat, DEFAULT_TEMP_IO_BATCH_PAGES as nat);
                if let JoinOperator::Loop(h) = self {
                    h.batch_is_small(storage);
                    storage.roomy_for_fewer(SPLIT_PAGES as nat, h.write_batch());
                }
            }
        }
        let r = match self {
            JoinOperator::Hash(h) => h.feed(side, row, storage),
            JoinOperator::Loop(h) => h.feed(side, row, storage),
            JoinOperator::Adaptive(_) => Ok(()),
        };
        proof {
            self.left_is_fixed();
        }
        r
    }

    /// Takes the contents of the blocks that were asked for.
    pub fn supply(&mut self, data: Vec<u8>, storage: &TempStorageManager) -> (r: Result<
        (),
        DbError,
    >)
        requires
            old(self).is_plain(),
            old(self).inv(storage),
            old(self).waiting(),
        ensures
            final(self).is_plain(),
            final(self).inv(storage),
            final(self).on() == old(self).on(),
            final(self).schema_view() == old(self).schema_view(),
            final(self).left_rows() == old(self).left_rows(),
            final(self).right_rows() == old(self).right_rows(),
            final(self).emitted() == old(self).emitted(),
            final(self).faithful() == (old(self).faithful() && old(self).expects(data@)),
            final(self).files().subset_of(old(self).files()),
            r is Ok ==> forall|s: Side| #[trigger]
                final(self).exhausted(s) ==> old(self).exhausted(s),
            old(self).expects(data@) ==> r is Ok,
            forall|s: Side| #[trigger] final(self).side_len(s) == old(self).side_len(s),
            r is Ok ==> nearer(final(self).left_to_do(), old(self).left_to_do()),
            r is Ok ==> !final(self).failed() && !final(self).ended(),
            r is Err ==> final(self).failed() && final(self).ended(),
    {
        match self {
            JoinOperator::Hash(h) => h.supply(data, storage),
            JoinOperator::Loop(h) => h.supply(data, storage),
            JoinOperator::Adaptive(_) => Ok(()),
        }
    }
}

/// A join that was just built is ready to be driven.
pub proof fn lemma_fresh_join(
    j: JoinOperator,
    ls: Seq<Seq<char>>,
    rs: Seq<Seq<char>>,
    cs: Seq<Condition>,
    storage: &TempStorageManager,
)
    requires
        j.is_plain(),
        is_fresh_join(j, ls, rs, cs),
        storage.inv(),
    ensures
        j.inv(storage),
        j.on() == joined_on(ls, rs, cs),
        j.schema_view() == ls + rs,
        j.left_rows().len() == 0,
        j.right_rows().len() == 0,
        j.emitted() == Multiset::<Seq<Value>>::empty(),
        j.faithful(),
        !j.failed(),
        !j.ended(),
        j.files() == Set::<u64>::empty(),
        forall|s: Side| !(#[trigger] j.exhausted(s)),
{
}

} // verus!

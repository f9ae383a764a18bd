//! What a hybrid hash join has left to join once both sides are partitioned.

use vstd::multiset::Multiset;
use vstd::prelude::*;
use crate::adaptive_spec::total;
use crate::join_spec::JoinOn;
use crate::join_table::{JoinParams, JoinTable, all_in, all_len};
use crate::temp_run::run_of;
use crate::temp_storage::{TempFileId, TempStorageManager, unharmed, untouched_file};
use crate::value::Value;

verus! {

/// The resident partition: build rows in memory and in a file, and the file of the probe rows.
pub struct ResidentPhase {
    pub table: JoinTable,
    pub bytes: usize,
    pub probe_file: TempFileId,
    pub spill_file: Option<TempFileId>,
}

impl ResidentPhase {
    pub open spec fn spilled(&self, storage: &TempStorageManager) -> Seq<Seq<Value>> {
        match self.spill_file {
            Some(id) => run_of(storage, id.0)->0,
            None => Seq::empty(),
        }
    }

    pub open spec fn files(&self) -> Set<u64> {
        match self.spill_file {
            Some(id) => Set::<u64>::empty().insert(self.probe_file.0).insert(id.0),
            None => Set::<u64>::empty().insert(self.probe_file.0),
        }
    }

    pub open spec fn ok(
        &self,
        params: &JoinParams,
        build_is_left: bool,
        storage: &TempStorageManager,
    ) -> bool {
        &&& self.table.inv(params.build_at(build_is_left), params.build_len(build_is_left))
        &&& run_of(storage, self.probe_file.0) is Some
        &&& all_len(run_of(storage, self.probe_file.0)->0, params.build_len(!build_is_left))
        &&& self.spill_file matches Some(id) ==> id != self.probe_file && run_of(storage, id.0)
            is Some && all_len(run_of(storage, id.0)->0, params.build_len(build_is_left))
    }

    /// What the probe rows contribute.
    pub open spec fn value(
        &self,
        full: bool,
        on: JoinOn,
        build_is_left: bool,
        storage: &TempStorageManager,
    ) -> Multiset<Seq<Value>> {
        total(
            full,
            on,
            build_is_left,
            self.table.rows() + self.spilled(storage),
            run_of(storage, self.probe_file.0)->0,
        )
    }

    pub proof fn ok_kept(
        &self,
        full: bool,
        params: &JoinParams,
        build_is_left: bool,
        before: &TempStorageManager,
        after: &TempStorageManager,
        touched: Set<u64>,
    )
        requires
            self.ok(params, build_is_left, before),
            unharmed(before, after, touched),
            touched.disjoint(self.files()),
        ensures
            self.ok(params, build_is_left, after),
            self.value(full, params@, build_is_left, after) == self.value(
                full,
                params@,
                build_is_left,
                before,
            ),
            forall|f: u64| #[trigger] self.files().contains(f) ==> before.has_file(f),
            forall|ls: Seq<Seq<Value>>, rs: Seq<Seq<Value>>|
                resident_within(Some(*self), build_is_left, before, ls, rs)
                    ==> #[trigger] resident_within(Some(*self), build_is_left, after, ls, rs),
    {
        reveal(resident_within);
        assert(self.files().contains(self.probe_file.0));
        untouched_file(before, after, touched, self.probe_file.0);
        if let Some(id) = self.spill_file {
            assert(self.files().contains(id.0));
            untouched_file(before, after, touched, id.0);
        }
    }

    pub proof fn ok_gives(
        &self,
        params: &JoinParams,
        build_is_left: bool,
        storage: &TempStorageManager,
    )
        requires
            self.ok(params, build_is_left, storage),
        ensures
            forall|f: u64| #[trigger] self.files().contains(f) ==> storage.has_file(f),
    {
    }
}

/// What the resident partition contributes, where there is one.
pub open spec fn resident_value(
    resident: Option<ResidentPhase>,
    full: bool,
    on: JoinOn,
    build_is_left: bool,
    storage: &TempStorageManager,
) -> Multiset<Seq<Value>> {
    match resident {
        Some(r) => r.value(full, on, build_is_left, storage),
        None => Multiset::empty(),
    }
}

/// Whether the rows of the resident partition are among those of the sides.
#[verifier::opaque]
pub open spec fn resident_within(
    resident: Option<ResidentPhase>,
    build_is_left: bool,
    storage: &TempStorageManager,
    ls: Seq<Seq<Value>>,
    rs: Seq<Seq<Value>>,
) -> bool {
    resident matches Some(r) ==> {
        let (build, probe) = if build_is_left {
            (ls, rs)
        } else {
            (rs, ls)
        };
        &&& all_in(r.table.rows(), build)
        &&& all_in(r.spilled(storage), build)
        &&& all_in(run_of(storage, r.probe_file.0)->0, probe)
    }
}

pub open spec fn resident_files(resident: Option<ResidentPhase>) -> Set<u64> {
    match resident {
        Some(r) => r.files(),
        None => Set::empty(),
    }
}

} // verus!

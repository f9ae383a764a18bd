//! The hash joins that an adaptive join chooses from.
//!
//! The build side is gathered first. If it fits in memory it becomes a table; if it does not,
//! both sides are partitioned, and the partitions are joined one after the other.

use std::collections::VecDeque;
use vstd::multiset::Multiset;
use vstd::prelude::*;
use crate::adaptive_plan::{FINISH_PAGES, choose_in_memory_build_budget_bytes, estimate_hash_build_row_bytes};
use crate::adaptive_spec::{lemma_total_push, total};
use crate::bitmap_scan::ScanNext;
use crate::bloom::ExactBitmapCandidate;
use crate::error::DbError;
use crate::hybrid_build::{HybridBuild, filters_short};
use crate::hybrid_join::{HybridJoin, HybridNext};
use crate::hybrid_parts::resident_value;
use crate::hybrid_probe::HybridProbe;
use crate::join_spec::JoinOn;
use crate::join_step::{JoinStep, Side, step_nearer};
use crate::join_table::{JoinParams, all_len, decided_sides, lemma_all_in_self, undecided};
use crate::memory::{MemoryAccount, QueryMemoryManager};
use crate::memory_join::InMemoryHash;
use crate::pairs::FilePair;
use crate::part_files::pairs_total;
use crate::part_join::{lemma_row_undecided, parts_fail};
use crate::progress::{nearer, nearer_at, nearer_back, nearer_front, not_farther};
use crate::row::{Row, pick};
use crate::temp_run::{blocks_of, cannot_store, cannot_store_all, is_content, lemma_no_room_left, no_room_for_all};
use crate::temp_storage::{MAX_BATCH_PAGES, TempStorageManager, grew_by, lemma_out_of_pages, out_of_pages, out_of_room, same_room, unharmed, untouched, untouched_file, untouched_same, untouched_twice};
use crate::value::Value;
use crate::views::rows_of;

verus! {

struct Gathered {
    rows: VecDeque<Row>,
    bytes: usize,
    candidate: ExactBitmapCandidate,
}

enum FamilyState {
    Gather(Gathered),
    Overflow(Gathered, Row),
    InMemory(InMemoryHash),
    Build(HybridBuild),
    Scan(HybridProbe),
    Probe(HybridProbe),
    Probing(HybridJoin),
    Done,
}

/// A hash join of some kind.
pub struct HashFamily {
    build_is_left: bool,
    state: FamilyState,
    build_rows: Ghost<Seq<Seq<Value>>>,
    probe_rows: Ghost<Seq<Seq<Value>>>,
    emitted: Ghost<Multiset<Seq<Value>>>,
    faithful: Ghost<bool>,
}

impl Gathered {
    spec fn ok(&self, params: &JoinParams, bl: bool) -> bool {
        &&& all_len(rows_of(self.rows@), params.build_len(bl))
        &&& forall|i: int|
            0 <= i < self.rows@.len() ==> self.candidate.covers(
                pick((#[trigger] self.rows@[i])@, params.build_at(bl)),
            )
    }
}

impl HashFamily {
    pub closed spec fn builds_left(&self) -> bool {
        self.build_is_left
    }

    pub closed spec fn build_rows(&self) -> Seq<Seq<Value>> {
        self.build_rows@
    }

    pub closed spec fn probe_rows(&self) -> Seq<Seq<Value>> {
        self.probe_rows@
    }

    pub closed spec fn emitted(&self) -> Multiset<Seq<Value>> {
        self.emitted@
    }

    /// Whether all data that was supplied is what the storage held.
    pub closed spec fn faithful(&self) -> bool {
        self.faithful@
    }

    pub closed spec fn ended(&self) -> bool {
        self.state is Done
    }

    /// The side whose next row is asked for.
    pub closed spec fn wants(&self) -> Option<Side> {
        match self.state {
            FamilyState::Gather(_) => Some(Side::of(self.build_is_left)),
            FamilyState::Build(_) => Some(Side::of(self.build_is_left)),
            FamilyState::InMemory(m) => if m.busy() {
                None
            } else {
                Some(Side::of(!self.build_is_left))
            },
            FamilyState::Probe(_) => Some(Side::of(!self.build_is_left)),
            _ => None,
        }
    }

    /// How many stages are to come.
    spec fn stages(&self) -> nat {
        match self.state {
            FamilyState::Gather(_) => 6,
            FamilyState::Overflow(_, _) => 5,
            FamilyState::Build(_) => 4,
            FamilyState::Scan(_) => 3,
            FamilyState::Probe(_) | FamilyState::InMemory(_) => 2,
            FamilyState::Probing(_) => 1,
            FamilyState::Done => 0,
        }
    }

    /// How much is left to do within the stage.
    spec fn in_stage(&self) -> Seq<nat> {
        match self.state {
            FamilyState::Scan(p) => p.left_to_do() + seq![0nat, 0nat],
            FamilyState::InMemory(m) => seq![m.left_to_do(), 0nat, 0nat, 0nat, 0nat],
            FamilyState::Probing(h) => h.left_to_do(),
            _ => seq![0nat, 0nat, 0nat, 0nat, 0nat],
        }
    }

    proof fn in_stage_is_five(&self)
        ensures
            self.in_stage().len() == 5,
    {
        match self.state {
            FamilyState::Scan(p) => {
                p.left_is_three();
            },
            FamilyState::Probing(h) => {
                h.left_is_five();
            },
            _ => {},
        }
    }

    /// How much is left to do: the stages, and within the stage.
    #[verifier::opaque]
    pub closed spec fn left_to_do(&self) -> Seq<nat> {
        seq![self.stages()] + self.in_stage()
    }

    pub proof fn left_is_six(&self)
        ensures
            self.left_to_do().len() == 6,
    {
        reveal(HashFamily::left_to_do);
        self.in_stage_is_five();
    }

    /// A later stage, or less within it, is nearer to the end.
    proof fn stage_nearer(&self, before: &HashFamily)
        requires
            self.stages() < before.stages() || (self.stages() == before.stages() && nearer(
                self.in_stage(),
                before.in_stage(),
            )),
        ensures
            nearer(self.left_to_do(), before.left_to_do()),
    {
        reveal(HashFamily::left_to_do);
        self.in_stage_is_five();
        before.in_stage_is_five();
        if self.stages() < before.stages() {
            nearer_at(self.left_to_do(), before.left_to_do(), 0);
        } else {
            nearer_back(seq![self.stages()], self.in_stage(), before.in_stage());
        }
    }

    proof fn stage_not_farther(&self, before: &HashFamily)
        requires
            self.stages() == before.stages(),
            not_farther(self.in_stage(), before.in_stage()),
        ensures
            not_farther(self.left_to_do(), before.left_to_do()),
    {
        reveal(HashFamily::left_to_do);
        if self.in_stage() != before.in_stage() {
            self.stage_nearer(before);
        }
    }

    /// Whether blocks are asked for.
    pub closed spec fn waiting(&self) -> bool {
        match self.state {
            FamilyState::Scan(p) => p.waiting(),
            FamilyState::Probing(h) => h.waiting(),
            _ => false,
        }
    }

    /// Whether `data` is what the storage held in the blocks that are asked for.
    pub closed spec fn expects(&self, data: Seq<u8>) -> bool {
        match self.state {
            FamilyState::Scan(p) => p.expects(data),
            FamilyState::Probing(h) => h.expects(data),
            _ => false,
        }
    }

    pub closed spec fn files(&self) -> Set<u64> {
        match self.state {
            FamilyState::Build(h) => h.writers.files(),
            FamilyState::Scan(p) => p.files(),
            FamilyState::Probe(p) => p.files(),
            FamilyState::Probing(h) => h.files(),
            _ => Set::empty(),
        }
    }

    /// The bytes that are reserved.
    pub closed spec fn reserved(&self) -> nat {
        match self.state {
            FamilyState::Gather(g) => g.bytes as nat,
            FamilyState::Overflow(g, _) => g.bytes as nat,
            FamilyState::InMemory(m) => m.reserved(),
            FamilyState::Build(h) => h.reserved(),
            FamilyState::Scan(p) => p.reserved(),
            FamilyState::Probe(p) => p.reserved(),
            FamilyState::Probing(h) => h.reserved(),
            FamilyState::Done => 0,
        }
    }

    /// The rows of both sides: left and right.
    pub open spec fn sides(&self) -> (Seq<Seq<Value>>, Seq<Seq<Value>>) {
        if self.builds_left() {
            (self.build_rows(), self.probe_rows())
        } else {
            (self.probe_rows(), self.build_rows())
        }
    }

    /// Whether the build side is being gathered in memory.
    pub closed spec fn gathers(&self) -> bool {
        self.state is Gather
    }

    /// Whether the build side is to go over to temporary storage.
    pub closed spec fn overflows(&self) -> bool {
        self.state is Overflow
    }

    /// Whether the whole build side is a table in memory.
    pub closed spec fn has_table(&self) -> bool {
        self.state is InMemory
    }

    /// Whether rows were written to temporary storage.
    pub closed spec fn stores(&self) -> bool {
        self.state is Build || self.state is Scan || self.state is Probe || self.state is Probing
    }

    /// A join that has its build side in memory, or gathers it there, has no file.
    pub proof fn memory_join_has_no_files(&self)
        ensures
            self.gathers() || self.overflows() || self.has_table() ==> self.files() == Set::<
                u64,
            >::empty() && !self.stores(),
    {
    }

    spec fn whole(&self, full: bool, on: JoinOn) -> Multiset<Seq<Value>> {
        total(full, on, self.build_is_left, self.build_rows@, self.probe_rows@)
    }

    spec fn state_ok(&self, full: bool, params: &JoinParams, storage: &TempStorageManager) -> bool {
        let bl = self.build_is_left;
        let none = Multiset::<Seq<Value>>::empty();
        match self.state {
            FamilyState::Gather(g) => {
                &&& g.ok(params, bl)
                &&& rows_of(g.rows@) == self.build_rows@
                &&& self.probe_rows@.len() == 0
                &&& self.emitted@ == none
            },
            FamilyState::Overflow(g, row) => {
                &&& g.ok(params, bl)
                &&& row@.len() == params.build_len(bl)
                &&& rows_of(g.rows@).push(row@) == self.build_rows@
                &&& self.probe_rows@.len() == 0
                &&& self.emitted@ == none
            },
            FamilyState::InMemory(m) => {
                &&& m.ok(params)
                &&& m.build_is_left == bl
                &&& m.table.rows() == self.build_rows@
                &&& m.pending matches Some(p) ==> self.probe_rows@.contains(p.probe_row@)
                &&& self.emitted@.add(m.rest(params@)) == self.whole(full, params@)
            },
            FamilyState::Build(h) => {
                &&& h.inv(params, storage)
                &&& h.build_is_left == bl
                &&& h.build_rows@ == self.build_rows@
                &&& self.probe_rows@.len() == 0
                &&& self.emitted@ == none
            },
            FamilyState::Scan(p) => {
                &&& p.inv(params, storage)
                &&& p.build_is_left == bl
                &&& p.build_rows@ == self.build_rows@
                &&& p.probe_rows@ == self.probe_rows@
                &&& self.faithful@ ==> p.good(full, params, storage)
                &&& self.emitted@ == none
            },
            FamilyState::Probe(p) => {
                &&& p.inv(params, storage)
                &&& p.scanned()
                &&& p.build_is_left == bl
                &&& p.build_rows@ == self.build_rows@
                &&& p.probe_rows@ == self.probe_rows@
                &&& self.faithful@ ==> p.good(full, params, storage)
                &&& self.emitted@ == none
            },
            FamilyState::Probing(h) => {
                &&& h.ok(params, storage)
                &&& h.build_is_left == bl
                &&& self.faithful@ ==> h.good(params)
                &&& self.faithful@ ==> h.within(storage, self.sides().0, self.sides().1)
                &&& self.faithful@ ==> self.emitted@.add(
                    h.rest(full, params@, storage),
                ) == self.whole(full, params@)
            },
            FamilyState::Done => self.faithful@ ==> self.emitted@ == self.whole(
                full,
                params@,
            ),
        }
    }

    pub closed spec fn inv(
        &self,
        full: bool,
        params: &JoinParams,
        storage: &TempStorageManager,
    ) -> bool {
        &&& params.inv()
        &&& storage.inv()
        &&& self.state_ok(full, params, storage)
    }

    /// A hash join at its end asks for nothing and holds nothing.
    pub proof fn ended_wants_nothing(&self)
        ensures
            self.ended() ==> self.wants() is None && !self.waiting() && self.reserved() == 0
                && self.files() == Set::<u64>::empty(),
    {
    }

    /// Whether the join has come to its end.
    pub fn is_done(&self) -> (r: bool)
        ensures
            r == self.ended(),
    {
        match self.state {
            FamilyState::Done => true,
            _ => false,
        }
    }

    /// A hash join that came to its end has given out what its probe rows contribute.
    pub proof fn family_is_complete(
        &self,
        full: bool,
        params: &JoinParams,
        storage: &TempStorageManager,
    )
        requires
            self.inv(full, params, storage),
            self.ended(),
            self.faithful(),
        ensures
            self.emitted() == total(
                full,
                params@,
                self.builds_left(),
                self.build_rows(),
                self.probe_rows(),
            ),
    {
    }

    /// The files of a hash join exist.
    pub proof fn inv_gives(&self, full: bool, params: &JoinParams, storage: &TempStorageManager)
        requires
            self.inv(full, params, storage),
        ensures
            storage.inv(),
            forall|f: u64| #[trigger] self.files().contains(f) ==> storage.has_file(f),
    {
        match self.state {
            FamilyState::Build(h) => {
                h.writers.inv_gives(storage);
            },
            FamilyState::Scan(p) => {
                p.inv_gives(params, storage);
            },
            FamilyState::Probe(p) => {
                p.inv_gives(params, storage);
            },
            FamilyState::Probing(h) => {
                h.ok_gives(params, storage);
            },
            _ => {},
        }
    }

    /// A hash join depends on its own files alone.
    pub proof fn inv_kept(
        &self,
        full: bool,
        params: &JoinParams,
        before: &TempStorageManager,
        after: &TempStorageManager,
        touched: Set<u64>,
    )
        requires
            self.inv(full, params, before),
            after.inv(),
            unharmed(before, after, touched),
            touched.disjoint(self.files()),
        ensures
            self.inv(full, params, after),
    {
        match self.state {
            FamilyState::Build(h) => {
                h.inv_kept(params, before, after, touched);
            },
            FamilyState::Scan(p) => {
                p.inv_kept(full, params, before, after, touched);
            },
            FamilyState::Probe(p) => {
                p.inv_kept(full, params, before, after, touched);
            },
            FamilyState::Probing(h) => {
                h.ok_kept(full, params, before, after, touched);
            },
            _ => {},
        }
    }

    /// Starts a join with no rows.
    pub fn start(build_is_left: bool) -> (r: HashFamily)
        ensures
            r.builds_left() == build_is_left,
            r.build_rows() == Seq::<Seq<Value>>::empty(),
            r.probe_rows() == Seq::<Seq<Value>>::empty(),
            r.emitted() == Multiset::<Seq<Value>>::empty(),
            r.faithful(),
            !r.ended(),
            r.reserved() == 0,
            r.files() == Set::<u64>::empty(),
            r.wants() == Some(Side::of(build_is_left)),
            forall|full: bool, params: &JoinParams, storage: &TempStorageManager|
                params.inv() && storage.inv() ==> #[trigger] r.inv(full, params, storage),
    {
        let g = Gathered {
            rows: VecDeque::new(),
            bytes: 0,
            candidate: ExactBitmapCandidate::default(),
        };
        proof {
            assert(rows_of(g.rows@) =~= Seq::<Seq<Value>>::empty());
        }
        HashFamily {
            build_is_left,
            state: FamilyState::Gather(g),
            build_rows: Ghost(Seq::empty()),
            probe_rows: Ghost(Seq::empty()),
            emitted: Ghost(Multiset::empty()),
            faithful: Ghost(true),
        }
    }
}

/// Files made later are no files of an earlier time.
proof fn lemma_still_fresh(
    s0: &TempStorageManager,
    s1: &TempStorageManager,
    before: Set<u64>,
    after: Set<u64>,
)
    requires
        unharmed(s0, s1, Set::empty()),
        forall|f: u64| #[trigger] before.contains(f) ==> !s0.has_file(f),
        forall|f: u64| #[trigger] after.contains(f) ==> before.contains(f) || !s1.has_file(f),
    ensures
        forall|f: u64| #[trigger] after.contains(f) ==> !s0.has_file(f),
{
    assert forall|f: u64| #[trigger] after.contains(f) implies !s0.has_file(f) by {
        if !before.contains(f) {
            untouched_file(s0, s1, Set::empty(), f);
        }
    }
}

/// Goes over to partitions: all rows gathered so far, and one more, are added.
fn overflow(
    g: Gathered,
    row: Row,
    build_is_left: bool,
    params: &JoinParams,
    sort_run_bytes: usize,
    memory: &mut QueryMemoryManager,
    storage: &mut TempStorageManager,
) -> (r: Result<HybridBuild, DbError>)
    requires
        params.inv(),
        old(storage).inv(),
        old(memory)@.inv(),
        g.bytes <= old(memory)@.used,
        g.ok(params, build_is_left),
        row@.len() == params.build_len(build_is_left),
    ensures
        final(storage).inv(),
        final(memory)@.inv(),
        untouched(old(storage), final(storage), Set::empty()),
        match r {
            Ok(h) => {
                &&& h.inv(params, final(storage))
                &&& h.build_is_left == build_is_left
                &&& h.build_rows@ == rows_of(g.rows@).push(row@)
                &&& final(memory)@.used + g.bytes == old(memory)@.used + h.reserved()
                &&& forall|f: u64| #[trigger]
                    h.writers.files().contains(f) ==> !old(storage).has_file(f)
            },
            Err(e) => cannot_store_all(
                e,
                rows_of(g.rows@).push(row@),
                final(storage),
            ) && no_room_for_all(e, rows_of(g.rows@).push(row@), old(storage)) || filters_short(
                e,
                MemoryAccount { used: (old(memory)@.used - g.bytes) as nat, ..old(memory)@ },
            ),
        },
{
    let ghost s0 = *storage;
    let ghost m0 = memory@;
    let ghost given = g.rows@;
    let ghost all = rows_of(given);
    let ghost last = all.len() as int;
    let ghost none = Set::<u64>::empty();
    let ghost start_bytes = g.bytes;
    proof {
        untouched_same(&s0, storage, none);
        assert(given.skip(0) =~= given);
        assert(all.take(0) =~= Seq::<Seq<Value>>::empty());
    }
    memory.release(g.bytes);
    let mut h = match HybridBuild::start(params, build_is_left, sort_run_bytes, memory, storage) {
        Ok(h) => h,
        Err(e) => {
            return Err(e);
        },
    };
    let mut rows = g.rows;
    while rows.len() > 0
        invariant
            s0 == *old(storage),
            m0 == old(memory)@,
            none == Set::<u64>::empty(),
            given == g.rows@,
            all == rows_of(given),
            all_len(all, params.build_len(build_is_left)),
            rows@.len() <= given.len(),
            rows@ == given.skip(given.len() - rows@.len()),
            h.inv(params, storage),
            h.build_is_left == build_is_left,
            h.build_rows@ == all.take(given.len() - rows@.len()),
            storage.inv(),
            memory@.inv(),
            memory@.used + g.bytes == m0.used + h.reserved(),
            untouched(&s0, storage, none),
            s0.size() == storage.size(),
            grew_by(
                &s0,
                storage,
                ((given.len() - rows@.len()) * MAX_BATCH_PAGES) as nat,
                (given.len() - rows@.len()) as nat,
            ),
            forall|f: u64| #[trigger] h.writers.files().contains(f) ==> !s0.has_file(f),
        decreases rows@.len(),
    {
        let ghost i = given.len() - rows@.len();
        let ghost before = *storage;
        let ghost mine = h.writers.files();
        if let Some(next) = rows.pop_front() {
            assert(next == given[i]);
            assert(all[i] == next@);
            assert(all.push(row@)[i] == next@);
            match h.add_row(next, params, memory, storage) {
                Ok(_) => {},
                Err(e) => {
                    proof {
                        untouched_twice(&s0, &before, storage, none, mine);
                        lemma_no_room_left(e, all.push(row@), i, &s0, &before);
                    }
                    return Err(e);
                },
            }
            proof {
                assert(before.size() == storage.size()) by {
                    reveal(unharmed);
                }
                untouched_twice(&s0, &before, storage, none, mine);
                lemma_still_fresh(&s0, &before, mine, h.writers.files());
                assert(all.take(i + 1) =~= all.take(i).push(all[i]));
                assert(rows@ =~= given.skip(i + 1));
            }
        }
    }
    let ghost before = *storage;
    let ghost mine = h.writers.files();
    proof {
        assert(all.take(all.len() as int) =~= all);
        assert(all.push(row@)[last] == row@);
    }
    match h.add_row(row, params, memory, storage) {
        Ok(_) => {
            proof {
                untouched_twice(&s0, &before, storage, none, mine);
                lemma_still_fresh(&s0, &before, mine, h.writers.files());
            }
            Ok(h)
        },
        Err(e) => {
            proof {
                untouched_twice(&s0, &before, storage, none, mine);
                lemma_no_room_left(e, all.push(row@), last, &s0, &before);
            }
            Err(e)
        },
    }
}

impl HashFamily {
    /// Takes a build row while the build side is gathered, or that there is no more.
    fn feed_gather(
        &mut self,
        g: Gathered,
        row: Option<Row>,
        full: bool,
        params: &JoinParams,
        sort_run_bytes: usize,
        memory: &mut QueryMemoryManager,
        storage: &mut TempStorageManager,
    ) -> (r: Result<(), DbError>)
        requires
            (HashFamily { state: FamilyState::Gather(g), ..*old(self) }).inv(
                full,
                params,
                old(storage),
            ),
            old(memory)@.inv(),
            g.bytes <= old(memory)@.used,
            row matches Some(x) ==> x@.len() == params.build_len(old(self).build_is_left),
        ensures
            final(storage).inv(),
            final(memory)@.inv(),
            untouched(old(storage), final(storage), Set::empty()),
            final(self).build_is_left == old(self).build_is_left,
            final(self).faithful == old(self).faithful,
            final(self).emitted == old(self).emitted,
            final(self).probe_rows == old(self).probe_rows,
            r is Ok ==> {
                &&& final(self).inv(full, params, final(storage))
                &&& !final(self).ended()
                &&& final(self).build_rows@ == match row {
                    Some(x) => old(self).build_rows@.push(x@),
                    None => old(self).build_rows@,
                }
                &&& final(memory)@.used + g.bytes == old(memory)@.used + final(self).reserved()
                &&& if row is Some {
                    final(self).overflows() || final(self).wants() == Some(
                        Side::of(old(self).build_is_left),
                    )
                } else {
                    final(self).wants() == Some(Side::of(!old(self).build_is_left))
                }
                &&& forall|f: u64| #[trigger]
                    final(self).files().contains(f) ==> !old(storage).has_file(f)
            },
            r is Ok && row is None ==> final(self).stages() < 6,
            r matches Err(e) ==> row is Some && (cannot_store_all(
                e,
                old(self).build_rows@.push(row->0@),
                final(storage),
            ) && no_room_for_all(
                e,
                old(self).build_rows@.push(row->0@),
                old(storage),
            ) || filters_short(
                e,
                MemoryAccount { used: (old(memory)@.used - g.bytes) as nat, ..old(memory)@ },
            )),
    {
        let ghost s0 = *storage;
        proof {
            untouched_same(&s0, storage, Set::empty());
        }
        let bl = self.build_is_left;
        match row {
            None => {
                let h = match InMemoryHash::new(
                    g.rows,
                    g.bytes,
                    &g.candidate,
                    bl,
                    params,
                    memory,
                ) {
                    Ok(h) => h,
                    Err(e) => {
                        return Err(e);
                    },
                };
                proof {
                    let none = Multiset::<Seq<Value>>::empty();
                    assert(none.add(none) =~= none);
                    assert(self.whole(full, params@) == none);
                }
                self.state = FamilyState::InMemory(h);
                Ok(())
            },
            Some(row) => {
                let keys = params.keys_of(bl);
                let ghost at = params.build_at(bl);
                let ghost x = row@;
                let budget: usize = choose_in_memory_build_budget_bytes(
                    sort_run_bytes,
                    storage.block_size(),
                );
                let row_bytes: usize = estimate_hash_build_row_bytes(&row, keys);
                let fits = match g.bytes.checked_add(row_bytes) {
                    Some(sum) => sum <= budget,
                    None => false,
                };
                if fits && memory.available_bytes() >= row_bytes {
                    let mut g = g;
                    let ghost before = g;
                    g.candidate.observe_row(&row, keys);
                    match memory.try_reserve(row_bytes) {
                        Ok(_) => {},
                        Err(e) => {
                            return Err(e);
                        },
                    }
                    g.bytes = g.bytes + row_bytes;
                    g.rows.push_back(row);
                    proof {
                        self.build_rows@ = self.build_rows@.push(x);
                        assert(rows_of(g.rows@) =~= rows_of(before.rows@).push(x));
                        assert forall|i: int| 0 <= i < g.rows@.len() implies g.candidate.covers(
                            pick((#[trigger] g.rows@[i])@, at),
                        ) by {
                            if i < before.rows@.len() {
                                assert(before.candidate.covers(pick(before.rows@[i]@, at)));
                            }
                        }
                    }
                    self.state = FamilyState::Gather(g);
                    Ok(())
                } else if !storage.anon_region_known() {
                    proof {
                        self.build_rows@ = self.build_rows@.push(x);
                    }
                    self.state = FamilyState::Overflow(g, row);
                    Ok(())
                } else {
                    let h = match overflow(g, row, bl, params, sort_run_bytes, memory, storage) {
                        Ok(h) => h,
                        Err(e) => {
                            return Err(e);
                        },
                    };
                    proof {
                        self.build_rows@ = self.build_rows@.push(x);
                    }
                    self.state = FamilyState::Build(h);
                    Ok(())
                }
            },
        }
    }

    /// Takes a build row while the build side is partitioned, or that there is no more.
    fn feed_build(
        &mut self,
        h: HybridBuild,
        row: Option<Row>,
        full: bool,
        params: &JoinParams,
        memory: &mut QueryMemoryManager,
        storage: &mut TempStorageManager,
    ) -> (r: Result<(), DbError>)
        requires
            (HashFamily { state: FamilyState::Build(h), ..*old(self) }).inv(
                full,
                params,
                old(storage),
            ),
            old(memory)@.inv(),
            row matches Some(x) ==> x@.len() == params.build_len(old(self).build_is_left),
        ensures
            final(storage).inv(),
            final(memory)@.inv(),
            untouched(old(storage), final(storage), h.writers.files()),
            final(self).build_is_left == old(self).build_is_left,
            final(self).faithful == old(self).faithful,
            final(self).emitted == old(self).emitted,
            final(self).probe_rows == old(self).probe_rows,
            r is Ok ==> {
                &&& final(self).inv(full, params, final(storage))
                &&& !final(self).ended()
                &&& final(self).build_rows@ == match row {
                    Some(x) => old(self).build_rows@.push(x@),
                    None => old(self).build_rows@,
                }
                &&& final(memory)@.used + h.reserved() == old(memory)@.used + final(
                    self).reserved()
                &&& final(self).wants() == match row {
                    Some(_) => Some(Side::of(old(self).build_is_left)),
                    None => None,
                }
                &&& forall|f: u64| #[trigger]
                    final(self).files().contains(f) ==> h.writers.files().contains(f) || !old(
                        storage,
                    ).has_file(f)
            },
            r is Ok && row is None ==> final(self).stages() < 4,
            r matches Err(e) ==> match row {
                Some(x) => cannot_store(e, x@, final(storage)) && cannot_store(
                    e,
                    x@,
                    old(storage),
                ),
                None => out_of_room(e, final(storage)) && out_of_pages(
                    e,
                    old(storage),
                    FINISH_PAGES as nat + MAX_BATCH_PAGES as nat,
                ),
            },
    {
        match row {
            Some(row) => {
                let ghost x = row@;
                let mut h = h;
                match h.add_row(row, params, memory, storage) {
                    Ok(_) => {},
                    Err(e) => {
                        return Err(e);
                    },
                }
                proof {
                    self.build_rows@ = self.build_rows@.push(x);
                }
                self.state = FamilyState::Build(h);
                Ok(())
            },
            None => {
                match HybridProbe::finish_build(h, params, memory, storage, Ghost(full)) {
                    Ok(p) => {
                        proof {
                            assert(self.probe_rows@ =~= Seq::<Seq<Value>>::empty());
                        }
                        self.state = FamilyState::Scan(p);
                        Ok(())
                    },
                    Err(e) => {
                        proof {
                            reveal(unharmed);
                            lemma_out_of_pages(e, old(storage), storage, FINISH_PAGES as nat);
                        }
                        Err(e)
                    },
                }
            },
        }
    }

    /// Takes a probe row for the table in memory, or that there is no more.
    fn feed_memory(
        &mut self,
        m: InMemoryHash,
        row: Option<Row>,
        full: bool,
        params: &JoinParams,
        memory: &mut QueryMemoryManager,
        Ghost(storage): Ghost<TempStorageManager>,
    ) -> (r: Result<(), DbError>)
        requires
            (HashFamily { state: FamilyState::InMemory(m), ..*old(self) }).inv(
                full,
                params,
                &storage,
            ),
            old(self).state is Done,
            !m.busy(),
            old(memory)@.inv(),
            m.reserved() <= old(memory)@.used,
            row matches Some(x) ==> x@.len() == params.build_len(!old(self).build_is_left),
        ensures
            final(memory)@.inv(),
            final(self).build_is_left == old(self).build_is_left,
            final(self).faithful == old(self).faithful,
            final(self).emitted == old(self).emitted,
            final(self).build_rows == old(self).build_rows,
            final(self).files() == Set::<u64>::empty(),
            r is Ok ==> {
                &&& final(self).inv(full, params, &storage)
                &&& final(self).ended() == (row is None)
                &&& final(self).probe_rows@ == match row {
                    Some(x) => old(self).probe_rows@.push(x@),
                    None => old(self).probe_rows@,
                }
                &&& final(memory)@.used + m.reserved() == old(memory)@.used + final(
                    self).reserved()
            },
            r is Ok && row is None ==> final(self).stages() < 2,
            r matches Err(e) ==> row is Some && e is IncomparableValues && !decided_sides(
                params@,
                old(self).build_is_left,
                old(self).build_rows@,
                old(self).probe_rows@.push(row->0@),
            ),
    {
        let ghost on = params@;
        let ghost bl = self.build_is_left;
        let ghost none = Multiset::<Seq<Value>>::empty();
        proof {
            assert(m.rest(on) == none);
            assert(self.emitted@.add(none) =~= self.emitted@);
        }
        match row {
            Some(row) => {
                let ghost x = row@;
                let mut m = m;
                let ghost more = self.probe_rows@.push(x);
                match m.probe(full, row, params) {
                    Ok(_) => {},
                    Err(e) => {
                        proof {
                            assert(more[more.len() - 1] == x);
                            lemma_all_in_self(self.build_rows@);
                            lemma_row_undecided(
                                on,
                                bl,
                                self.build_rows@,
                                x,
                                self.build_rows@,
                                more,
                            );
                        }
                        return Err(e);
                    },
                }
                proof {
                    assert(more[more.len() - 1] == x);
                    lemma_total_push(full, on, bl, self.build_rows@, self.probe_rows@, x);
                    self.probe_rows@ = self.probe_rows@.push(x);
                }
                self.state = FamilyState::InMemory(m);
                Ok(())
            },
            None => {
                m.release(memory);
                Ok(())
            },
        }
    }

    /// Takes a probe row for the partitions, or that there is no more.
    fn feed_probe(
        &mut self,
        p: HybridProbe,
        row: Option<Row>,
        full: bool,
        params: &JoinParams,
        memory: &mut QueryMemoryManager,
        storage: &mut TempStorageManager,
    ) -> (r: Result<(), DbError>)
        requires
            (HashFamily { state: FamilyState::Probe(p), ..*old(self) }).inv(
                full,
                params,
                old(storage),
            ),
            old(memory)@.inv(),
            p.reserved() <= old(memory)@.used,
            row matches Some(x) ==> x@.len() == params.build_len(!old(self).build_is_left),
        ensures
            final(storage).inv(),
            final(memory)@.inv(),
            untouched(old(storage), final(storage), p.files()),
            final(self).build_is_left == old(self).build_is_left,
            final(self).faithful == old(self).faithful,
            final(self).emitted == old(self).emitted,
            final(self).build_rows == old(self).build_rows,
            r is Ok ==> {
                &&& final(self).inv(full, params, final(storage))
                &&& !final(self).ended()
                &&& final(self).probe_rows@ == match row {
                    Some(x) => old(self).probe_rows@.push(x@),
                    None => old(self).probe_rows@,
                }
                &&& final(memory)@.used + p.reserved() == old(memory)@.used + final(
                    self).reserved()
                &&& forall|f: u64| #[trigger]
                    final(self).files().contains(f) ==> p.files().contains(f) || !old(
                        storage,
                    ).has_file(f)
            },
            r is Ok && row is None ==> final(self).stages() < 2,
            r matches Err(e) ==> match row {
                Some(x) => cannot_store(e, x@, final(storage)) && cannot_store(
                    e,
                    x@,
                    old(storage),
                ),
                None => out_of_room(e, final(storage)) && out_of_pages(
                    e,
                    old(storage),
                    FINISH_PAGES as nat + MAX_BATCH_PAGES as nat,
                ),
            },
    {
        let ghost on = params@;
        let ghost bl = self.build_is_left;
        let ghost none = Multiset::<Seq<Value>>::empty();
        match row {
            Some(row) => {
                let ghost x = row@;
                let mut p = p;
                match p.add_row(row, params, storage, Ghost(full)) {
                    Ok(_) => {},
                    Err(e) => {
                        return Err(e);
                    },
                }
                proof {
                    self.probe_rows@ = self.probe_rows@.push(x);
                }
                self.state = FamilyState::Probe(p);
                Ok(())
            },
            None => {
                let ghost mine = p.files();
                let (resident, pairs) = match p.finish(params, memory, storage, Ghost(full)) {
                    Ok(v) => v,
                    Err(e) => {
                        proof {
                            reveal(unharmed);
                            lemma_out_of_pages(e, old(storage), storage, FINISH_PAGES as nat);
                        }
                        return Err(e);
                    },
                };
                let queue = to_queue(pairs);
                let h = HybridJoin {
                    build_is_left: self.build_is_left,
                    resident,
                    pairs: queue,
                    active: None,
                };
                proof {
                    let a = resident_value(resident, full, on, bl, storage);
                    let b = pairs_total(full, on, bl, storage, queue@);
                    assert(none.add(none.add(a).add(b)) =~= a.add(b));
                    assert(h.files().subset_of(mine));
                    assert(h.ok(params, storage));
                }
                self.state = FamilyState::Probing(h);
                Ok(())
            },
        }
    }
}

/// The pairs as a queue.
fn to_queue(pairs: Vec<FilePair>) -> (r: VecDeque<FilePair>)
    ensures
        r@ == pairs@,
{
    let mut queue: VecDeque<FilePair> = VecDeque::new();
    let mut i: usize = 0;
    while i < pairs.len()
        invariant
            i <= pairs@.len(),
            queue@ == pairs@.take(i as int),
        decreases pairs@.len() - i,
    {
        queue.push_back(pairs[i]);
        i += 1;
        assert(pairs@.take(i as int) =~= pairs@.take(i - 1).push(pairs@[i - 1]));
    }
    assert(pairs@.take(pairs@.len() as int) =~= pairs@);
    queue
}

impl HashFamily {
    /// Takes the next row of the side that is asked for, or that it has no more.
    pub fn feed(
        &mut self,
        side: Side,
        row: Option<Row>,
        full: bool,
        params: &JoinParams,
        sort_run_bytes: usize,
        memory: &mut QueryMemoryManager,
        storage: &mut TempStorageManager,
    ) -> (r: Result<(), DbError>)
        requires
            old(self).inv(full, params, old(storage)),
            old(self).wants() == Some(side),
            old(memory)@.inv(),
            old(self).reserved() <= old(memory)@.used,
            row matches Some(x) ==> x@.len() == params.build_len(side is Left),
        ensures
            final(storage).inv(),
            final(memory)@.inv(),
            untouched(old(storage), final(storage), old(self).files()),
            final(self).builds_left() == old(self).builds_left(),
            final(self).faithful() == old(self).faithful(),
            final(self).emitted() == old(self).emitted(),
            r is Ok ==> {
                &&& final(self).inv(full, params, final(storage))
                &&& final(self).build_rows() == match row {
                    Some(x) if side == Side::of(old(self).builds_left()) => old(
                        self,
                    ).build_rows().push(x@),
                    _ => old(self).build_rows(),
                }
                &&& final(self).probe_rows() == match row {
                    Some(x) if side != Side::of(old(self).builds_left()) => old(
                        self,
                    ).probe_rows().push(x@),
                    _ => old(self).probe_rows(),
                }
                &&& final(self).ended() ==> row is None && side != Side::of(old(self).builds_left())
                &&& final(memory)@.used + old(self).reserved() == old(memory)@.used + final(
                    self).reserved()
                &&& forall|f: u64| #[trigger]
                    final(self).files().contains(f) ==> old(self).files().contains(f) || !old(
                        storage,
                    ).has_file(f)
            },
            r is Ok && row is None ==> nearer(final(self).left_to_do(), old(self).left_to_do()),
            r matches Err(e) ==> {
                let build = match row {
                    Some(x) if side == Side::of(old(self).builds_left()) => old(
                        self,
                    ).build_rows().push(x@),
                    _ => old(self).build_rows(),
                };
                let probe = match row {
                    Some(x) if side != Side::of(old(self).builds_left()) => old(
                        self,
                    ).probe_rows().push(x@),
                    _ => old(self).probe_rows(),
                };
                ||| !old(self).has_table() && (cannot_store_all(e, build, final(storage))
                    || cannot_store_all(e, probe, final(storage))) && match row {
                    Some(x) => if old(self).gathers() {
                        no_room_for_all(e, build, old(storage))
                    } else {
                        cannot_store(e, x@, old(storage))
                    },
                    None => out_of_pages(
                        e,
                        old(storage),
                        FINISH_PAGES as nat + MAX_BATCH_PAGES as nat,
                    ),
                }
                ||| old(self).has_table() && e is IncomparableValues && !decided_sides(
                    params@,
                    old(self).builds_left(),
                    build,
                    probe,
                )
                ||| old(self).gathers() && filters_short(
                    e,
                    MemoryAccount {
                        used: (old(memory)@.used - old(self).reserved()) as nat,
                        ..old(memory)@
                    },
                )
            },
    {
        let ghost s0 = *storage;
        let ghost me = *self;
        proof {
            untouched_same(&s0, storage, me.files());
        }
        let mut state = FamilyState::Done;
        core::mem::swap(&mut self.state, &mut state);
        let r = match state {
            FamilyState::Gather(g) => self.feed_gather(
                g,
                row,
                full,
                params,
                sort_run_bytes,
                memory,
                storage,
            ),
            FamilyState::Build(h) => self.feed_build(h, row, full, params, memory, storage),
            FamilyState::InMemory(m) => self.feed_memory(
                m,
                row,
                full,
                params,
                memory,
                Ghost(*storage),
            ),
            FamilyState::Probe(p) => self.feed_probe(p, row, full, params, memory, storage),
            _ => Ok(()),
        };
        proof {
            if r is Ok && row is None {
                self.stage_nearer(&me);
            }
            if row is Some {
                let x = row->0@;
                let build = me.build_rows@.push(x);
                let probe = me.probe_rows@.push(x);
                assert(build[build.len() - 1] == x);
                assert(probe[probe.len() - 1] == x);
            }
        }
        r
    }

    /// Gives out what the table in memory found.
    fn step_memory(
        &mut self,
        m: InMemoryHash,
        full: bool,
        params: &JoinParams,
        Ghost(storage): Ghost<TempStorageManager>,
    ) -> (r: Result<JoinStep, DbError>)
        requires
            (HashFamily { state: FamilyState::InMemory(m), ..*old(self) }).inv(
                full,
                params,
                &storage,
            ),
            old(self).state is Done,
        ensures
            final(self).build_is_left == old(self).build_is_left,
            final(self).faithful == old(self).faithful,
            final(self).build_rows == old(self).build_rows,
            final(self).probe_rows == old(self).probe_rows,
            final(self).files() == Set::<u64>::empty(),
            r is Ok ==> final(self).inv(full, params, &storage) && !final(self).ended() && final(
                self).reserved() == m.reserved(),
            final(self).emitted@ == match r {
                Ok(JoinStep::Row(row)) => old(self).emitted@.insert(row@),
                _ => old(self).emitted@,
            },
            r is Ok ==> final(self).state is InMemory,
            match r {
                Ok(JoinStep::Pull(_)) => final(self).state == FamilyState::InMemory(m),
                Ok(_) => final(self).state->InMemory_0.left_to_do() < m.left_to_do(),
                Err(_) => true,
            },
            match r {
                Ok(JoinStep::Row(_)) => m.busy(),
                Ok(JoinStep::Again) => m.busy(),
                Ok(JoinStep::Pull(side)) => !m.busy() && final(self).wants() == Some(side) && side
                    == Side::of(!old(self).build_is_left),
                Ok(_) => false,
                Err(e) => m.busy() && undecided(params@, e, old(self).sides().0, old(self).sides().1),
            },
    {
        let ghost on = params@;
        let ghost none = Multiset::<Seq<Value>>::empty();
        let mut m = m;
        let ghost before = m;
        if m.pending.is_none() && m.kept.is_none() {
            let probes_left = !self.build_is_left;
            self.state = FamilyState::InMemory(m);
            return Ok(JoinStep::Pull(side_of(probes_left)));
        }
        match m.emit(params) {
            Ok(Some(row)) => {
                proof {
                    self.emitted@ = self.emitted@.insert(row@);
                    assert(self.emitted@.add(m.rest(on)) =~= old(self).emitted@.add(
                        before.rest(on),
                    ));
                }
                self.state = FamilyState::InMemory(m);
                Ok(JoinStep::Row(row))
            },
            Ok(None) => {
                proof {
                    assert(m.rest(on) == none);
                }
                self.state = FamilyState::InMemory(m);
                Ok(JoinStep::Again)
            },
            Err(e) => {
                proof {
                    lemma_all_in_self(self.build_rows@);
                    lemma_row_undecided(
                        on,
                        self.build_is_left,
                        self.build_rows@,
                        before.pending->0.probe_row@,
                        self.build_rows@,
                        self.probe_rows@,
                    );
                }
                Err(e)
            },
        }
    }

    /// Joins some of the partitions.
    fn step_probing(
        &mut self,
        h: HybridJoin,
        full: bool,
        params: &JoinParams,
        sort_run_bytes: usize,
        memory: &mut QueryMemoryManager,
        storage: &mut TempStorageManager,
    ) -> (r: Result<JoinStep, DbError>)
        requires
            (HashFamily { state: FamilyState::Probing(h), ..*old(self) }).inv(
                full,
                params,
                old(storage),
            ),
            old(self).state is Done,
            old(memory)@.inv(),
            h.reserved() <= old(memory)@.used,
        ensures
            final(storage).inv(),
            final(memory)@.inv(),
            untouched(old(storage), final(storage), h.files()),
            final(self).build_is_left == old(self).build_is_left,
            final(self).faithful == old(self).faithful,
            final(self).build_rows == old(self).build_rows,
            final(self).probe_rows == old(self).probe_rows,
            r is Ok ==> {
                &&& final(self).inv(full, params, final(storage))
                &&& final(memory)@.used + h.reserved() == old(memory)@.used + final(
                    self).reserved()
                &&& final(self).files().subset_of(h.files())
            },
            final(self).emitted@ == match r {
                Ok(JoinStep::Row(row)) => old(self).emitted@.insert(row@),
                _ => old(self).emitted@,
            },
            match r {
                Ok(JoinStep::Done) => final(self).state is Done,
                Ok(JoinStep::Need(_)) => final(self).state is Probing && not_farther(
                    final(self).state->Probing_0.left_to_do(),
                    h.left_to_do(),
                ),
                Ok(_) => final(self).state is Probing && nearer(
                    final(self).state->Probing_0.left_to_do(),
                    h.left_to_do(),
                ),
                Err(_) => true,
            },
            match r {
                Ok(JoinStep::Row(_)) => !final(self).ended(),
                Ok(JoinStep::Again) => !final(self).ended(),
                Ok(JoinStep::Need(ranges)) => final(self).waiting() && (forall|data: Seq<u8>|
                    is_content(
                        final(storage).disk(),
                        blocks_of(ranges@),
                        data,
                        final(storage).size() as int,
                    ) ==> #[trigger] final(self).expects(data)),
                Ok(JoinStep::Done) => final(self).ended(),
                Ok(_) => false,
                Err(e) => old(self).faithful@ ==> parts_fail(
                    params@,
                    e,
                    old(self).sides().0,
                    old(self).sides().1,
                    old(memory)@,
                    old(storage),
                ),
            },
            same_room(old(storage), final(storage)),
    {
        let ghost on = params@;
        let ghost s0 = *storage;
        let ghost none = Multiset::<Seq<Value>>::empty();
        let ghost rest = h.rest(full, on, &s0);
        match h.step(full, params, sort_run_bytes, memory, storage) {
            Ok(HybridNext::Need(next, ranges)) => {
                self.state = FamilyState::Probing(next);
                Ok(JoinStep::Need(ranges))
            },
            Ok(HybridNext::Again(next)) => {
                self.state = FamilyState::Probing(next);
                Ok(JoinStep::Again)
            },
            Ok(HybridNext::Row(next, row)) => {
                proof {
                    self.emitted@ = self.emitted@.insert(row@);
                    let after = next.rest(full, on, storage);
                    assert(old(self).emitted@.insert(row@).add(after) =~= old(self).emitted@.add(
                        after.insert(row@),
                    ));
                }
                self.state = FamilyState::Probing(next);
                Ok(JoinStep::Row(row))
            },
            Ok(HybridNext::Exhausted) => {
                proof {
                    assert(self.emitted@.add(none) =~= self.emitted@);
                }
                Ok(JoinStep::Done)
            },
            Err(e) => Err(e),
        }
    }

    /// Does the next piece of work.
    #[verifier::rlimit(60)]
    #[verifier::spinoff_prover]
    pub fn step(
        &mut self,
        full: bool,
        params: &JoinParams,
        sort_run_bytes: usize,
        memory: &mut QueryMemoryManager,
        storage: &mut TempStorageManager,
    ) -> (r: Result<JoinStep, DbError>)
        requires
            old(self).inv(full, params, old(storage)),
            old(memory)@.inv(),
            old(self).reserved() <= old(memory)@.used,
        ensures
            final(storage).inv(),
            final(memory)@.inv(),
            untouched(old(storage), final(storage), old(self).files()),
            final(self).builds_left() == old(self).builds_left(),
            final(self).faithful() == old(self).faithful(),
            final(self).build_rows() == old(self).build_rows(),
            final(self).probe_rows() == old(self).probe_rows(),
            r is Ok ==> {
                &&& final(self).inv(full, params, final(storage))
                &&& final(memory)@.used + old(self).reserved() == old(memory)@.used + final(
                    self).reserved()
                &&& forall|f: u64| #[trigger]
                    final(self).files().contains(f) ==> old(self).files().contains(f) || !old(
                        storage,
                    ).has_file(f)
            },
            final(self).emitted() == match r {
                Ok(JoinStep::Row(row)) => old(self).emitted().insert(row@),
                _ => old(self).emitted(),
            },
            match r {
                Ok(JoinStep::Pull(side)) => final(self).wants() == Some(side),
                Ok(JoinStep::Row(_)) => !final(self).ended(),
                Ok(JoinStep::Again) => !final(self).ended(),
                Ok(JoinStep::Need(ranges)) => final(self).waiting() && (forall|data: Seq<u8>|
                    is_content(
                        final(storage).disk(),
                        blocks_of(ranges@),
                        data,
                        final(storage).size() as int,
                    ) ==> #[trigger] final(self).expects(data)),
                Ok(JoinStep::Done) => final(self).ended(),
                Ok(JoinStep::NeedAnonStart) => old(self).overflows() && final(
                    self).overflows() && !final(self).ended() && final(storage).frontier() is None,
                Err(e) => old(self).faithful() ==> {
                    ||| undecided(params@, e, old(self).sides().0, old(self).sides().1)
                    ||| old(self).stores() && parts_fail(
                        params@,
                        e,
                        old(self).sides().0,
                        old(self).sides().1,
                        old(memory)@,
                        old(storage),
                    )
                    ||| old(self).overflows() && (cannot_store_all(
                        e,
                        old(self).build_rows(),
                        final(storage),
                    ) && no_room_for_all(
                        e,
                        old(self).build_rows(),
                        old(storage),
                    ) || filters_short(
                        e,
                        MemoryAccount {
                            used: (old(memory)@.used - old(self).reserved()) as nat,
                            ..old(memory)@
                        },
                    ))
                },
            },
            step_nearer(r, final(self).left_to_do(), old(self).left_to_do()),
            !old(self).overflows() ==> same_room(old(storage), final(storage)),
            old(self).ended() ==> r matches Ok(JoinStep::Done),
            old(self).wants() matches Some(side) ==> r matches Ok(JoinStep::Pull(s)) && s == side,
    {
        let ghost s0 = *storage;
        let ghost me = *self;
        proof {
            untouched_same(&s0, storage, me.files());
        }
        let bl = self.build_is_left;
        let mut state = FamilyState::Done;
        core::mem::swap(&mut self.state, &mut state);
        match state {
            FamilyState::Gather(g) => {
                self.state = FamilyState::Gather(g);
                proof {
                    self.stage_not_farther(&me);
                }
                Ok(JoinStep::Pull(side_of(bl)))
            },
            FamilyState::Overflow(g, row) => {
                if !storage.anon_region_known() {
                    self.state = FamilyState::Overflow(g, row);
                    proof {
                        self.stage_not_farther(&me);
                    }
                    return Ok(JoinStep::NeedAnonStart);
                }
                match overflow(g, row, bl, params, sort_run_bytes, memory, storage) {
                    Ok(h) => {
                        self.state = FamilyState::Build(h);
                        proof {
                            self.stage_nearer(&me);
                        }
                        Ok(JoinStep::Again)
                    },
                    Err(e) => Err(e),
                }
            },
            FamilyState::Build(h) => {
                self.state = FamilyState::Build(h);
                proof {
                    self.stage_not_farther(&me);
                }
                Ok(JoinStep::Pull(side_of(bl)))
            },
            FamilyState::Probe(p) => {
                self.state = FamilyState::Probe(p);
                proof {
                    self.stage_not_farther(&me);
                }
                Ok(JoinStep::Pull(side_of(!bl)))
            },
            FamilyState::InMemory(m) => {
                let r = self.step_memory(m, full, params, Ghost(*storage));
                proof {
                    if r matches Ok(JoinStep::Pull(_)) {
                        self.stage_not_farther(&me);
                    } else if r is Ok {
                        nearer_at(self.in_stage(), me.in_stage(), 0);
                        self.stage_nearer(&me);
                    }
                }
                r
            },
            FamilyState::Scan(p) => {
                let mut p = p;
                let ghost p0 = p;
                let ghost more = seq![0nat, 0nat];
                match p.scan_step(params, sort_run_bytes, storage, Ghost(full)) {
                    Ok(ScanNext::Need(ranges)) => {
                        self.state = FamilyState::Scan(p);
                        proof {
                            if p.left_to_do() != p0.left_to_do() {
                                nearer_front(p.left_to_do(), p0.left_to_do(), more, more);
                            }
                            self.stage_not_farther(&me);
                        }
                        Ok(JoinStep::Need(ranges))
                    },
                    Ok(ScanNext::Again) => {
                        self.state = FamilyState::Scan(p);
                        proof {
                            nearer_front(p.left_to_do(), p0.left_to_do(), more, more);
                            self.stage_nearer(&me);
                        }
                        Ok(JoinStep::Again)
                    },
                    Ok(ScanNext::Ready) => {
                        self.state = FamilyState::Probe(p);
                        proof {
                            self.stage_nearer(&me);
                        }
                        Ok(JoinStep::Again)
                    },
                    Err(e) => Err(e),
                }
            },
            FamilyState::Probing(h) => {
                let r = self.step_probing(h, full, params, sort_run_bytes, memory, storage);
                proof {
                    if r matches Ok(JoinStep::Need(_)) {
                        self.stage_not_farther(&me);
                    } else if r is Ok {
                        self.stage_nearer(&me);
                    }
                }
                r
            },
            FamilyState::Done => Ok(JoinStep::Done),
        }
    }

    /// Takes the contents of the blocks that were asked for.
    pub fn supply(
        &mut self,
        data: Vec<u8>,
        Ghost(full): Ghost<bool>,
        Ghost(params): Ghost<JoinParams>,
        Ghost(storage): Ghost<TempStorageManager>,
    ) -> (r: Result<(), DbError>)
        requires
            old(self).inv(full, &params, &storage),
            old(self).waiting(),
        ensures
            r is Ok ==> final(self).inv(full, &params, &storage),
            r is Ok ==> !final(self).ended(),
            r is Ok ==> final(self).reserved() == old(self).reserved(),
            r is Ok ==> final(self).files() == old(self).files(),
            final(self).builds_left() == old(self).builds_left(),
            final(self).build_rows() == old(self).build_rows(),
            final(self).probe_rows() == old(self).probe_rows(),
            final(self).emitted() == old(self).emitted(),
            final(self).faithful() == (old(self).faithful() && old(self).expects(data@)),
            old(self).expects(data@) ==> r is Ok,
            r is Ok ==> nearer(final(self).left_to_do(), old(self).left_to_do()),
    {
        let ghost me = *self;
        let ghost good_data = self.expects(data@);
        proof {
            self.faithful@ = self.faithful@ && good_data;
        }
        let mut state = FamilyState::Done;
        core::mem::swap(&mut self.state, &mut state);
        match state {
            FamilyState::Scan(p) => {
                let mut p = p;
                let ghost before = p;
                match p.supply(data, Ghost(params), Ghost(storage)) {
                    Ok(_) => {
                        proof {
                            if self.faithful@ {
                                assert(before.good(full, &params, &storage));
                            }
                        }
                        self.state = FamilyState::Scan(p);
                        proof {
                            let more = seq![0nat, 0nat];
                            nearer_front(p.left_to_do(), before.left_to_do(), more, more);
                            self.stage_nearer(&me);
                        }
                        Ok(())
                    },
                    Err(e) => Err(e),
                }
            },
            FamilyState::Probing(h) => {
                let mut h = h;
                let ghost before = h;
                match h.supply(data, Ghost(params), Ghost(storage)) {
                    Ok(_) => {
                        proof {
                            if self.faithful@ {
                                assert(h.rest(full, params@, &storage) == before.rest(
                                    full,
                                    params@,
                                    &storage,
                                ));
                            }
                        }
                        self.state = FamilyState::Probing(h);
                        proof {
                            self.stage_nearer(&me);
                        }
                        Ok(())
                    },
                    Err(e) => Err(e),
                }
            },
            _ => Ok(()),
        }
    }
}

/// The left side or the right one.
pub fn side_of(is_left: bool) -> (r: Side)
    ensures
        r == Side::of(is_left),
{
    if is_left {
        Side::Left
    } else {
        Side::Right
    }
}

} // verus!

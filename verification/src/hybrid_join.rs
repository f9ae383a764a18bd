//! Joining the partitions of a hybrid hash join: the resident one first, then the others.

use std::collections::VecDeque;
use vstd::multiset::Multiset;
use vstd::prelude::*;
use crate::adaptive_spec::lemma_total_is_join;
use crate::error::DbError;
use crate::hybrid_parts::{ResidentPhase, resident_files, resident_value, resident_within};
use crate::join_spec::JoinOn;
use crate::join_table::{JoinParams, JoinTable};
use crate::memory::QueryMemoryManager;
use crate::pairs::{FilePair, lemma_pairs_kept, lemma_pairs_pop, lemma_pairs_present, lemma_within_kept, lemma_within_pop, pair_files, pairs_ok, pairs_within, two_files};
use crate::part_files::{lemma_pairs_total_kept, pair_total, pairs_total};
use crate::part_join::{PartJoin, PartNext, parts_fail};
use crate::progress::{nearer, nearer_at, nearer_back, not_farther};
use crate::row::Row;
use crate::temp_run::{blocks_of, is_content, run_of};
use crate::temp_storage::{BlockRange, TempStorageManager, out_of_room, same_room, unharmed, untouched, untouched_more, untouched_same};
use crate::value::Value;

verus! {

/// The partitions that are still to be joined.
pub struct HybridJoin {
    pub build_is_left: bool,
    pub resident: Option<ResidentPhase>,
    pub pairs: VecDeque<FilePair>,
    pub active: Option<PartJoin>,
}

/// What a step comes to.
pub enum HybridNext {
    Need(HybridJoin, Vec<BlockRange>),
    Again(HybridJoin),
    Row(HybridJoin, Row),
    Exhausted,
}

impl HybridJoin {
    /// How much is left to do: the partitions to be taken up, and of the one that is active.
    pub open spec fn left_to_do(&self) -> Seq<nat> {
        let more = self.pairs@.len() + (if self.resident is Some {
            1nat
        } else {
            0nat
        });
        match self.active {
            Some(a) => seq![more, 1nat] + a.left_to_do(),
            None => seq![more, 0nat, 0nat, 0nat, 0nat],
        }
    }

    pub proof fn left_is_five(&self)
        ensures
            self.left_to_do().len() == 5,
    {
        if let Some(a) = self.active {
            a.left_is_three();
        }
    }

    /// Work on the active partition is work.
    proof fn active_nearer(&self, before: &HybridJoin)
        requires
            self.pairs == before.pairs,
            self.resident == before.resident,
            self.active is Some,
            before.active is Some,
            not_farther(self.active->0.left_to_do(), before.active->0.left_to_do()),
        ensures
            not_farther(self.left_to_do(), before.left_to_do()),
            nearer(self.active->0.left_to_do(), before.active->0.left_to_do()) ==> nearer(
                self.left_to_do(),
                before.left_to_do(),
            ),
    {
        let front = self.left_to_do().take(2);
        self.active->0.left_is_three();
        before.active->0.left_is_three();
        let a = self.active->0.left_to_do();
        let b = before.active->0.left_to_do();
        assert(self.left_to_do() =~= front + a);
        assert(before.left_to_do() =~= front + b);
        if a != b {
            nearer_back(front, a, b);
        }
        if nearer(a, b) {
            nearer_back(front, a, b);
        }
    }

    pub open spec fn active_files(&self) -> Set<u64> {
        match self.active {
            Some(a) => a.files(),
            None => Set::empty(),
        }
    }

    pub open spec fn files(&self) -> Set<u64> {
        self.active_files().union(resident_files(self.resident)).union(pair_files(self.pairs@))
    }

    pub open spec fn reserved(&self) -> nat {
        (match self.active {
            Some(a) => a.bytes as nat,
            None => 0,
        }) + (match self.resident {
            Some(r) => r.bytes as nat,
            None => 0,
        })
    }

    pub open spec fn waiting(&self) -> bool {
        self.active is Some && self.active->0.waiting()
    }

    pub open spec fn expects(&self, data: Seq<u8>) -> bool {
        self.active is Some && self.active->0.expects(data)
    }

    pub open spec fn ok(&self, params: &JoinParams, storage: &TempStorageManager) -> bool {
        &&& params.inv()
        &&& storage.inv()
        &&& pairs_ok(self.pairs@, storage, params.left_len as nat, params.right_len as nat)
        &&& self.resident matches Some(r) ==> r.ok(params, self.build_is_left, storage)
        &&& self.active matches Some(a) ==> a.ok(params, storage)
        &&& self.active_files().disjoint(resident_files(self.resident))
        &&& self.active_files().disjoint(pair_files(self.pairs@))
        &&& resident_files(self.resident).disjoint(pair_files(self.pairs@))
    }

    /// Whether the rows of all partitions are among those of the sides.
    pub open spec fn within(
        &self,
        storage: &TempStorageManager,
        ls: Seq<Seq<Value>>,
        rs: Seq<Seq<Value>>,
    ) -> bool {
        &&& self.active matches Some(a) ==> a.within(storage, ls, rs)
        &&& resident_within(self.resident, self.build_is_left, storage, ls, rs)
        &&& pairs_within(self.pairs@, storage, ls, rs)
    }

    pub open spec fn good(&self, params: &JoinParams) -> bool {
        self.active matches Some(a) ==> a.good(params)
    }

    pub open spec fn active_rest(
        &self,
        full: bool,
        on: JoinOn,
        storage: &TempStorageManager,
    ) -> Multiset<Seq<Value>> {
        match self.active {
            Some(a) => a.rest(full, on, storage),
            None => Multiset::empty(),
        }
    }

    /// What is still to be given out.
    pub open spec fn rest(
        &self,
        full: bool,
        on: JoinOn,
        storage: &TempStorageManager,
    ) -> Multiset<Seq<Value>> {
        self.active_rest(full, on, storage).add(
            resident_value(self.resident, full, on, self.build_is_left, storage),
        ).add(pairs_total(full, on, self.build_is_left, storage, self.pairs@))
    }

    pub proof fn ok_gives(&self, params: &JoinParams, storage: &TempStorageManager)
        requires
            self.ok(params, storage),
        ensures
            forall|f: u64| #[trigger] self.files().contains(f) ==> storage.has_file(f),
    {
        if let Some(a) = self.active {
            a.ok_gives(params, storage);
        }
        if let Some(r) = self.resident {
            r.ok_gives(params, self.build_is_left, storage);
        }
        lemma_pairs_present(
            self.pairs@,
            storage,
            params.left_len as nat,
            params.right_len as nat,
        );
    }

    pub proof fn ok_kept(
        &self,
        full: bool,
        params: &JoinParams,
        before: &TempStorageManager,
        after: &TempStorageManager,
        touched: Set<u64>,
    )
        requires
            self.ok(params, before),
            after.inv(),
            unharmed(before, after, touched),
            touched.disjoint(self.files()),
        ensures
            self.ok(params, after),
            self.rest(full, params@, after) == self.rest(full, params@, before),
            forall|ls: Seq<Seq<Value>>, rs: Seq<Seq<Value>>| #[trigger]
                self.within(before, ls, rs) ==> self.within(after, ls, rs),
    {
        assert(touched.disjoint(self.active_files()));
        assert(touched.disjoint(resident_files(self.resident)));
        assert(touched.disjoint(pair_files(self.pairs@)));
        if let Some(a) = self.active {
            a.ok_kept(full, params, before, after, touched);
        }
        if let Some(r) = self.resident {
            r.ok_kept(full, params, self.build_is_left, before, after, touched);
        }
        lemma_pairs_total_kept(
            full,
            params@,
            self.build_is_left,
            self.pairs@,
            before,
            after,
            touched,
            params.left_len as nat,
            params.right_len as nat,
        );
        lemma_pairs_kept(
            params@,
            self.pairs@,
            before,
            after,
            touched,
            params.left_len as nat,
            params.right_len as nat,
        );
        assert forall|ls: Seq<Seq<Value>>, rs: Seq<Seq<Value>>| #[trigger]
            self.within(before, ls, rs) implies self.within(after, ls, rs) by {
            lemma_within_kept(self.pairs@, before, after, ls, rs);
            if self.resident is None {
                reveal(resident_within);
            }
        }
    }

    /// Takes up the next partition.
    fn take_up(
        self,
        full: bool,
        params: &JoinParams,
        sort_run_bytes: usize,
        storage: &TempStorageManager,
    ) -> (r: Result<Option<HybridJoin>, DbError>)
        requires
            self.ok(params, storage),
            self.active is None,
        ensures
            match r {
                Ok(Some(h)) => {
                    &&& h.ok(params, storage)
                    &&& nearer(h.left_to_do(), self.left_to_do())
                    &&& h.files().subset_of(self.files())
                    &&& h.build_is_left == self.build_is_left
                    &&& h.reserved() == self.reserved()
                    &&& h.good(params)
                    &&& h.rest(full, params@, storage) == self.rest(full, params@, storage)
                },
                Ok(None) => self.resident is None && self.pairs@.len() == 0,
                Err(e) => out_of_room(e, storage),
            },
            r matches Ok(Some(h)) ==> forall|ls: Seq<Seq<Value>>, rs: Seq<Seq<Value>>| #[trigger]
                self.within(storage, ls, rs) ==> h.within(storage, ls, rs),
    {
        let ghost on = params@;
        let ghost bl = self.build_is_left;
        let ghost ll = params.left_len as nat;
        let ghost rl = params.right_len as nat;
        let ghost none = Multiset::<Seq<Value>>::empty();
        let mut pairs = self.pairs;
        match self.resident {
            Some(phase) => {
                let ghost value = phase.value(full, on, bl, storage);
                match PartJoin::new(
                    self.build_is_left,
                    phase.table,
                    phase.bytes,
                    phase.spill_file,
                    phase.probe_file,
                    params,
                    sort_run_bytes,
                    storage,
                ) {
                    Ok(a) => {
                        let h = HybridJoin {
                            build_is_left: self.build_is_left,
                            resident: None,
                            pairs,
                            active: Some(a),
                        };
                        proof {
                            assert forall|ls: Seq<Seq<Value>>, rs: Seq<Seq<Value>>| #[trigger]
                                self.within(storage, ls, rs) implies h.within(
                                storage,
                                ls,
                                rs,
                            ) by {
                                reveal(resident_within);
                                assert(a.within(storage, ls, rs));
                            }
                            a.left_is_three();
                            nearer_at(h.left_to_do(), self.left_to_do(), 0);
                            assert(a.files().subset_of(phase.files()));
                            let p = pairs_total(full, on, bl, storage, pairs@);
                            assert(value.add(none).add(p) =~= none.add(value).add(p));
                        }
                        Ok(Some(h))
                    },
                    Err(e) => Err(e),
                }
            },
            None => {
                let ghost all = pairs@;
                proof {
                    if all.len() > 0 {
                        lemma_pairs_pop(all, storage, ll, rl);
                    }
                }
                let pair = match pairs.pop_front() {
                    Some(p) => p,
                    None => {
                        return Ok(None);
                    },
                };
                proof {
                    assert(pairs@ =~= all.drop_first());
                }
                let left_pages: u64 = match storage.num_pages(pair.left) {
                    Ok(n) => n,
                    Err(e) => {
                        return Err(e);
                    },
                };
                let right_pages: u64 = match storage.num_pages(pair.right) {
                    Ok(n) => n,
                    Err(e) => {
                        return Err(e);
                    },
                };
                let build_is_left = if full {
                    left_pages <= right_pages
                } else {
                    self.build_is_left
                };
                let (build_file, probe_file) = if build_is_left {
                    (pair.left, pair.right)
                } else {
                    (pair.right, pair.left)
                };
                match PartJoin::new(
                    build_is_left,
                    JoinTable::new(),
                    0,
                    Some(build_file),
                    probe_file,
                    params,
                    sort_run_bytes,
                    storage,
                ) {
                    Ok(a) => {
                        let h = HybridJoin {
                            build_is_left: self.build_is_left,
                            resident: None,
                            pairs,
                            active: Some(a),
                        };
                        proof {
                            assert forall|ls: Seq<Seq<Value>>, rs: Seq<Seq<Value>>| #[trigger]
                                self.within(storage, ls, rs) implies h.within(
                                storage,
                                ls,
                                rs,
                            ) by {
                                reveal(resident_within);
                                lemma_within_pop(all, storage, ls, rs);
                                assert(a.within(storage, ls, rs));
                            }
                            a.left_is_three();
                            nearer_at(h.left_to_do(), self.left_to_do(), 0);
                            assert(a.files().subset_of(two_files(pair)));
                            let p = pairs_total(full, on, bl, storage, pairs@);
                            lemma_either_side(full, on, build_is_left, bl, storage, pair);
                            let v = pair_total(full, on, bl, storage, pair);
                            let run = run_of(storage, build_file.0)->0;
                            assert(Seq::<Seq<Value>>::empty() + run =~= run);
                            assert(a.rest(full, on, storage) == v);
                            assert(v.add(none).add(p) =~= none.add(none).add(v.add(p)));
                        }
                        Ok(Some(h))
                    },
                    Err(e) => Err(e),
                }
            },
        }
    }

    /// Does some of the work.
    #[verifier::rlimit(40)]
    #[verifier::spinoff_prover]
    pub fn step(
        self,
        full: bool,
        params: &JoinParams,
        sort_run_bytes: usize,
        memory: &mut QueryMemoryManager,
        storage: &mut TempStorageManager,
    ) -> (r: Result<HybridNext, DbError>)
        requires
            self.ok(params, old(storage)),
            old(memory)@.inv(),
            self.reserved() <= old(memory)@.used,
        ensures
            final(storage).inv(),
            final(memory)@.inv(),
            untouched(old(storage), final(storage), self.files()),
            same_room(old(storage), final(storage)),
            forall|ls: Seq<Seq<Value>>, rs: Seq<Seq<Value>>| #[trigger]
                self.within(old(storage), ls, rs) && self.good(params) ==> match r {
                    Ok(HybridNext::Need(h, _)) => h.within(final(storage), ls, rs),
                    Ok(HybridNext::Again(h)) => h.within(final(storage), ls, rs),
                    Ok(HybridNext::Row(h, _)) => h.within(final(storage), ls, rs),
                    Ok(HybridNext::Exhausted) => true,
                    Err(e) => parts_fail(params@, e, ls, rs, old(memory)@, final(storage)),
                },
            match r {
                Ok(HybridNext::Need(h, ranges)) => {
                    &&& not_farther(h.left_to_do(), self.left_to_do())
                    &&& h.ok(params, final(storage))
                    &&& h.files().subset_of(self.files())
                    &&& h.build_is_left == self.build_is_left
                    &&& final(memory)@.used + self.reserved() == old(memory)@.used + h.reserved()
                    &&& h.waiting()
                    &&& forall|data: Seq<u8>|
                        is_content(
                            final(storage).disk(),
                            blocks_of(ranges@),
                            data,
                            final(storage).size() as int,
                        ) ==> #[trigger] h.expects(data)
                    &&& self.good(params) ==> h.good(params) && h.rest(
                        full,
                        params@,
                        final(storage),
                    ) == self.rest(full, params@, old(storage))
                },
                Ok(HybridNext::Again(h)) => {
                    &&& nearer(h.left_to_do(), self.left_to_do())
                    &&& h.ok(params, final(storage))
                    &&& h.files().subset_of(self.files())
                    &&& h.build_is_left == self.build_is_left
                    &&& final(memory)@.used + self.reserved() == old(memory)@.used + h.reserved()
                    &&& self.good(params) ==> h.good(params)
                    &&& self.good(params) ==> h.rest(full, params@, final(storage))
                        == self.rest(full, params@, old(storage))
                },
                Ok(HybridNext::Row(h, row)) => {
                    &&& nearer(h.left_to_do(), self.left_to_do())
                    &&& h.ok(params, final(storage))
                    &&& h.files().subset_of(self.files())
                    &&& h.build_is_left == self.build_is_left
                    &&& final(memory)@.used + self.reserved() == old(memory)@.used + h.reserved()
                    &&& self.good(params) ==> h.good(params) && self.rest(
                        full,
                        params@,
                        old(storage),
                    ) == h.rest(full, params@, final(storage)).insert(row@)
                },
                Ok(HybridNext::Exhausted) => {
                    &&& self.reserved() == 0
                    &&& final(memory)@ == old(memory)@
                    &&& self.rest(full, params@, old(storage)) == Multiset::<Seq<Value>>::empty()
                },
                Err(_) => true,
            },
    {
        let ghost me = self;
        let ghost s0 = *storage;
        let ghost mine = self.files();
        let ghost on = params@;
        let ghost bl = self.build_is_left;
        let ghost none = Multiset::<Seq<Value>>::empty();
        proof {
            untouched_same(&s0, storage, mine);
        }
        if self.active.is_none() {
            return match self.take_up(full, params, sort_run_bytes, storage) {
                Ok(Some(h)) => Ok(HybridNext::Again(h)),
                Ok(None) => {
                    proof {
                        assert(me.rest(full, on, &s0) =~= none);
                    }
                    Ok(HybridNext::Exhausted)
                },
                Err(e) => Err(e),
            };
        }
        let mut h = self;
        let mut slot: Option<PartJoin> = None;
        core::mem::swap(&mut h.active, &mut slot);
        match slot {
            None => Ok(HybridNext::Again(h)),
            Some(a) => {
                let ghost own = a.files();
                let stepped = a.step(full, params, sort_run_bytes, memory, storage);
                proof {
                    untouched_more(&s0, storage, own, mine);
                    assert(own.disjoint(h.files()));
                    h.ok_kept(full, params, &s0, storage, own);
                    assert forall|ls: Seq<Seq<Value>>, rs: Seq<Seq<Value>>| #[trigger]
                        me.within(&s0, ls, rs) implies h.within(&s0, ls, rs) && a.within(
                        &s0,
                        ls,
                        rs,
                    ) by {}
                }
                let ghost rv = resident_value(me.resident, full, on, bl, storage);
                let ghost pv = pairs_total(full, on, bl, storage, me.pairs@);
                let ghost av = a.rest(full, on, &s0);
                proof {
                    assert(none.add(rv).add(pv) =~= rv.add(pv));
                    assert(me.rest(full, on, &s0) =~= av.add(rv.add(pv)));
                }
                match stepped {
                    Ok(PartNext::Need(b, ranges)) => {
                        h.active = Some(b);
                        proof {
                            h.active_nearer(&me);
                            assert(h.rest(full, on, storage) =~= b.rest(full, on, storage).add(
                                rv.add(pv),
                            ));
                        }
                        Ok(HybridNext::Need(h, ranges))
                    },
                    Ok(PartNext::Again(b)) => {
                        h.active = Some(b);
                        proof {
                            h.active_nearer(&me);
                            assert(h.rest(full, on, storage) =~= b.rest(full, on, storage).add(
                                rv.add(pv),
                            ));
                        }
                        Ok(HybridNext::Again(h))
                    },
                    Ok(PartNext::Row(b, row)) => {
                        h.active = Some(b);
                        proof {
                            h.active_nearer(&me);
                            let br = b.rest(full, on, storage);
                            assert(h.rest(full, on, storage) =~= br.add(rv.add(pv)));
                            assert(br.insert(row@).add(rv.add(pv)) =~= br.add(rv.add(pv)).insert(
                                row@,
                            ));
                        }
                        Ok(HybridNext::Row(h, row))
                    },
                    Ok(PartNext::Finished) => {
                        proof {
                            assert(h.rest(full, on, storage) =~= none.add(rv.add(pv)));
                            a.left_is_three();
                            nearer_at(h.left_to_do(), me.left_to_do(), 1);
                        }
                        Ok(HybridNext::Again(h))
                    },
                    Err(e) => Err(e),
                }
            },
        }
    }

    /// Takes the data that was asked for.
    pub fn supply(
        &mut self,
        data: Vec<u8>,
        Ghost(params): Ghost<JoinParams>,
        Ghost(storage): Ghost<TempStorageManager>,
    ) -> (r: Result<(), DbError>)
        requires
            old(self).ok(&params, &storage),
            old(self).waiting(),
        ensures
            r is Ok ==> final(self).ok(&params, &storage),
            r is Ok ==> final(self).files() == old(self).files(),
            final(self).build_is_left == old(self).build_is_left,
            r is Ok ==> final(self).reserved() == old(self).reserved(),
            r is Ok && old(self).expects(data@) && old(self).good(&params) ==> final(self).good(
                &params,
            ) && forall|full: bool| #[trigger]
                final(self).rest(full, params@, &storage) == old(self).rest(
                    full,
                    params@,
                    &storage,
                ),
            old(self).expects(data@) ==> r is Ok,
            r is Ok && old(self).expects(data@) && old(self).good(&params) ==> forall|
                ls: Seq<Seq<Value>>,
                rs: Seq<Seq<Value>>,
            | #[trigger]
                old(self).within(&storage, ls, rs) ==> final(self).within(&storage, ls, rs),
            r is Ok ==> nearer(final(self).left_to_do(), old(self).left_to_do()),
    {
        let mut slot: Option<PartJoin> = None;
        core::mem::swap(&mut self.active, &mut slot);
        match slot {
            Some(a) => {
                let mut a = a;
                let r = a.supply(data, Ghost(params), Ghost(storage));
                self.active = Some(a);
                proof {
                    if r is Ok {
                        self.active_nearer(old(self));
                    }
                }
                r
            },
            None => Ok(()),
        }
    }
}

/// In full mode either side of a pair can be the build side.
proof fn lemma_either_side(
    full: bool,
    on: JoinOn,
    a: bool,
    b: bool,
    storage: &TempStorageManager,
    pair: FilePair,
)
    requires
        full || a == b,
    ensures
        pair_total(full, on, a, storage, pair) == pair_total(full, on, b, storage, pair),
{
    if full && a != b {
        let left = run_of(storage, pair.left.0)->0;
        let right = run_of(storage, pair.right.0)->0;
        lemma_total_is_join(on, true, left, right);
        lemma_total_is_join(on, false, right, left);
    }
}

} // verus!

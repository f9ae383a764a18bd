//! A hash join whose build side fits in memory.

use std::collections::VecDeque;
use vstd::multiset::Multiset;
use vstd::prelude::*;
use crate::adaptive_spec::{contribution, lemma_no_contribution};
use crate::bloom::ExactBitmapCandidate;
use crate::error::DbError;
use crate::join_spec::{JoinOn, joins};
use crate::join_table::{JoinParams, JoinTable, all_len};
use crate::memory::QueryMemoryManager;
use crate::part_join::{PendingProbeMatches, emit_pending_match, pending_left, pending_rest, probe_row_has_qualifying_match, row_undecided, start_probe};
use crate::probe_filter::{ProbeSemijoinFilter, build_in_memory_probe_filter, filter_passes, probe_filter_might_match};
use crate::row::{Row, pick};
use crate::value::Value;
use crate::views::{positions, rows_of};

verus! {

/// The build side as a table, with a filter in front of it.
pub struct InMemoryHash {
    pub build_is_left: bool,
    pub table: JoinTable,
    pub filter: Option<ProbeSemijoinFilter>,
    pub pending: Option<PendingProbeMatches>,
    pub kept: Option<Row>,
    pub bytes: usize,
}

impl InMemoryHash {
    pub open spec fn ok(&self, params: &JoinParams) -> bool {
        let bl = self.build_is_left;
        &&& params.inv()
        &&& self.table.inv(params.build_at(bl), params.build_len(bl))
        &&& self.filter matches Some(f) ==> f.inv()
        &&& forall|i: int|
            0 <= i < self.table.rows().len() ==> filter_passes(
                self.filter,
                pick(#[trigger] self.table.rows()[i], params.build_at(bl)),
            )
        &&& self.pending matches Some(p) ==> p.ok(params, bl, &self.table)
    }

    /// The bytes that are reserved for the table and the filter.
    pub open spec fn reserved(&self) -> nat {
        self.bytes as nat + match self.filter {
            Some(f) => f.reserved(),
            None => 0,
        }
    }

    /// Whether there is something to give out.
    pub open spec fn busy(&self) -> bool {
        self.pending is Some || self.kept is Some
    }

    /// How much is left to do.
    pub open spec fn left_to_do(&self) -> nat {
        pending_left(self.pending, &self.table) + (if self.kept is Some {
            1nat
        } else {
            0nat
        })
    }

    /// What was found and not given out yet.
    pub open spec fn rest(&self, on: JoinOn) -> Multiset<Seq<Value>> {
        let more = pending_rest(self.pending, on, self.build_is_left, &self.table);
        match self.kept {
            Some(row) => more.insert(row@),
            None => more,
        }
    }

    /// Makes the table of the build rows, and a filter if there is memory for one.
    pub fn new(
        rows: VecDeque<Row>,
        bytes: usize,
        candidate: &ExactBitmapCandidate,
        build_is_left: bool,
        params: &JoinParams,
        memory: &mut QueryMemoryManager,
    ) -> (r: Result<InMemoryHash, DbError>)
        requires
            params.inv(),
            old(memory)@.inv(),
            bytes <= old(memory)@.used,
            all_len(rows_of(rows@), params.build_len(build_is_left)),
            forall|i: int|
                0 <= i < rows@.len() ==> candidate.covers(
                    pick((#[trigger] rows@[i])@, params.build_at(build_is_left)),
                ),
        ensures
            final(memory)@.inv(),
            r is Ok,
            r matches Ok(h) ==> {
                &&& h.ok(params)
                &&& h.build_is_left == build_is_left
                &&& h.table.rows() == rows_of(rows@)
                &&& !h.busy()
                &&& h.bytes == bytes
                &&& final(memory)@.used + bytes == old(memory)@.used + h.reserved()
            },
    {
        let keys = params.keys_of(build_is_left);
        let ghost at = params.build_at(build_is_left);
        let ghost len = params.build_len(build_is_left);
        let ghost all = rows_of(rows@);
        let ghost given = rows@;
        let mut rows = rows;
        let mut table = JoinTable::new();
        proof {
            assert(all.take(0) =~= Seq::<Seq<Value>>::empty());
            assert(given.skip(0) =~= given);
        }
        while rows.len() > 0
            invariant
                all == rows_of(given),
                all_len(all, len),
                rows@.len() <= given.len(),
                rows@ == given.skip(given.len() - rows@.len()),
                table.inv(at, len),
                at == positions(keys@),
                table.rows() == all.take(given.len() - rows@.len()),
            decreases rows@.len(),
        {
            let ghost i = given.len() - rows@.len();
            if let Some(row) = rows.pop_front() {
                assert(row == given[i]);
                assert(all[i] == row@);
                table.insert(row, keys);
                assert(all.take(i + 1) =~= all.take(i).push(all[i]));
                assert(rows@ =~= given.skip(i + 1));
            }
        }
        proof {
            assert(all.take(all.len() as int) =~= all);
            assert forall|j: int| 0 <= j < table.rows().len() implies candidate.covers(
                pick(#[trigger] table.rows()[j], at),
            ) by {
                assert(table.rows()[j] == given[j]@);
            }
        }
        match build_in_memory_probe_filter(memory, &table, keys, candidate, Ghost(len)) {
            Ok(filter) => Ok(
                InMemoryHash { build_is_left, table, filter, pending: None, kept: None, bytes },
            ),
            Err(e) => Err(e),
        }
    }

    /// Takes a probe row.
    pub fn probe(&mut self, full: bool, row: Row, params: &JoinParams) -> (r: Result<(), DbError>)
        requires
            old(self).ok(params),
            !old(self).busy(),
            row@.len() == params.build_len(!old(self).build_is_left),
        ensures
            final(self).build_is_left == old(self).build_is_left,
            final(self).table == old(self).table,
            final(self).filter == old(self).filter,
            final(self).bytes == old(self).bytes,
            final(self).ok(params),
            r is Ok ==> final(self).rest(params@) == contribution(
                full,
                params@,
                old(self).build_is_left,
                old(self).table.rows(),
                row@,
            ),
            final(self).pending matches Some(p) ==> p.probe_row@ == row@,
            r matches Err(e) ==> e is IncomparableValues && row_undecided(
                params@,
                old(self).build_is_left,
                old(self).table.rows(),
                row@,
            ),
    {
        let bl = self.build_is_left;
        let ghost on = params@;
        let ghost x = row@;
        let ghost build = self.table.rows();
        let ghost none = Multiset::<Seq<Value>>::empty();
        let probe_keys = params.keys_of(!bl);
        if !probe_filter_might_match(&self.filter, &row, probe_keys) {
            proof {
                assert forall|i: int| 0 <= i < build.len() implies !(if bl {
                    joins(on, #[trigger] build[i], x)
                } else {
                    joins(on, x, build[i])
                }) by {
                    assert(filter_passes(self.filter, pick(build[i], params.build_at(bl))));
                }
                lemma_no_contribution(full, on, bl, build, x);
            }
            return Ok(());
        }
        if full {
            let pending = start_probe(row, params, bl, &self.table);
            self.pending = Some(pending);
            Ok(())
        } else {
            match probe_row_has_qualifying_match(&row, params, bl, &self.table) {
                Ok(found) => {
                    if found {
                        proof {
                            assert(none.insert(x) =~= Multiset::singleton(x));
                        }
                        self.kept = Some(row);
                    }
                    Ok(())
                },
                Err(e) => Err(e),
            }
        }
    }

    /// Gives out the next row that was found.
    pub fn emit(&mut self, params: &JoinParams) -> (r: Result<Option<Row>, DbError>)
        requires
            old(self).ok(params),
        ensures
            final(self).build_is_left == old(self).build_is_left,
            final(self).table == old(self).table,
            final(self).filter == old(self).filter,
            final(self).bytes == old(self).bytes,
            final(self).ok(params),
            r is Ok && old(self).busy() ==> final(self).left_to_do() < old(self).left_to_do(),
            match r {
                Ok(Some(row)) => old(self).rest(params@) == final(self).rest(params@).insert(row@),
                Ok(None) => old(self).rest(params@) == Multiset::<Seq<Value>>::empty() && !final(
                    self).busy(),
                Err(e) => e is IncomparableValues && old(self).pending is Some && row_undecided(
                    params@,
                    old(self).build_is_left,
                    old(self).table.rows(),
                    old(self).pending->0.probe_row@,
                ),
            },
            final(self).pending matches Some(p) ==> old(self).pending is Some && p.probe_row@
                == old(self).pending->0.probe_row@,
    {
        let mut kept: Option<Row> = None;
        core::mem::swap(&mut self.kept, &mut kept);
        if let Some(row) = kept {
            return Ok(Some(row));
        }
        let mut slot: Option<PendingProbeMatches> = None;
        core::mem::swap(&mut self.pending, &mut slot);
        match slot {
            Some(p) => {
                let mut p = p;
                match emit_pending_match(&mut p, params, self.build_is_left, &self.table) {
                    Ok(Some(row)) => {
                        self.pending = Some(p);
                        Ok(Some(row))
                    },
                    Ok(None) => Ok(None),
                    Err(e) => Err(e),
                }
            },
            None => Ok(None),
        }
    }

    /// Gives the memory back.
    pub fn release(&self, memory: &mut QueryMemoryManager)
        requires
            old(memory)@.inv(),
            self.reserved() <= old(memory)@.used,
        ensures
            final(memory)@.inv(),
            final(memory)@.used + self.reserved() == old(memory)@.used,
    {
        memory.release(self.bytes);
        if let Some(f) = &self.filter {
            memory.release(f.reserved_bytes());
        }
    }
}

} // verus!

//! Joining one partition of a hybrid hash join.

use vstd::multiset::Multiset;
use vstd::prelude::*;
use crate::adaptive_plan::{choose_reader_batch, estimate_hash_build_row_bytes, is_build_size};
use crate::adaptive_spec::{lemma_total_first, total};
use crate::error::DbError;
use crate::hashing::key_hash64;
use crate::join_spec::{JoinOn, probe_with};
use crate::join_table::{JoinParams, JoinTable, all_in, all_len, decided, decided_sides, lemma_undecided, matches_are_contribution, matches_of, probe_hash, sides_fail, undecided};
use crate::memory::{MemoryAccount, QueryMemoryManager};
use crate::partition_join::{lemma_all_len_drop, reader_good, reader_ok};
use crate::progress::{nearer, nearer_at, not_farther, not_farther_if};
use crate::row::Row;
use crate::temp_run::{ReadStep, TempRunReader, blocks_of, is_content, run_of};
use crate::temp_storage::{BlockRange, TempFileId, TempStorageManager, out_of_room, same_room, unharmed, untouched, untouched_but, untouched_file, untouched_same};
use crate::value::Value;

verus! {

/// Whether an error is that of memory for a build row: so many bytes as the row may take are not
/// left.
pub open spec fn no_memory_for(
    e: DbError,
    row: Seq<Value>,
    at: Seq<int>,
    memory: MemoryAccount,
) -> bool {
    match e {
        DbError::MemoryBudgetExceeded { requested, used, budget } => {
            &&& is_build_size(row, at, requested as int)
            &&& used as nat == memory.used
            &&& budget as nat == memory.budget
            &&& memory.used + requested > memory.budget
        },
        DbError::MemoryAccountingOverflow(bytes) => is_build_size(row, at, bytes as int)
            && memory.used + bytes > usize::MAX,
        _ => false,
    }
}

/// Whether an error is that of memory for one of some build rows.
pub open spec fn no_memory(
    e: DbError,
    rows: Seq<Seq<Value>>,
    at: Seq<int>,
    memory: MemoryAccount,
) -> bool {
    exists|i: int| 0 <= i < rows.len() && no_memory_for(e, #[trigger] rows[i], at, memory)
}

/// Whether joining partitions can end with an error, though everything was read as it was
/// written: the storage cannot take another batch; a pair of rows has no answer to a test; or a
/// build row has no memory.
pub open spec fn parts_fail(
    on: JoinOn,
    e: DbError,
    ls: Seq<Seq<Value>>,
    rs: Seq<Seq<Value>>,
    memory: MemoryAccount,
    storage: &TempStorageManager,
) -> bool {
    ||| out_of_room(e, storage)
    ||| undecided(on, e, ls, rs)
    ||| no_memory(e, ls, on.left_keys, memory)
    ||| no_memory(e, rs, on.right_keys, memory)
}

/// Whether a probe row has no answer to a test with a build row.
pub open spec fn row_undecided(
    on: JoinOn,
    build_is_left: bool,
    build: Seq<Seq<Value>>,
    x: Seq<Value>,
) -> bool {
    exists|i: int| 0 <= i < build.len() && sides_fail(on, build_is_left, #[trigger] build[i], x)
}

pub proof fn lemma_row_undecided(
    on: JoinOn,
    build_is_left: bool,
    some: Seq<Seq<Value>>,
    x: Seq<Value>,
    build: Seq<Seq<Value>>,
    probe: Seq<Seq<Value>>,
)
    requires
        row_undecided(on, build_is_left, some, x),
        all_in(some, build),
        probe.contains(x),
    ensures
        !decided_sides(on, build_is_left, build, probe),
{
    let i = choose|i: int|
        0 <= i < some.len() && sides_fail(on, build_is_left, #[trigger] some[i], x);
    assert(build.contains(some[i]));
    let a = choose|a: int| 0 <= a < build.len() && build[a] == some[i];
    let b = choose|b: int| 0 <= b < probe.len() && probe[b] == x;
    lemma_undecided(on, build_is_left, build, probe, a, b);
}

/// A probe row whose matches are being given out.
pub struct PendingProbeMatches {
    pub probe_row: Row,
    pub hash: u64,
    pub next_match_idx: usize,
}

impl PendingProbeMatches {
    pub open spec fn ok(&self, params: &JoinParams, bl: bool, table: &JoinTable) -> bool {
        &&& self.probe_row@.len() == params.build_len(!bl)
        &&& self.hash == probe_hash(params@, bl, self.probe_row@)
        &&& self.next_match_idx <= table.bucket(self.hash).len()
    }

    /// How many rows of the table are still to be tried.
    pub open spec fn left_to_do(&self, table: &JoinTable) -> nat {
        (table.bucket(self.hash).len() - self.next_match_idx) as nat
    }

    /// The matches that are still to be given out.
    pub open spec fn rest(&self, on: JoinOn, bl: bool, table: &JoinTable) -> Multiset<Seq<Value>> {
        matches_of(
            on,
            bl,
            table.bucket(self.hash).skip(self.next_match_idx as int),
            self.probe_row@,
        ).to_multiset()
    }
}

/// What is left to do of a pending probe row, where there is one.
pub open spec fn pending_left(pending: Option<PendingProbeMatches>, table: &JoinTable) -> nat {
    match pending {
        Some(p) => p.left_to_do(table) + 1,
        None => 0,
    }
}

/// What is left of a pending probe row, where there is one.
pub open spec fn pending_rest(
    pending: Option<PendingProbeMatches>,
    on: JoinOn,
    bl: bool,
    table: &JoinTable,
) -> Multiset<Seq<Value>> {
    match pending {
        Some(p) => p.rest(on, bl, table),
        None => Multiset::empty(),
    }
}

/// Takes up a probe row. Its matches are those in its bucket.
pub fn start_probe(
    probe_row: Row,
    params: &JoinParams,
    build_is_left: bool,
    table: &JoinTable,
) -> (r: PendingProbeMatches)
    requires
        params.inv(),
        table.inv(params.build_at(build_is_left), params.build_len(build_is_left)),
        probe_row@.len() == params.build_len(!build_is_left),
    ensures
        r.ok(params, build_is_left, table),
        r.probe_row == probe_row,
        r.next_match_idx == 0,
        r.rest(params@, build_is_left, table) == probe_with(
            params@,
            build_is_left,
            table.rows(),
            probe_row@,
        ),
{
    let hash: u64 = key_hash64(&probe_row, params.keys_of(!build_is_left));
    proof {
        let on = params@;
        table.lemma_bucket(
            on,
            params.build_at(build_is_left),
            params.build_len(build_is_left),
            build_is_left,
            probe_row@,
        );
        let b = table.bucket(hash);
        assert(b.skip(0) =~= b);
        matches_are_contribution(on, build_is_left, table.rows(), probe_row@);
    }
    PendingProbeMatches { probe_row, hash, next_match_idx: 0 }
}

/// The next match of a pending probe row.
pub fn emit_pending_match(
    pending: &mut PendingProbeMatches,
    params: &JoinParams,
    build_is_left: bool,
    table: &JoinTable,
) -> (r: Result<Option<Row>, DbError>)
    requires
        params.inv(),
        table.inv(params.build_at(build_is_left), params.build_len(build_is_left)),
        old(pending).ok(params, build_is_left, table),
    ensures
        final(pending).ok(params, build_is_left, table),
        final(pending).probe_row == old(pending).probe_row,
        r matches Ok(Some(_)) ==> final(pending).left_to_do(table) < old(pending).left_to_do(table),
        match r {
            Ok(Some(row)) => old(pending).rest(params@, build_is_left, table) == final(
                pending).rest(params@, build_is_left, table).insert(row@),
            Ok(None) => old(pending).rest(params@, build_is_left, table) == Multiset::<
                Seq<Value>,
            >::empty(),
            Err(e) => e is IncomparableValues && row_undecided(
                params@,
                build_is_left,
                table.rows(),
                old(pending).probe_row@,
            ),
        },
{
    match table.next_match(
        params,
        build_is_left,
        &pending.probe_row,
        pending.hash,
        pending.next_match_idx,
    ) {
        Ok(Some((row, next))) => {
            proof {
                broadcast use vstd::seq_lib::group_to_multiset_ensures;

                let on = params@;
                let b = table.bucket(pending.hash);
                let p = pending.probe_row@;
                let rest = matches_of(on, build_is_left, b.skip(next as int), p);
                vstd::seq_lib::lemma_multiset_commutative(seq![row@], rest);
                assert(seq![row@] =~= Seq::<Seq<Value>>::empty().push(row@));
                assert((seq![row@] + rest).to_multiset() =~= rest.to_multiset().insert(row@));
            }
            pending.next_match_idx = next;
            Ok(Some(row))
        },
        Ok(None) => {
            proof {
                crate::partition_join::lemma_bag_empty();
                let on = params@;
                let m = matches_of(
                    on,
                    build_is_left,
                    table.bucket(pending.hash).skip(pending.next_match_idx as int),
                    pending.probe_row@,
                );
                assert(m =~= Seq::<Seq<Value>>::empty());
            }
            Ok(None)
        },
        Err(e) => {
            proof {
                lemma_bucket_fails(
                    params,
                    build_is_left,
                    table,
                    pending.probe_row@,
                    pending.hash,
                    pending.next_match_idx as int,
                );
            }
            Err(e)
        },
    }
}

/// A test that fails for a row of a bucket fails for a row of the table.
proof fn lemma_bucket_fails(
    params: &JoinParams,
    build_is_left: bool,
    table: &JoinTable,
    x: Seq<Value>,
    h: u64,
    from: int,
)
    requires
        table.inv(params.build_at(build_is_left), params.build_len(build_is_left)),
        0 <= from,
        exists|i: int|
            from <= i < table.bucket(h).len() && sides_fail(
                params@,
                build_is_left,
                #[trigger] table.bucket(h)[i],
                x,
            ),
    ensures
        row_undecided(params@, build_is_left, table.rows(), x),
{
    table.lemma_bucket_in(params.build_at(build_is_left), params.build_len(build_is_left), h);
    let i = choose|i: int|
        from <= i < table.bucket(h).len() && sides_fail(
            params@,
            build_is_left,
            #[trigger] table.bucket(h)[i],
            x,
        );
    let row = table.bucket(h)[i];
    assert(table.rows().contains(row));
    let a = choose|a: int| 0 <= a < table.rows().len() && table.rows()[a] == row;
    assert(sides_fail(params@, build_is_left, table.rows()[a], x));
}

/// Whether a probe row has a match; the search ends with the first one.
pub fn probe_row_has_qualifying_match(
    probe_row: &Row,
    params: &JoinParams,
    build_is_left: bool,
    table: &JoinTable,
) -> (r: Result<bool, DbError>)
    requires
        params.inv(),
        table.inv(params.build_at(build_is_left), params.build_len(build_is_left)),
        probe_row@.len() == params.build_len(!build_is_left),
    ensures
        match r {
            Ok(found) => found == (probe_with(
                params@,
                build_is_left,
                table.rows(),
                probe_row@,
            ).len() > 0),
            Err(e) => e is IncomparableValues && row_undecided(
                params@,
                build_is_left,
                table.rows(),
                probe_row@,
            ),
        },
{
    let hash: u64 = key_hash64(probe_row, params.keys_of(!build_is_left));
    proof {
        broadcast use vstd::seq_lib::group_to_multiset_ensures;

        let on = params@;
        table.lemma_bucket(
            on,
            params.build_at(build_is_left),
            params.build_len(build_is_left),
            build_is_left,
            probe_row@,
        );
        let b = table.bucket(hash);
        assert(b.skip(0) =~= b);
        matches_are_contribution(on, build_is_left, table.rows(), probe_row@);
    }
    match table.next_match(params, build_is_left, probe_row, hash, 0) {
        Ok(Some(_)) => {
            proof {
                broadcast use vstd::seq_lib::group_to_multiset_ensures;

                let m = matches_of(params@, build_is_left, table.rows(), probe_row@);
                assert(m.to_multiset().len() == m.len());
            }
            Ok(true)
        },
        Ok(None) => {
            proof {
                broadcast use vstd::seq_lib::group_to_multiset_ensures;

                let m = matches_of(params@, build_is_left, table.rows(), probe_row@);
                assert(m.to_multiset().len() == m.len());
            }
            Ok(false)
        },
        Err(e) => {
            proof {
                lemma_bucket_fails(params, build_is_left, table, probe_row@, hash, 0);
            }
            Err(e)
        },
    }
}

pub enum PartPhase {
    /// The build file is read into the table.
    Load { reader: TempRunReader, file: TempFileId },
    /// The table is complete.
    Open,
    /// The probe file is read.
    Probe { reader: TempRunReader, pending: Option<PendingProbeMatches> },
}

/// A partition in the course of being joined.
pub struct PartJoin {
    pub build_is_left: bool,
    pub table: JoinTable,
    pub bytes: usize,
    pub probe_file: TempFileId,
    pub phase: PartPhase,
}

/// What a step of joining a partition comes to.
pub enum PartNext {
    Need(PartJoin, Vec<BlockRange>),
    Again(PartJoin),
    Row(PartJoin, Row),
    Finished,
}

/// What a step does to where the rows of a partition are from, and which errors it can come to.
pub open spec fn stays_within(
    r: Result<PartNext, DbError>,
    params: &JoinParams,
    ls: Seq<Seq<Value>>,
    rs: Seq<Seq<Value>>,
    memory: MemoryAccount,
    storage: &TempStorageManager,
) -> bool {
    match r {
        Ok(PartNext::Need(j, _)) => j.within(storage, ls, rs),
        Ok(PartNext::Again(j)) => j.within(storage, ls, rs),
        Ok(PartNext::Row(j, _)) => j.within(storage, ls, rs),
        Ok(PartNext::Finished) => true,
        Err(e) => parts_fail(params@, e, ls, rs, memory, storage),
    }
}

proof fn lemma_moved(taken: Seq<Seq<Value>>, rest: Seq<Seq<Value>>, all: Seq<Seq<Value>>)
    requires
        all_in(taken, all),
        all_in(rest, all),
        rest.len() > 0,
    ensures
        all_in(taken.push(rest[0]), all),
        all_in(rest.drop_first(), all),
        all.contains(rest[0]),
{
    assert(all.contains(rest[0]));
    assert forall|i: int| 0 <= i < taken.push(rest[0]).len() implies all.contains(
        #[trigger] taken.push(rest[0])[i],
    ) by {
        if i < taken.len() {
            assert(taken.push(rest[0])[i] == taken[i]);
        }
    }
    assert forall|i: int| 0 <= i < rest.drop_first().len() implies all.contains(
        #[trigger] rest.drop_first()[i],
    ) by {
        assert(rest.drop_first()[i] == rest[i + 1]);
    }
}

proof fn lemma_part_undecided(
    on: JoinOn,
    build_is_left: bool,
    some: Seq<Seq<Value>>,
    x: Seq<Value>,
    ls: Seq<Seq<Value>>,
    rs: Seq<Seq<Value>>,
)
    requires
        row_undecided(on, build_is_left, some, x),
        all_in(
            some,
            if build_is_left {
                ls
            } else {
                rs
            },
        ),
        (if build_is_left {
            rs
        } else {
            ls
        }).contains(x),
    ensures
        !decided(on, ls, rs),
{
    if build_is_left {
        lemma_row_undecided(on, true, some, x, ls, rs);
    } else {
        lemma_row_undecided(on, false, some, x, rs, ls);
    }
}

proof fn lemma_no_memory(
    params: &JoinParams,
    e: DbError,
    build_is_left: bool,
    ls: Seq<Seq<Value>>,
    rs: Seq<Seq<Value>>,
    x: Seq<Value>,
    memory: MemoryAccount,
    storage: &TempStorageManager,
)
    requires
        (if build_is_left {
            ls
        } else {
            rs
        }).contains(x),
        no_memory_for(e, x, params.build_at(build_is_left), memory),
    ensures
        parts_fail(params@, e, ls, rs, memory, storage),
{
    let all = if build_is_left {
        ls
    } else {
        rs
    };
    let i = choose|i: int| 0 <= i < all.len() && all[i] == x;
    assert(no_memory_for(e, all[i], params.build_at(build_is_left), memory));
}

/// What a step of a partition does to what is left to do of it.
pub open spec fn part_nearer(r: Result<PartNext, DbError>, before: PartJoin) -> bool {
    match r {
        Ok(PartNext::Need(j, _)) => not_farther(j.left_to_do(), before.left_to_do()),
        Ok(PartNext::Again(j)) => nearer(j.left_to_do(), before.left_to_do()),
        Ok(PartNext::Row(j, _)) => nearer(j.left_to_do(), before.left_to_do()),
        _ => true,
    }
}

impl PartJoin {
    /// What is left to do: the phases, of the run that is read, and of the pending row.
    pub open spec fn work(&self) -> (nat, nat, nat) {
        match self.phase {
            PartPhase::Load { reader, .. } => (2, reader.left_to_do(), 0),
            PartPhase::Open => (1, 0, 0),
            PartPhase::Probe { reader, pending } => (
                0,
                reader.left_to_do(),
                pending_left(pending, &self.table),
            ),
        }
    }

    /// How much is left to do.
    #[verifier::opaque]
    pub open spec fn left_to_do(&self) -> Seq<nat> {
        seq![self.work().0, self.work().1, self.work().2]
    }

    pub proof fn left_is_three(&self)
        ensures
            self.left_to_do().len() == 3,
    {
        reveal(PartJoin::left_to_do);
    }

    proof fn work_nearer(&self, before: &PartJoin)
        requires
            self.work().0 < before.work().0 || (self.work().0 == before.work().0 && (
            self.work().1 < before.work().1 || (self.work().1 == before.work().1 && self.work().2
                < before.work().2))),
        ensures
            nearer(self.left_to_do(), before.left_to_do()),
    {
        reveal(PartJoin::left_to_do);
        if self.work().0 < before.work().0 {
            nearer_at(self.left_to_do(), before.left_to_do(), 0);
        } else if self.work().1 < before.work().1 {
            nearer_at(self.left_to_do(), before.left_to_do(), 1);
        } else {
            nearer_at(self.left_to_do(), before.left_to_do(), 2);
        }
    }

    proof fn work_not_farther(&self, before: &PartJoin)
        requires
            self.work().0 == before.work().0,
            self.work().1 <= before.work().1,
            self.work().2 <= before.work().2,
        ensures
            not_farther(self.left_to_do(), before.left_to_do()),
    {
        reveal(PartJoin::left_to_do);
        not_farther_if(self.left_to_do(), before.left_to_do());
    }

    pub open spec fn files(&self) -> Set<u64> {
        match self.phase {
            PartPhase::Load { file, .. } => Set::<u64>::empty().insert(self.probe_file.0).insert(
                file.0,
            ),
            _ => Set::<u64>::empty().insert(self.probe_file.0),
        }
    }

    pub open spec fn waiting(&self) -> bool {
        match self.phase {
            PartPhase::Load { reader, .. } => reader.waiting(),
            PartPhase::Open => false,
            PartPhase::Probe { reader, .. } => reader.waiting(),
        }
    }

    pub open spec fn expects(&self, data: Seq<u8>) -> bool {
        match self.phase {
            PartPhase::Load { reader, .. } => reader.expects(data),
            PartPhase::Open => false,
            PartPhase::Probe { reader, .. } => reader.expects(data),
        }
    }

    pub open spec fn ok(&self, params: &JoinParams, storage: &TempStorageManager) -> bool {
        let bl = self.build_is_left;
        &&& params.inv()
        &&& storage.inv()
        &&& self.table.inv(params.build_at(bl), params.build_len(bl))
        &&& run_of(storage, self.probe_file.0) is Some
        &&& all_len(run_of(storage, self.probe_file.0)->0, params.build_len(!bl))
        &&& match self.phase {
            PartPhase::Load { reader, file } => reader_ok(&reader, storage) && reader.file()
                == file.0 && file != self.probe_file && run_of(storage, file.0) is Some,
            PartPhase::Open => true,
            PartPhase::Probe { reader, pending } => reader_ok(&reader, storage) && reader.file()
                == self.probe_file.0 && (pending matches Some(p) ==> p.ok(
                params,
                bl,
                &self.table,
            )),
        }
    }

    /// Whether all rows of the partition are among those of the sides.
    #[verifier::opaque]
    pub open spec fn within(
        &self,
        storage: &TempStorageManager,
        ls: Seq<Seq<Value>>,
        rs: Seq<Seq<Value>>,
    ) -> bool {
        let (build, probe) = if self.build_is_left {
            (ls, rs)
        } else {
            (rs, ls)
        };
        &&& all_in(self.table.rows(), build)
        &&& match self.phase {
            PartPhase::Load { reader, .. } => all_in(reader.remaining(), build) && all_in(
                run_of(storage, self.probe_file.0)->0,
                probe,
            ),
            PartPhase::Open => all_in(run_of(storage, self.probe_file.0)->0, probe),
            PartPhase::Probe { reader, pending } => all_in(reader.remaining(), probe) && (
            pending matches Some(p) ==> probe.contains(p.probe_row@)),
        }
    }

    pub open spec fn good(&self, params: &JoinParams) -> bool {
        let bl = self.build_is_left;
        match self.phase {
            PartPhase::Load { reader, .. } => reader_good(&reader, params.build_len(bl)),
            PartPhase::Open => true,
            PartPhase::Probe { reader, .. } => reader_good(&reader, params.build_len(!bl)),
        }
    }

    /// What is still to be given out.
    pub open spec fn rest(
        &self,
        full: bool,
        on: JoinOn,
        storage: &TempStorageManager,
    ) -> Multiset<Seq<Value>> {
        let bl = self.build_is_left;
        let probe = run_of(storage, self.probe_file.0)->0;
        match self.phase {
            PartPhase::Load { reader, .. } => total(
                full,
                on,
                bl,
                self.table.rows() + reader.remaining(),
                probe,
            ),
            PartPhase::Open => total(full, on, bl, self.table.rows(), probe),
            PartPhase::Probe { reader, pending } => pending_rest(
                pending,
                on,
                bl,
                &self.table,
            ).add(total(full, on, bl, self.table.rows(), reader.remaining())),
        }
    }

    pub proof fn ok_kept(
        &self,
        full: bool,
        params: &JoinParams,
        before: &TempStorageManager,
        after: &TempStorageManager,
        touched: Set<u64>,
    )
        requires
            self.ok(params, before),
            after.inv(),
            unharmed(before, after, touched),
            touched.disjoint(self.files()),
        ensures
            self.ok(params, after),
            self.rest(full, params@, after) == self.rest(full, params@, before),
            forall|ls: Seq<Seq<Value>>, rs: Seq<Seq<Value>>| #[trigger]
                self.within(before, ls, rs) ==> self.within(after, ls, rs),
    {
        reveal(PartJoin::within);
        assert(self.files().contains(self.probe_file.0));
        untouched_file(before, after, touched, self.probe_file.0);
        if let PartPhase::Load { reader, file } = self.phase {
            assert(self.files().contains(file.0));
            untouched_file(before, after, touched, file.0);
        }
    }

    pub proof fn ok_gives(&self, params: &JoinParams, storage: &TempStorageManager)
        requires
            self.ok(params, storage),
        ensures
            forall|f: u64| #[trigger] self.files().contains(f) ==> storage.has_file(f),
    {
    }

    /// Joins the partition of a build file and a probe file, with the rows that are in a table
    /// already.
    pub fn new(
        build_is_left: bool,
        table: JoinTable,
        bytes: usize,
        build_file: Option<TempFileId>,
        probe_file: TempFileId,
        params: &JoinParams,
        sort_run_bytes: usize,
        storage: &TempStorageManager,
    ) -> (r: Result<PartJoin, DbError>)
        requires
            params.inv(),
            storage.inv(),
            table.inv(params.build_at(build_is_left), params.build_len(build_is_left)),
            run_of(storage, probe_file.0) is Some,
            all_len(run_of(storage, probe_file.0)->0, params.build_len(!build_is_left)),
            build_file matches Some(id) ==> id != probe_file && run_of(storage, id.0) is Some
                && all_len(run_of(storage, id.0)->0, params.build_len(build_is_left)),
        ensures
            match r {
                Ok(j) => {
                    &&& j.ok(params, storage)
                    &&& j.good(params)
                    &&& j.build_is_left == build_is_left
                    &&& j.bytes == bytes
                    &&& forall|f: u64| #[trigger]
                        j.files().contains(f) ==> f == probe_file.0 || (build_file matches Some(id)
                            && id.0 == f)
                    &&& forall|full: bool| #[trigger]
                        j.rest(full, params@, storage) == total(
                            full,
                            params@,
                            build_is_left,
                            table.rows() + (match build_file {
                                Some(id) => run_of(storage, id.0)->0,
                                None => Seq::empty(),
                            }),
                            run_of(storage, probe_file.0)->0,
                        )
                },
                Err(e) => out_of_room(e, storage),
            },
            r matches Ok(j) ==> forall|ls: Seq<Seq<Value>>, rs: Seq<Seq<Value>>|
                all_in(
                    table.rows(),
                    if build_is_left {
                        ls
                    } else {
                        rs
                    },
                ) && (build_file matches Some(id) ==> all_in(
                    run_of(storage, id.0)->0,
                    if build_is_left {
                        ls
                    } else {
                        rs
                    },
                )) && all_in(
                    run_of(storage, probe_file.0)->0,
                    if build_is_left {
                        rs
                    } else {
                        ls
                    },
                ) ==> #[trigger] j.within(storage, ls, rs),
    {
        proof {
            reveal(PartJoin::within);
        }
        let phase = match build_file {
            Some(file) => {
                let pages: usize = choose_reader_batch(sort_run_bytes, storage.block_size(), 1);
                match TempRunReader::with_batch_pages(storage, file, pages) {
                    Ok(reader) => PartPhase::Load { reader, file },
                    Err(e) => {
                        return Err(e);
                    },
                }
            },
            None => {
                proof {
                    assert(table.rows() + Seq::<Seq<Value>>::empty() =~= table.rows());
                }
                PartPhase::Open
            },
        };
        Ok(PartJoin { build_is_left, table, bytes, probe_file, phase })
    }

    /// Does some of the partition's work.
    pub fn step(
        self,
        full: bool,
        params: &JoinParams,
        sort_run_bytes: usize,
        memory: &mut QueryMemoryManager,
        storage: &mut TempStorageManager,
    ) -> (r: Result<PartNext, DbError>)
        requires
            self.ok(params, old(storage)),
            old(memory)@.inv(),
            self.bytes <= old(memory)@.used,
        ensures
            final(storage).inv(),
            final(memory)@.inv(),
            untouched(old(storage), final(storage), self.files()),
            same_room(old(storage), final(storage)),
            part_nearer(r, self),
            forall|ls: Seq<Seq<Value>>, rs: Seq<Seq<Value>>| #[trigger]
                self.within(old(storage), ls, rs) && self.good(params) ==> stays_within(
                    r,
                    params,
                    ls,
                    rs,
                    old(memory)@,
                    final(storage),
                ),
            match r {
                Ok(PartNext::Need(j, ranges)) => {
                    &&& j.ok(params, final(storage))
                    &&& j.files() == self.files()
                    &&& j.build_is_left == self.build_is_left
                    &&& final(memory)@.used + self.bytes == old(memory)@.used + j.bytes
                    &&& j.waiting()
                    &&& forall|data: Seq<u8>|
                        is_content(
                            final(storage).disk(),
                            blocks_of(ranges@),
                            data,
                            final(storage).size() as int,
                        ) ==> #[trigger] j.expects(data)
                    &&& self.good(params) ==> j.good(params) && j.rest(
                        full,
                        params@,
                        final(storage),
                    ) == self.rest(full, params@, old(storage))
                },
                Ok(PartNext::Again(j)) => {
                    &&& j.ok(params, final(storage))
                    &&& j.files().subset_of(self.files())
                    &&& j.build_is_left == self.build_is_left
                    &&& final(memory)@.used + self.bytes == old(memory)@.used + j.bytes
                    &&& self.good(params) ==> j.good(params) && j.rest(
                        full,
                        params@,
                        final(storage),
                    ) == self.rest(full, params@, old(storage))
                },
                Ok(PartNext::Row(j, row)) => {
                    &&& j.ok(params, final(storage))
                    &&& j.files() == self.files()
                    &&& j.build_is_left == self.build_is_left
                    &&& final(memory)@.used + self.bytes == old(memory)@.used + j.bytes
                    &&& self.good(params) ==> j.good(params) && self.rest(
                        full,
                        params@,
                        old(storage),
                    ) == j.rest(full, params@, final(storage)).insert(row@)
                },
                Ok(PartNext::Finished) => {
                    &&& final(memory)@.used + self.bytes == old(memory)@.used
                    &&& self.good(params) ==> self.rest(full, params@, old(storage)) == Multiset::<
                        Seq<Value>,
                    >::empty()
                },
                Err(_) => true,
            },
    {
        match self.phase {
            PartPhase::Load { reader, file } => PartJoin::load_row(
                reader,
                file,
                self.build_is_left,
                self.table,
                self.bytes,
                self.probe_file,
                full,
                params,
                memory,
                storage,
            ),
            PartPhase::Open => {
                let ghost s0 = *storage;
                proof {
                    reveal(PartJoin::within);
                    untouched_same(&s0, storage, self.files());
                }
                let pages: usize = choose_reader_batch(sort_run_bytes, storage.block_size(), 1);
                match TempRunReader::with_batch_pages(storage, self.probe_file, pages) {
                    Ok(reader) => {
                        let j = PartJoin {
                            build_is_left: self.build_is_left,
                            table: self.table,
                            bytes: self.bytes,
                            probe_file: self.probe_file,
                            phase: PartPhase::Probe { reader, pending: None },
                        };
                        proof {
                            let t = total(
                                full,
                                params@,
                                self.build_is_left,
                                self.table.rows(),
                                reader.remaining(),
                            );
                            assert(Multiset::<Seq<Value>>::empty().add(t) =~= t);
                            j.work_nearer(&self);
                        }
                        Ok(PartNext::Again(j))
                    },
                    Err(e) => Err(e),
                }
            },
            PartPhase::Probe { reader, pending } => PartJoin::probe_row(
                reader,
                pending,
                self.build_is_left,
                self.table,
                self.bytes,
                self.probe_file,
                full,
                params,
                memory,
                storage,
            ),
        }
    }

    /// Reads the next build row into the table.
    fn load_row(
        reader: TempRunReader,
        file: TempFileId,
        build_is_left: bool,
        table: JoinTable,
        bytes: usize,
        probe_file: TempFileId,
        full: bool,
        params: &JoinParams,
        memory: &mut QueryMemoryManager,
        storage: &mut TempStorageManager,
    ) -> (r: Result<PartNext, DbError>)
        requires
            (PartJoin {
                build_is_left,
                table,
                bytes,
                probe_file,
                phase: PartPhase::Load { reader, file },
            }).ok(params, old(storage)),
            old(memory)@.inv(),
            bytes <= old(memory)@.used,
        ensures
            final(storage).inv(),
            final(memory)@.inv(),
            ({
                let me = PartJoin {
                    build_is_left,
                    table,
                    bytes,
                    probe_file,
                    phase: PartPhase::Load { reader, file },
                };
                &&& untouched(old(storage), final(storage), me.files())
                &&& same_room(old(storage), final(storage))
                &&& part_nearer(r, me)
                &&& forall|ls: Seq<Seq<Value>>, rs: Seq<Seq<Value>>| #[trigger]
                    me.within(old(storage), ls, rs) && me.good(params) ==> stays_within(
                        r,
                        params,
                        ls,
                        rs,
                        old(memory)@,
                        final(storage),
                    )
                &&& match r {
                    Ok(PartNext::Need(j, ranges)) => {
                        &&& j.ok(params, final(storage))
                        &&& j.files() == me.files()
                        &&& j.build_is_left == build_is_left
                        &&& final(memory)@.used + bytes == old(memory)@.used + j.bytes
                        &&& j.waiting()
                        &&& forall|data: Seq<u8>|
                            is_content(
                                final(storage).disk(),
                                blocks_of(ranges@),
                                data,
                                final(storage).size() as int,
                            ) ==> #[trigger] j.expects(data)
                        &&& me.good(params) ==> j.good(params) && j.rest(
                            full,
                            params@,
                            final(storage),
                        ) == me.rest(full, params@, old(storage))
                    },
                    Ok(PartNext::Again(j)) => {
                        &&& j.ok(params, final(storage))
                        &&& j.files().subset_of(me.files())
                        &&& j.build_is_left == build_is_left
                        &&& final(memory)@.used + bytes == old(memory)@.used + j.bytes
                        &&& me.good(params) ==> j.good(params) && j.rest(
                            full,
                            params@,
                            final(storage),
                        ) == me.rest(full, params@, old(storage))
                    },
                    Ok(_) => false,
                    Err(_) => true,
                }
            }),
    {
        let ghost me = PartJoin {
            build_is_left,
            table,
            bytes,
            probe_file,
            phase: PartPhase::Load { reader, file },
        };
        let ghost s0 = *storage;
        let ghost on = params@;
        let ghost len = params.build_len(build_is_left);
        let ghost rest = reader.remaining();
        let mut reader = reader;
        let mut table = table;
        proof {
            reveal(PartJoin::within);
            untouched_same(&s0, storage, me.files());
        }
        let read = match reader.next_row(storage) {
            Ok(s) => s,
            Err(e) => {
                return Err(e);
            },
        };
        match read {
            ReadStep::Need(ranges) => {
                let j = PartJoin {
                    build_is_left,
                    table,
                    bytes,
                    probe_file,
                    phase: PartPhase::Load { reader, file },
                };
                proof {
                    j.work_not_farther(&me);
                }
                Ok(PartNext::Need(j, ranges))
            },
            ReadStep::End => {
                let d = storage.delete_temp_file(file);
                proof {
                    untouched_but(&s0, storage, file.0, me.files());
                    assert(s0.same_file(storage, probe_file.0));
                    if me.good(params) {
                        assert(table.rows() + rest =~= table.rows());
                    }
                }
                let j = PartJoin {
                    build_is_left,
                    table,
                    bytes,
                    probe_file,
                    phase: PartPhase::Open,
                };
                proof {
                    j.work_nearer(&me);
                }
                Ok(PartNext::Again(j))
            },
            ReadStep::Row(row) => {
                proof {
                    if me.good(params) {
                        lemma_all_len_drop(rest, len);
                    }
                }
                match params.check_len(build_is_left, &row) {
                    Ok(_) => {},
                    Err(e) => {
                        return Err(e);
                    },
                }
                let keys = params.keys_of(build_is_left);
                let row_bytes: usize = estimate_hash_build_row_bytes(&row, keys);
                let more: usize = match bytes.checked_add(row_bytes) {
                    Some(n) => n,
                    None => {
                        proof {
                            assert forall|ls: Seq<Seq<Value>>, rs: Seq<Seq<Value>>| #[trigger]
                                me.within(&s0, ls, rs) && me.good(params) implies parts_fail(
                                params@,
                                DbError::MemoryAccountingOverflow(row_bytes),
                                ls,
                                rs,
                                old(memory)@,
                                storage,
                            ) by {
                                lemma_no_memory(
                                    params,
                                    DbError::MemoryAccountingOverflow(row_bytes),
                                    build_is_left,
                                    ls,
                                    rs,
                                    row@,
                                    old(memory)@,
                                    storage,
                                );
                            }
                        }
                        return Err(DbError::MemoryAccountingOverflow(row_bytes));
                    },
                };
                match memory.try_reserve(row_bytes) {
                    Ok(_) => {},
                    Err(e) => {
                        proof {
                            assert forall|ls: Seq<Seq<Value>>, rs: Seq<Seq<Value>>| #[trigger]
                                me.within(&s0, ls, rs) && me.good(params) implies parts_fail(
                                params@,
                                e,
                                ls,
                                rs,
                                old(memory)@,
                                storage,
                            ) by {
                                lemma_no_memory(
                                    params,
                                    e,
                                    build_is_left,
                                    ls,
                                    rs,
                                    row@,
                                    old(memory)@,
                                    storage,
                                );
                            }
                        }
                        return Err(e);
                    },
                }
                let ghost rv = row@;
                let ghost before = table.rows();
                table.insert(row, keys);
                proof {
                    if me.good(params) {
                        assert(before.push(rv) + rest.drop_first() =~= before + rest);
                        assert forall|ls: Seq<Seq<Value>>, rs: Seq<Seq<Value>>| #[trigger]
                            me.within(&s0, ls, rs) implies all_in(
                            before.push(rv),
                            if build_is_left {
                                ls
                            } else {
                                rs
                            },
                        ) && all_in(
                            rest.drop_first(),
                            if build_is_left {
                                ls
                            } else {
                                rs
                            },
                        ) by {
                            lemma_moved(
                                before,
                                rest,
                                if build_is_left {
                                    ls
                                } else {
                                    rs
                                },
                            );
                        }
                    }
                }
                let j = PartJoin {
                    build_is_left,
                    table,
                    bytes: more,
                    probe_file,
                    phase: PartPhase::Load { reader, file },
                };
                proof {
                    j.work_nearer(&me);
                }
                Ok(PartNext::Again(j))
            },
        }
    }

    /// Gives the next match out, or reads the next probe row.
    #[verifier::rlimit(60)]
    fn probe_row(
        reader: TempRunReader,
        pending: Option<PendingProbeMatches>,
        build_is_left: bool,
        table: JoinTable,
        bytes: usize,
        probe_file: TempFileId,
        full: bool,
        params: &JoinParams,
        memory: &mut QueryMemoryManager,
        storage: &mut TempStorageManager,
    ) -> (r: Result<PartNext, DbError>)
        requires
            (PartJoin {
                build_is_left,
                table,
                bytes,
                probe_file,
                phase: PartPhase::Probe { reader, pending },
            }).ok(params, old(storage)),
            old(memory)@.inv(),
            bytes <= old(memory)@.used,
        ensures
            final(storage).inv(),
            final(memory)@.inv(),
            ({
                let me = PartJoin {
                    build_is_left,
                    table,
                    bytes,
                    probe_file,
                    phase: PartPhase::Probe { reader, pending },
                };
                &&& untouched(old(storage), final(storage), me.files())
                &&& same_room(old(storage), final(storage))
                &&& part_nearer(r, me)
                &&& forall|ls: Seq<Seq<Value>>, rs: Seq<Seq<Value>>| #[trigger]
                    me.within(old(storage), ls, rs) && me.good(params) ==> stays_within(
                        r,
                        params,
                        ls,
                        rs,
                        old(memory)@,
                        final(storage),
                    )
                &&& match r {
                    Ok(PartNext::Need(j, ranges)) => {
                        &&& j.ok(params, final(storage))
                        &&& j.files() == me.files()
                        &&& j.build_is_left == build_is_left
                        &&& final(memory)@.used + bytes == old(memory)@.used + j.bytes
                        &&& j.waiting()
                        &&& forall|data: Seq<u8>|
                            is_content(
                                final(storage).disk(),
                                blocks_of(ranges@),
                                data,
                                final(storage).size() as int,
                            ) ==> #[trigger] j.expects(data)
                        &&& me.good(params) ==> j.good(params) && j.rest(
                            full,
                            params@,
                            final(storage),
                        ) == me.rest(full, params@, old(storage))
                    },
                    Ok(PartNext::Again(j)) => {
                        &&& j.ok(params, final(storage))
                        &&& j.files() == me.files()
                        &&& j.build_is_left == build_is_left
                        &&& final(memory)@.used + bytes == old(memory)@.used + j.bytes
                        &&& me.good(params) ==> j.good(params) && j.rest(
                            full,
                            params@,
                            final(storage),
                        ) == me.rest(full, params@, old(storage))
                    },
                    Ok(PartNext::Row(j, row)) => {
                        &&& j.ok(params, final(storage))
                        &&& j.files() == me.files()
                        &&& j.build_is_left == build_is_left
                        &&& final(memory)@.used + bytes == old(memory)@.used + j.bytes
                        &&& me.good(params) ==> j.good(params) && me.rest(
                            full,
                            params@,
                            old(storage),
                        ) == j.rest(full, params@, final(storage)).insert(row@)
                    },
                    Ok(PartNext::Finished) => {
                        &&& final(memory)@.used + bytes == old(memory)@.used
                        &&& me.good(params) ==> me.rest(full, params@, old(storage)) == Multiset::<
                            Seq<Value>,
                        >::empty()
                    },
                    Err(_) => true,
                }
            }),
    {
        let ghost me = PartJoin {
            build_is_left,
            table,
            bytes,
            probe_file,
            phase: PartPhase::Probe { reader, pending },
        };
        let ghost s0 = *storage;
        let ghost on = params@;
        let ghost none = Multiset::<Seq<Value>>::empty();
        let ghost len = params.build_len(!build_is_left);
        let ghost rest = reader.remaining();
        let ghost t = total(full, on, build_is_left, table.rows(), rest);
        let mut reader = reader;
        proof {
            reveal(PartJoin::within);
            untouched_same(&s0, storage, me.files());
        }
        if let Some(p) = pending {
            let mut p = p;
            let ghost before = p.rest(on, build_is_left, &table);
            match emit_pending_match(&mut p, params, build_is_left, &table) {
                Ok(Some(row)) => {
                    proof {
                        let after = p.rest(on, build_is_left, &table);
                        assert(before.add(t) =~= after.add(t).insert(row@));
                    }
                    let j = PartJoin {
                        build_is_left,
                        table,
                        bytes,
                        probe_file,
                        phase: PartPhase::Probe { reader, pending: Some(p) },
                    };
                    proof {
                        j.work_nearer(&me);
                    }
                    return Ok(PartNext::Row(j, row));
                },
                Ok(None) => {},
                Err(e) => {
                    proof {
                        assert forall|ls: Seq<Seq<Value>>, rs: Seq<Seq<Value>>| #[trigger]
                            me.within(&s0, ls, rs) && me.good(params) implies undecided(
                            on,
                            e,
                            ls,
                            rs,
                        ) by {
                            lemma_part_undecided(
                                on,
                                build_is_left,
                                table.rows(),
                                p.probe_row@,
                                ls,
                                rs,
                            );
                        }
                    }
                    return Err(e);
                },
            }
        }
        proof {
            assert(pending_rest(pending, on, build_is_left, &table) == none);
            assert(none.add(t) =~= t);
        }
        let read = match reader.next_row(storage) {
            Ok(s) => s,
            Err(e) => {
                return Err(e);
            },
        };
        match read {
            ReadStep::Need(ranges) => {
                let j = PartJoin {
                    build_is_left,
                    table,
                    bytes,
                    probe_file,
                    phase: PartPhase::Probe { reader, pending: None },
                };
                proof {
                    j.work_not_farther(&me);
                }
                Ok(PartNext::Need(j, ranges))
            },
            ReadStep::End => {
                let d = storage.delete_temp_file(probe_file);
                proof {
                    untouched_but(&s0, storage, probe_file.0, me.files());
                    if me.good(params) {
                        assert(rest =~= Seq::<Seq<Value>>::empty());
                    }
                }
                memory.release(bytes);
                Ok(PartNext::Finished)
            },
            ReadStep::Row(row) => {
                proof {
                    if me.good(params) {
                        lemma_all_len_drop(rest, len);
                        lemma_total_first(full, on, build_is_left, table.rows(), rest);
                        assert forall|ls: Seq<Seq<Value>>, rs: Seq<Seq<Value>>| #[trigger]
                            me.within(&s0, ls, rs) implies (if build_is_left {
                            rs
                        } else {
                            ls
                        }).contains(row@) && all_in(
                            rest.drop_first(),
                            if build_is_left {
                                rs
                            } else {
                                ls
                            },
                        ) by {
                            lemma_moved(
                                Seq::empty(),
                                rest,
                                if build_is_left {
                                    rs
                                } else {
                                    ls
                                },
                            );
                        }
                    }
                }
                match params.check_len(!build_is_left, &row) {
                    Ok(_) => {},
                    Err(e) => {
                        return Err(e);
                    },
                }
                let ghost more = total(
                    full,
                    on,
                    build_is_left,
                    table.rows(),
                    reader.remaining(),
                );
                if full {
                    let p = start_probe(row, params, build_is_left, &table);
                    let j = PartJoin {
                        build_is_left,
                        table,
                        bytes,
                        probe_file,
                        phase: PartPhase::Probe { reader, pending: Some(p) },
                    };
                    proof {
                        j.work_nearer(&me);
                    }
                    return Ok(PartNext::Again(j));
                }
                match probe_row_has_qualifying_match(&row, params, build_is_left, &table) {
                    Ok(found) => {
                        let j = PartJoin {
                            build_is_left,
                            table,
                            bytes,
                            probe_file,
                            phase: PartPhase::Probe { reader, pending: None },
                        };
                        proof {
                            j.work_nearer(&me);
                            if me.good(params) {
                                assert(none.add(more) =~= more);
                                if found {
                                    assert(Multiset::singleton(row@).add(more) =~= more.insert(
                                        row@,
                                    ));
                                }
                            }
                        }
                        if found {
                            Ok(PartNext::Row(j, row))
                        } else {
                            Ok(PartNext::Again(j))
                        }
                    },
                    Err(e) => {
                        proof {
                            assert forall|ls: Seq<Seq<Value>>, rs: Seq<Seq<Value>>| #[trigger]
                                me.within(&s0, ls, rs) && me.good(params) implies undecided(
                                on,
                                e,
                                ls,
                                rs,
                            ) by {
                                lemma_part_undecided(
                                    on,
                                    build_is_left,
                                    table.rows(),
                                    row@,
                                    ls,
                                    rs,
                                );
                            }
                        }
                        Err(e)
                    },
                }
            },
        }
    }

    /// Takes the data that was asked for.
    pub fn supply(
        &mut self,
        data: Vec<u8>,
        Ghost(params): Ghost<JoinParams>,
        Ghost(storage): Ghost<TempStorageManager>,
    ) -> (r: Result<(), DbError>)
        requires
            old(self).ok(&params, &storage),
            old(self).waiting(),
        ensures
            r is Ok ==> final(self).ok(&params, &storage),
            final(self).files() == old(self).files(),
            final(self).build_is_left == old(self).build_is_left,
            final(self).bytes == old(self).bytes,
            r is Ok && old(self).expects(data@) && old(self).good(&params) ==> final(self).good(
                &params,
            ) && forall|full: bool| #[trigger]
                final(self).rest(full, params@, &storage) == old(self).rest(
                    full,
                    params@,
                    &storage,
                ),
            old(self).expects(data@) ==> r is Ok,
            r is Ok && old(self).expects(data@) && old(self).good(&params) ==> forall|
                ls: Seq<Seq<Value>>,
                rs: Seq<Seq<Value>>,
            | #[trigger]
                old(self).within(&storage, ls, rs) ==> final(self).within(&storage, ls, rs),
            r is Ok ==> nearer(final(self).left_to_do(), old(self).left_to_do()),
    {
        proof {
            reveal(PartJoin::within);
        }
        let r = match &mut self.phase {
            PartPhase::Load { reader, .. } => reader.supply(data),
            PartPhase::Open => Ok(()),
            PartPhase::Probe { reader, .. } => reader.supply(data),
        };
        proof {
            if r is Ok {
                self.work_nearer(old(self));
            }
        }
        r
    }
}

} // verus!

//! Joining one partition: loading the build side, probing it, and the nested loop for partitions
//! that do not fit.

use vstd::multiset::Multiset;
use vstd::prelude::*;
use crate::error::DbError;
use crate::join_plan::HASH_JOIN_ENTRY_OVERHEAD_BYTES;
use crate::join_spec::{JoinOn, join_sides, lemma_probe_first};
use crate::join_table::{JoinParams, JoinTable, all_len, decided_for_fewer, decided_sides, lemma_all_in_self, lemma_all_in_tail, lemma_undecided, make_key, matches_are_contribution, sides_fail};
use crate::row::Row;
use crate::temp_run::{ReadStep, TempRunReader};
use crate::temp_storage::{BlockRange, TempStorageManager};
use crate::value::Value;
use crate::views::rows_of;

verus! {

broadcast use crate::views::lemma_rows_of_push;

/// The rows of a list without their order.
pub open spec fn bag(rows: Seq<Row>) -> Multiset<Seq<Value>> {
    rows_of(rows).to_multiset()
}

pub proof fn lemma_bag_empty()
    ensures
        Seq::<Seq<Value>>::empty().to_multiset() == Multiset::<Seq<Value>>::empty(),
{
    broadcast use vstd::seq_lib::group_to_multiset_ensures;

    assert(Seq::<Seq<Value>>::empty().to_multiset() =~= Multiset::<Seq<Value>>::empty());
}

pub proof fn lemma_bag_pop(rows: Seq<Row>)
    requires
        rows.len() > 0,
    ensures
        bag(rows) == bag(rows.drop_last()).insert(rows.last()@),
{
    broadcast use vstd::seq_lib::group_to_multiset_ensures;

    assert(rows_of(rows) =~= rows_of(rows.drop_last()).push(rows.last()@));
}

pub proof fn lemma_all_len_drop(rows: Seq<Seq<Value>>, len: nat)
    requires
        all_len(rows, len),
        rows.len() > 0,
    ensures
        all_len(rows.drop_first(), len),
        rows[0].len() == len,
{
    assert forall|i: int| 0 <= i < rows.drop_first().len() implies (
    #[trigger] rows.drop_first()[i]).len() == len by {
        assert(rows.drop_first()[i] == rows[i + 1]);
    }
}

/// Whether a reader can go on with a storage.
pub open spec fn reader_ok(reader: &TempRunReader, storage: &TempStorageManager) -> bool {
    &&& reader.inv()
    &&& reader.size() == storage.size()
    &&& reader.source_intact(storage)
}

/// Whether a reader will give rows of the given length.
pub open spec fn reader_good(reader: &TempRunReader, len: nat) -> bool {
    reader.readable() && all_len(reader.remaining(), len)
}

/// What a step of joining a partition comes to.
#[derive(Debug)]
pub enum PartStep {
    /// These blocks are needed.
    Need(Vec<BlockRange>),
    /// Some work was done.
    Again,
    /// These rows were found.
    Rows(Vec<Row>),
    /// The partition is done.
    Finished,
}

/// Probes the hash table of the build side with the rows of a run.
pub struct HashProbe {
    table: JoinTable,
    reader: TempRunReader,
    build_is_left: bool,
}

impl HashProbe {
    pub closed spec fn file(&self) -> u64 {
        self.reader.file()
    }

    pub closed spec fn waiting(&self) -> bool {
        self.reader.waiting()
    }

    pub closed spec fn expects(&self, data: Seq<u8>) -> bool {
        self.reader.expects(data)
    }

    /// How much is left to do.
    pub closed spec fn left_to_do(&self) -> nat {
        self.reader.left_to_do()
    }

    pub closed spec fn ok(&self, params: &JoinParams, storage: &TempStorageManager) -> bool {
        &&& params.inv()
        &&& storage.inv()
        &&& self.table.inv(
            params.build_at(self.build_is_left),
            params.build_len(self.build_is_left),
        )
        &&& reader_ok(&self.reader, storage)
    }

    pub closed spec fn good(&self, params: &JoinParams) -> bool {
        reader_good(&self.reader, params.build_len(!self.build_is_left))
    }

    /// What is still to be found.
    pub closed spec fn rest(&self, on: JoinOn) -> Multiset<Seq<Value>> {
        join_sides(on, self.build_is_left, self.table.rows(), self.reader.remaining())
    }

    /// Whether all pairs that are still to be tested have answers.
    pub closed spec fn safe(&self, on: JoinOn) -> bool {
        decided_sides(on, self.build_is_left, self.table.rows(), self.reader.remaining())
    }

    pub proof fn ok_kept(
        &self,
        params: &JoinParams,
        before: &TempStorageManager,
        after: &TempStorageManager,
    )
        requires
            self.ok(params, before),
            after.inv(),
            before.size() == after.size(),
            before.same_file(after, self.file()),
        ensures
            self.ok(params, after),
    {
    }

    pub proof fn ok_gives(&self, params: &JoinParams, storage: &TempStorageManager)
        requires
            self.ok(params, storage),
        ensures
            storage.has_file(self.file()),
    {
    }

    pub fn new(
        table: JoinTable,
        reader: TempRunReader,
        build_is_left: bool,
        params: &JoinParams,
        storage: &TempStorageManager,
    ) -> (r: HashProbe)
        requires
            params.inv(),
            storage.inv(),
            table.inv(params.build_at(build_is_left), params.build_len(build_is_left)),
            reader_ok(&reader, storage),
        ensures
            r.ok(params, storage),
            r.file() == reader.file(),
            r.good(params) <==> reader_good(&reader, params.build_len(!build_is_left)),
            r.safe(params@) == decided_sides(
                params@,
                build_is_left,
                table.rows(),
                reader.remaining(),
            ),
            r.rest(params@) == join_sides(
                params@,
                build_is_left,
                table.rows(),
                reader.remaining(),
            ),
    {
        HashProbe { table, reader, build_is_left }
    }

    pub fn step(&mut self, params: &JoinParams, storage: &TempStorageManager) -> (r: Result<
        PartStep,
        DbError,
    >)
        requires
            old(self).ok(params, storage),
        ensures
            r is Ok ==> final(self).ok(params, storage),
            final(self).file() == old(self).file(),
            r matches Ok(PartStep::Need(ranges)) ==> final(self).waiting() && (forall|
                data: Seq<u8>,
            |
                crate::temp_run::is_content(
                    storage.disk(),
                    crate::temp_run::blocks_of(ranges@),
                    data,
                    storage.size() as int,
                ) ==> #[trigger] final(self).expects(data)),
            r is Ok && old(self).good(params) ==> final(self).good(params) && (match r->Ok_0 {
                PartStep::Rows(rows) => old(self).rest(params@) == bag(rows@).add(
                    final(self).rest(params@),
                ),
                PartStep::Finished => old(self).rest(params@) == Multiset::<Seq<Value>>::empty(),
                _ => final(self).rest(params@) == old(self).rest(params@),
            }),
            r is Err && old(self).good(params) ==> r->Err_0 is IncomparableValues && !old(
                self,
            ).safe(params@),
            r is Ok && old(self).good(params) && old(self).safe(params@) ==> final(self).safe(
                params@,
            ),
            !(r matches Ok(PartStep::Again)),
            r is Ok ==> final(self).left_to_do() <= old(self).left_to_do(),
            r matches Ok(PartStep::Rows(_)) ==> final(self).left_to_do() < old(self).left_to_do(),
    {
        let ghost on = params@;
        let ghost before = self.reader.remaining();
        let read = match self.reader.next_row(storage) {
            Ok(s) => s,
            Err(e) => {
                return Err(e);
            },
        };
        match read {
            ReadStep::Need(ranges) => Ok(PartStep::Need(ranges)),
            ReadStep::End => {
                proof {
                    if old(self).good(params) {
                        assert(before =~= Seq::<Seq<Value>>::empty());
                        crate::join_spec::lemma_join_empty_right(on, self.table.rows());
                    }
                }
                Ok(PartStep::Finished)
            },
            ReadStep::Row(p) => {
                proof {
                    if old(self).good(params) {
                        lemma_all_len_drop(before, params.build_len(!self.build_is_left));
                    }
                }
                match params.check_len(!self.build_is_left, &p) {
                    Ok(_) => {},
                    Err(e) => {
                        return Err(e);
                    },
                }
                let rows = match self.table.matches(params, self.build_is_left, &p) {
                    Ok(v) => v,
                    Err(e) => {
                        proof {
                            let all = self.table.rows();
                            let i = choose|i: int|
                                0 <= i < all.len() && sides_fail(
                                    on,
                                    self.build_is_left,
                                    #[trigger] all[i],
                                    p@,
                                );
                            if old(self).good(params) {
                                lemma_undecided(on, self.build_is_left, all, before, i, 0);
                            }
                        }
                        return Err(e);
                    },
                };
                proof {
                    if old(self).good(params) && old(self).safe(on) {
                        lemma_all_in_self(self.table.rows());
                        lemma_all_in_tail(before);
                        decided_for_fewer(
                            on,
                            self.build_is_left,
                            self.table.rows(),
                            before,
                            self.table.rows(),
                            before.drop_first(),
                        );
                    }
                }
                proof {
                    if old(self).good(params) {
                        lemma_probe_first(on, self.build_is_left, self.table.rows(), before);
                        matches_are_contribution(
                            on,
                            self.build_is_left,
                            self.table.rows(),
                            p@,
                        );
                    }
                }
                Ok(PartStep::Rows(rows))
            },
        }
    }

    pub fn supply(&mut self, data: Vec<u8>) -> (r: Result<(), DbError>)
        requires
            old(self).waiting(),
            exists|params: &JoinParams, s: &TempStorageManager| #[trigger] old(self).ok(params, s),
        ensures
            final(self).file() == old(self).file(),
            forall|params: &JoinParams, s: &TempStorageManager| #[trigger]
                old(self).ok(params, s) ==> final(self).ok(params, s),
            forall|params: &JoinParams| r is Ok && old(self).expects(data@) && old(self).good(
                params,
            ) ==> #[trigger] final(self).good(params),
            forall|on: JoinOn, params: &JoinParams|
                r is Ok && old(self).expects(data@) && #[trigger] old(self).good(params)
                    ==> #[trigger] final(self).rest(on) == old(self).rest(on),
            forall|on: JoinOn, params: &JoinParams|
                r is Ok && old(self).expects(data@) && #[trigger] old(self).good(params)
                    ==> #[trigger] final(self).safe(on) == old(self).safe(on),
            old(self).expects(data@) ==> r is Ok,
            r is Ok ==> final(self).left_to_do() < old(self).left_to_do(),
    {
        self.reader.supply(data)
    }
}

/// What loading the build side comes to.
#[derive(Debug)]
pub enum LoadStep {
    Need(Vec<BlockRange>),
    Again,
    /// The build side does not fit its budget.
    Overflow,
    /// The build side is loaded.
    Loaded,
}

/// Loads the build side of a partition into a hash table.
pub struct BuildLoad {
    table: JoinTable,
    reader: TempRunReader,
    build_is_left: bool,
    bytes_used: usize,
    budget: usize,
}

/// The memory in use after another entry: the row, its key, and the overhead of an entry.
pub fn projected_bytes(bytes_used: usize, row_bytes: usize, key_bytes: usize) -> (r: usize)
    ensures
        r as int == crate::join_plan::saturated(bytes_used + row_bytes + key_bytes + 64),
{
    bytes_used.saturating_add(row_bytes).saturating_add(key_bytes).saturating_add(
        HASH_JOIN_ENTRY_OVERHEAD_BYTES,
    )
}

impl BuildLoad {
    pub closed spec fn file(&self) -> u64 {
        self.reader.file()
    }

    pub closed spec fn waiting(&self) -> bool {
        self.reader.waiting()
    }

    pub closed spec fn expects(&self, data: Seq<u8>) -> bool {
        self.reader.expects(data)
    }

    pub closed spec fn build_side(&self) -> bool {
        self.build_is_left
    }

    /// The rows loaded so far.
    pub closed spec fn loaded(&self) -> Seq<Seq<Value>> {
        self.table.rows()
    }

    /// How much is left to do.
    pub closed spec fn left_to_do(&self) -> nat {
        self.reader.left_to_do()
    }

    pub closed spec fn ok(&self, params: &JoinParams, storage: &TempStorageManager) -> bool {
        &&& params.inv()
        &&& storage.inv()
        &&& self.table.inv(
            params.build_at(self.build_is_left),
            params.build_len(self.build_is_left),
        )
        &&& reader_ok(&self.reader, storage)
    }

    /// The loaded rows and those to come are `all`.
    pub closed spec fn good(&self, params: &JoinParams, all: Seq<Seq<Value>>) -> bool {
        &&& reader_good(&self.reader, params.build_len(self.build_is_left))
        &&& self.table.rows() + self.reader.remaining() == all
    }

    pub proof fn ok_kept(
        &self,
        params: &JoinParams,
        before: &TempStorageManager,
        after: &TempStorageManager,
    )
        requires
            self.ok(params, before),
            after.inv(),
            before.size() == after.size(),
            before.same_file(after, self.file()),
        ensures
            self.ok(params, after),
    {
    }

    pub fn new(
        reader: TempRunReader,
        build_is_left: bool,
        budget: usize,
        params: &JoinParams,
        storage: &TempStorageManager,
    ) -> (r: BuildLoad)
        requires
            params.inv(),
            storage.inv(),
            reader_ok(&reader, storage),
        ensures
            r.ok(params, storage),
            r.file() == reader.file(),
            r.build_side() == build_is_left,
            reader_good(&reader, params.build_len(build_is_left)) ==> r.good(
                params,
                reader.remaining(),
            ),
    {
        let table = JoinTable::new();
        assert(table.rows() + reader.remaining() =~= reader.remaining());
        BuildLoad { table, reader, build_is_left, bytes_used: 0, budget }
    }

    pub fn step(&mut self, params: &JoinParams, storage: &TempStorageManager) -> (r: Result<
        LoadStep,
        DbError,
    >)
        requires
            old(self).ok(params, storage),
        ensures
            r is Ok ==> final(self).ok(params, storage),
            final(self).file() == old(self).file(),
            final(self).build_side() == old(self).build_side(),
            r matches Ok(LoadStep::Need(ranges)) ==> final(self).waiting() && (forall|
                data: Seq<u8>,
            |
                crate::temp_run::is_content(
                    storage.disk(),
                    crate::temp_run::blocks_of(ranges@),
                    data,
                    storage.size() as int,
                ) ==> #[trigger] final(self).expects(data)),
            r is Ok ==> final(self).left_to_do() <= old(self).left_to_do(),
            r matches Ok(LoadStep::Again) ==> final(self).left_to_do() < old(self).left_to_do(),
            forall|all: Seq<Seq<Value>>| #[trigger]
                old(self).good(params, all) ==> r is Ok && (match r->Ok_0 {
                    LoadStep::Need(_) | LoadStep::Again => final(self).good(params, all),
                    LoadStep::Overflow => true,
                    LoadStep::Loaded => final(self).loaded() == all,
                }),
    {
        let ghost before = self.reader.remaining();
        let ghost len = params.build_len(self.build_is_left);
        let read = match self.reader.next_row(storage) {
            Ok(s) => s,
            Err(e) => {
                return Err(e);
            },
        };
        match read {
            ReadStep::Need(ranges) => Ok(LoadStep::Need(ranges)),
            ReadStep::End => {
                proof {
                    assert forall|all: Seq<Seq<Value>>| #[trigger]
                        old(self).good(params, all) implies self.table.rows() == all by {
                        assert(self.table.rows() + before =~= self.table.rows());
                    }
                }
                Ok(LoadStep::Loaded)
            },
            ReadStep::Row(row) => {
                proof {
                    if reader_good(&old(self).reader, len) {
                        lemma_all_len_drop(before, len);
                    }
                }
                match params.check_len(self.build_is_left, &row) {
                    Ok(_) => {},
                    Err(e) => {
                        return Err(e);
                    },
                }
                let keys = params.keys_of(self.build_is_left);
                let key = make_key(&row, keys);
                let projected: usize = projected_bytes(
                    self.bytes_used,
                    row.estimate_heap_size(),
                    key.estimate_heap_size(),
                );
                if projected > self.budget {
                    return Ok(LoadStep::Overflow);
                }
                self.bytes_used = projected;
                let ghost rv = row@;
                let ghost so_far = self.table.rows();
                self.table.insert(row, keys);
                proof {
                    assert forall|all: Seq<Seq<Value>>| #[trigger]
                        old(self).good(params, all) implies self.good(params, all) by {
                        assert(so_far.push(rv) + before.drop_first() =~= so_far + before);
                    }
                }
                Ok(LoadStep::Again)
            },
        }
    }

    pub fn is_build_left(&self) -> (r: bool)
        ensures
            r == self.build_side(),
    {
        self.build_is_left
    }

    /// Gives the table.
    pub fn into_table(self) -> (r: JoinTable)
        requires
            exists|params: &JoinParams, s: &TempStorageManager| #[trigger] self.ok(params, s),
        ensures
            r.rows() == self.loaded(),
            forall|params: &JoinParams, s: &TempStorageManager| #[trigger]
                self.ok(params, s) ==> r.inv(
                    params.build_at(self.build_side()),
                    params.build_len(self.build_side()),
                ),
    {
        self.table
    }

    pub fn supply(&mut self, data: Vec<u8>) -> (r: Result<(), DbError>)
        requires
            old(self).waiting(),
            exists|params: &JoinParams, s: &TempStorageManager| #[trigger] old(self).ok(params, s),
        ensures
            final(self).file() == old(self).file(),
            final(self).build_side() == old(self).build_side(),
            forall|params: &JoinParams, s: &TempStorageManager| #[trigger]
                old(self).ok(params, s) ==> final(self).ok(params, s),
            forall|params: &JoinParams, all: Seq<Seq<Value>>|
                r is Ok && old(self).expects(data@) && #[trigger] old(self).good(params, all)
                    ==> final(self).good(params, all),
            old(self).expects(data@) ==> r is Ok,
            r is Ok ==> final(self).left_to_do() < old(self).left_to_do(),
    {
        self.reader.supply(data)
    }
}

} // verus!

//! Block nested loops: batches of outer rows against all inner rows.

use vstd::multiset::Multiset;
use vstd::prelude::*;
use crate::error::DbError;
use crate::join_plan::HASH_JOIN_BUILD_READER_PAGES;
use crate::join_spec::{JoinOn, cannot_compare, join_sides, join_splits_left, join_splits_right, lemma_probe_first, probe_with};
use crate::join_table::{JoinParams, all_len, decided_for_fewer, decided_sides, lemma_all_in_self, lemma_all_in_sum, lemma_all_in_tail, lemma_matches_front, lemma_undecided, matches_are_contribution, matches_of, sides_fail};
use crate::partition_join::{PartStep, bag, lemma_all_len_drop, reader_good, reader_ok};
use crate::progress::{nearer, nearer_at, not_farther, not_farther_if};
use crate::row::Row;
use crate::temp_run::{ReadStep, TempRunReader, blocks_of, is_content, run_of};
use crate::temp_storage::{TempFileId, TempStorageManager, out_of_room};
use crate::value::Value;
use crate::views::rows_of;

verus! {

/// What a step does to what is left to do: one that finds rows, or does some work, comes nearer
/// to the end.
pub open spec fn comes_nearer(
    r: Result<PartStep, DbError>,
    after: Seq<nat>,
    before: Seq<nat>,
) -> bool {
    match r {
        Ok(PartStep::Need(_)) => not_farther(after, before),
        Ok(PartStep::Again) | Ok(PartStep::Rows(_)) => nearer(after, before),
        _ => true,
    }
}

broadcast use crate::views::lemma_rows_of_push;

/// The rows that an inner row makes with a batch of outer rows, from the last outer row to the
/// first.
pub fn nested_matches(params: &JoinParams, inner_is_left: bool, inner: &Row, batch: &[Row]) -> (r:
    Result<Vec<Row>, DbError>)
    requires
        params.inv(),
        inner@.len() == params.build_len(inner_is_left),
        all_len(rows_of(batch@), params.build_len(!inner_is_left)),
    ensures
        r matches Ok(v) ==> rows_of(v@) == matches_of(
            params@,
            !inner_is_left,
            rows_of(batch@),
            inner@,
        ).reverse() && bag(v@) == probe_with(params@, !inner_is_left, rows_of(batch@), inner@),
        r is Ok <==> forall|i: int|
            0 <= i < batch@.len() ==> !sides_fail(
                params@,
                !inner_is_left,
                #[trigger] rows_of(batch@)[i],
                inner@,
            ),
        r matches Err(e) ==> cannot_compare(params@, e),
{
    let ghost on = params@;
    let ghost left = !inner_is_left;
    let ghost all = rows_of(batch@);
    let mut out: Vec<Row> = Vec::new();
    let mut i: usize = batch.len();
    proof {
        assert(all.skip(all.len() as int) =~= Seq::<Seq<Value>>::empty());
        assert(rows_of(out@) =~= matches_of(on, left, all.skip(i as int), inner@).reverse());
    }
    while i > 0
        invariant
            i <= batch@.len(),
            params.inv(),
            on == params@,
            left == !inner_is_left,
            all == rows_of(batch@),
            inner@.len() == params.build_len(inner_is_left),
            all_len(all, params.build_len(!inner_is_left)),
            rows_of(out@) == matches_of(on, left, all.skip(i as int), inner@).reverse(),
            forall|j: int|
                i <= j < batch@.len() ==> !sides_fail(on, left, #[trigger] all[j], inner@),
        decreases i,
    {
        i = i - 1;
        let ghost tail = all.skip(i as int);
        proof {
            assert(tail.drop_first() =~= all.skip(i + 1));
            assert(tail[0] == all[i as int]);
            assert(all[i as int] == batch@[i as int]@);
            lemma_matches_front(on, left, tail, inner@);
        }
        let ghost before = matches_of(on, left, tail.drop_first(), inner@);
        match params.test_sides(!inner_is_left, &batch[i], inner) {
            Ok(Some(m)) => {
                out.push(m);
                proof {
                    assert((seq![m@] + before).reverse() =~= before.reverse().push(m@));
                }
            },
            Ok(None) => {},
            Err(e) => {
                return Err(e);
            },
        }
    }
    proof {
        assert(all.skip(0) =~= all);
        let ms = matches_of(on, left, all, inner@);
        ms.lemma_reverse_to_multiset();
        matches_are_contribution(on, left, all, inner@);
    }
    Ok(out)
}

/// Joins a partition by nested loops: batches of the outer run against the whole inner run.
pub struct NestedLoop {
    inner_file: TempFileId,
    inner_is_left: bool,
    outer: TempRunReader,
    batch: Vec<Row>,
    bytes: usize,
    target: usize,
    inner: Option<TempRunReader>,
}

impl NestedLoop {
    pub closed spec fn inner_run(&self) -> u64 {
        self.inner_file.0
    }

    pub closed spec fn outer_run(&self) -> u64 {
        self.outer.file()
    }

    pub closed spec fn waiting(&self) -> bool {
        match self.inner {
            Some(r) => r.waiting(),
            None => self.outer.waiting(),
        }
    }

    pub closed spec fn expects(&self, data: Seq<u8>) -> bool {
        match self.inner {
            Some(r) => r.expects(data),
            None => self.outer.expects(data),
        }
    }

    /// How much is left to do: of the outer run, whether a batch waits for its scan or is in
    /// one, and of the inner run.
    pub closed spec fn left_to_do(&self) -> Seq<nat> {
        let (stage, scan): (nat, nat) = match self.inner {
            Some(r) => (1, r.left_to_do()),
            None => (
                if self.batch@.len() > 0 {
                    2
                } else {
                    0
                },
                0,
            ),
        };
        seq![self.outer.left_to_do(), stage, scan]
    }

    pub proof fn left_is_three(&self)
        ensures
            self.left_to_do().len() == 3,
    {
    }

    pub closed spec fn ok(&self, params: &JoinParams, storage: &TempStorageManager) -> bool {
        &&& params.inv()
        &&& storage.inv()
        &&& reader_ok(&self.outer, storage)
        &&& run_of(storage, self.inner_file.0) is Some
        &&& all_len(
            run_of(storage, self.inner_file.0)->0,
            params.build_len(self.inner_is_left),
        )
        &&& all_len(rows_of(self.batch@), params.build_len(!self.inner_is_left))
        &&& self.inner matches Some(r) ==> reader_ok(&r, storage) && r.file() == self.inner_file.0
    }

    pub closed spec fn good(&self, params: &JoinParams) -> bool {
        &&& reader_good(&self.outer, params.build_len(!self.inner_is_left))
        &&& self.inner matches Some(r) ==> reader_good(&r, params.build_len(self.inner_is_left))
    }

    /// What is still to be found.
    pub closed spec fn rest(&self, on: JoinOn, storage: &TempStorageManager) -> Multiset<
        Seq<Value>,
    > {
        let all = run_of(storage, self.inner_file.0)->0;
        match self.inner {
            None => join_sides(
                on,
                self.inner_is_left,
                all,
                rows_of(self.batch@) + self.outer.remaining(),
            ),
            Some(r) => join_sides(
                on,
                !self.inner_is_left,
                rows_of(self.batch@),
                r.remaining(),
            ).add(join_sides(on, self.inner_is_left, all, self.outer.remaining())),
        }
    }

    /// Whether all pairs that are still to be tested have answers.
    pub closed spec fn safe(&self, on: JoinOn, storage: &TempStorageManager) -> bool {
        &&& decided_sides(
            on,
            self.inner_is_left,
            run_of(storage, self.inner_file.0)->0,
            rows_of(self.batch@) + self.outer.remaining(),
        )
        &&& self.inner matches Some(r) ==> decided_sides(
            on,
            self.inner_is_left,
            r.remaining(),
            rows_of(self.batch@),
        )
    }

    pub proof fn ok_kept(
        &self,
        params: &JoinParams,
        before: &TempStorageManager,
        after: &TempStorageManager,
    )
        requires
            self.ok(params, before),
            after.inv(),
            before.size() == after.size(),
            before.same_file(after, self.inner_run()),
            before.same_file(after, self.outer_run()),
        ensures
            self.ok(params, after),
            self.rest(params@, after) == self.rest(params@, before),
            self.safe(params@, after) == self.safe(params@, before),
    {
    }

    /// Makes a nested loop over two runs.
    pub fn new(
        inner_file: TempFileId,
        inner_is_left: bool,
        outer: TempRunReader,
        target: usize,
        params: &JoinParams,
        storage: &TempStorageManager,
    ) -> (r: NestedLoop)
        requires
            params.inv(),
            storage.inv(),
            reader_ok(&outer, storage),
            run_of(storage, inner_file.0) is Some,
            all_len(run_of(storage, inner_file.0)->0, params.build_len(inner_is_left)),
        ensures
            r.ok(params, storage),
            r.inner_run() == inner_file.0,
            r.outer_run() == outer.file(),
            r.good(params) <==> reader_good(&outer, params.build_len(!inner_is_left)),
            r.safe(params@, storage) == decided_sides(
                params@,
                inner_is_left,
                run_of(storage, inner_file.0)->0,
                outer.remaining(),
            ),
            r.rest(params@, storage) == join_sides(
                params@,
                inner_is_left,
                run_of(storage, inner_file.0)->0,
                outer.remaining(),
            ),
    {
        let batch: Vec<Row> = Vec::new();
        assert(rows_of(batch@) + outer.remaining() =~= outer.remaining());
        NestedLoop { inner_file, inner_is_left, outer, batch, bytes: 0, target, inner: None }
    }

    /// Opens the inner run for the batch that was filled.
    fn start_scan(&mut self, params: &JoinParams, storage: &TempStorageManager) -> (r: Result<
        (),
        DbError,
    >)
        requires
            old(self).ok(params, storage),
            old(self).inner is None,
        ensures
            r is Ok ==> final(self).ok(params, storage) && (old(self).good(params)
                ==> final(self).good(params)) && final(self).rest(params@, storage) == old(
                self,
            ).rest(params@, storage),
            final(self).inner_run() == old(self).inner_run(),
            final(self).outer_run() == old(self).outer_run(),
            final(self).outer == old(self).outer,
            final(self).batch == old(self).batch,
            r is Ok ==> final(self).inner is Some,
            r is Ok && old(self).safe(params@, storage) ==> final(self).safe(params@, storage),
            r matches Err(e) ==> out_of_room(e, storage),
    {
        let ghost on = params@;
        let reader = match TempRunReader::with_batch_pages(
            storage,
            self.inner_file,
            HASH_JOIN_BUILD_READER_PAGES,
        ) {
            Ok(r) => r,
            Err(e) => {
                return Err(e);
            },
        };
        proof {
            let all = run_of(storage, self.inner_file.0)->0;
            let batch = rows_of(self.batch@);
            if self.safe(on, storage) {
                lemma_all_in_self(all);
                lemma_all_in_sum(batch, self.outer.remaining());
                decided_for_fewer(
                    on,
                    self.inner_is_left,
                    all,
                    batch + self.outer.remaining(),
                    all,
                    batch,
                );
            }
            if self.inner_is_left {
                join_splits_right(on, all, batch, self.outer.remaining());
            } else {
                join_splits_left(on, batch, self.outer.remaining(), all);
            }
        }
        self.inner = Some(reader);
        Ok(())
    }

    pub fn step(&mut self, params: &JoinParams, storage: &TempStorageManager) -> (r: Result<
        PartStep,
        DbError,
    >)
        requires
            old(self).ok(params, storage),
        ensures
            r is Ok ==> final(self).ok(params, storage),
            final(self).inner_run() == old(self).inner_run(),
            final(self).outer_run() == old(self).outer_run(),
            r matches Ok(PartStep::Need(ranges)) ==> final(self).waiting() && (forall|
                data: Seq<u8>,
            |
                is_content(
                    storage.disk(),
                    blocks_of(ranges@),
                    data,
                    storage.size() as int,
                ) ==> #[trigger] final(self).expects(data)),
            r is Ok && old(self).good(params) ==> final(self).good(params) && (match r->Ok_0 {
                PartStep::Rows(rows) => old(self).rest(params@, storage) == bag(rows@).add(
                    final(self).rest(params@, storage),
                ),
                PartStep::Finished => old(self).rest(params@, storage) == Multiset::<
                    Seq<Value>,
                >::empty(),
                _ => final(self).rest(params@, storage) == old(self).rest(params@, storage),
            }),
            r is Err && old(self).good(params) ==> (r->Err_0 is IncomparableValues && !old(
                self,
            ).safe(params@, storage)) || out_of_room(r->Err_0, storage),
            r is Ok && old(self).good(params) && old(self).safe(params@, storage) ==> final(self).safe(params@, storage),
            comes_nearer(r, final(self).left_to_do(), old(self).left_to_do()),
    {
        let ghost on = params@;
        let ghost left = self.left_to_do();
        let mut current: Option<TempRunReader> = None;
        core::mem::swap(&mut self.inner, &mut current);
        match current {
            None => self.fill(params, storage),
            Some(reader) => {
                let mut reader = reader;
                let ghost before = reader.remaining();
                let ghost len = params.build_len(self.inner_is_left);
                let read = match reader.next_row(storage) {
                    Ok(s) => s,
                    Err(e) => {
                        return Err(e);
                    },
                };
                match read {
                    ReadStep::Need(ranges) => {
                        self.inner = Some(reader);
                        proof {
                            not_farther_if(self.left_to_do(), left);
                        }
                        Ok(PartStep::Need(ranges))
                    },
                    ReadStep::End => {
                        let ghost batch = rows_of(self.batch@);
                        self.batch = Vec::new();
                        self.bytes = 0;
                        proof {
                            let none = Seq::<Seq<Value>>::empty();
                            assert(rows_of(self.batch@) =~= none);
                            if old(self).safe(on, storage) {
                                let all = run_of(storage, self.inner_file.0)->0;
                                lemma_all_in_self(all);
                                lemma_all_in_sum(batch, self.outer.remaining());
                                decided_for_fewer(
                                    on,
                                    self.inner_is_left,
                                    all,
                                    batch + self.outer.remaining(),
                                    all,
                                    self.outer.remaining(),
                                );
                            }
                            assert(none + self.outer.remaining() =~= self.outer.remaining());
                            if old(self).good(params) {
                                assert(before =~= none);
                                crate::join_spec::lemma_join_empty_right(on, batch);
                                let more = join_sides(
                                    on,
                                    self.inner_is_left,
                                    run_of(storage, self.inner_file.0)->0,
                                    self.outer.remaining(),
                                );
                                assert(Multiset::<Seq<Value>>::empty().add(more) =~= more);
                            }
                            nearer_at(self.left_to_do(), left, 1);
                        }
                        Ok(PartStep::Again)
                    },
                    ReadStep::Row(row) => {
                        proof {
                            if old(self).good(params) {
                                lemma_all_len_drop(before, len);
                            }
                        }
                        match params.check_len(self.inner_is_left, &row) {
                            Ok(_) => {},
                            Err(e) => {
                                return Err(e);
                            },
                        }
                        let rows = match nested_matches(
                            params,
                            self.inner_is_left,
                            &row,
                            self.batch.as_slice(),
                        ) {
                            Ok(v) => v,
                            Err(e) => {
                                proof {
                                    let all = rows_of(self.batch@);
                                    let i = choose|i: int|
                                        0 <= i < self.batch@.len() && sides_fail(
                                            on,
                                            !self.inner_is_left,
                                            #[trigger] all[i],
                                            row@,
                                        );
                                    if old(self).good(params) {
                                        lemma_undecided(
                                            on,
                                            self.inner_is_left,
                                            before,
                                            all,
                                            0,
                                            i,
                                        );
                                    }
                                }
                                return Err(e);
                            },
                        };
                        proof {
                            if old(self).good(params) {
                                if old(self).safe(on, storage) {
                                    lemma_all_in_self(rows_of(self.batch@));
                                    lemma_all_in_tail(before);
                                    decided_for_fewer(
                                        on,
                                        self.inner_is_left,
                                        before,
                                        rows_of(self.batch@),
                                        before.drop_first(),
                                        rows_of(self.batch@),
                                    );
                                }
                                let batch = rows_of(self.batch@);
                                lemma_probe_first(on, !self.inner_is_left, batch, before);
                                let more = join_sides(
                                    on,
                                    self.inner_is_left,
                                    run_of(storage, self.inner_file.0)->0,
                                    self.outer.remaining(),
                                );
                                let tail = join_sides(
                                    on,
                                    !self.inner_is_left,
                                    batch,
                                    before.drop_first(),
                                );
                                assert(bag(rows@).add(tail).add(more) =~= bag(rows@).add(
                                    tail.add(more),
                                ));
                            }
                        }
                        self.inner = Some(reader);
                        proof {
                            nearer_at(self.left_to_do(), left, 2);
                        }
                        Ok(PartStep::Rows(rows))
                    },
                }
            },
        }
    }

    /// Takes the next outer row into the batch.
    fn fill(&mut self, params: &JoinParams, storage: &TempStorageManager) -> (r: Result<
        PartStep,
        DbError,
    >)
        requires
            old(self).ok(params, storage),
            old(self).inner is None,
        ensures
            r is Ok ==> final(self).ok(params, storage),
            final(self).inner_run() == old(self).inner_run(),
            final(self).outer_run() == old(self).outer_run(),
            r matches Ok(PartStep::Need(ranges)) ==> final(self).waiting() && (forall|
                data: Seq<u8>,
            |
                is_content(
                    storage.disk(),
                    blocks_of(ranges@),
                    data,
                    storage.size() as int,
                ) ==> #[trigger] final(self).expects(data)),
            r matches Ok(s) ==> !(s is Rows),
            r is Ok && old(self).good(params) ==> final(self).good(params) && (match r->Ok_0 {
                PartStep::Finished => old(self).rest(params@, storage) == Multiset::<
                    Seq<Value>,
                >::empty(),
                _ => final(self).rest(params@, storage) == old(self).rest(params@, storage),
            }),
            r is Err && old(self).good(params) ==> out_of_room(r->Err_0, storage),
            r is Ok && old(self).good(params) && old(self).safe(params@, storage) ==> final(self).safe(params@, storage),
            comes_nearer(r, final(self).left_to_do(), old(self).left_to_do()),
    {
        let ghost on = params@;
        let ghost left = self.left_to_do();
        let ghost before = self.outer.remaining();
        let ghost batch = rows_of(self.batch@);
        let ghost len = params.build_len(!self.inner_is_left);
        let read = match self.outer.next_row(storage) {
            Ok(s) => s,
            Err(e) => {
                return Err(e);
            },
        };
        match read {
            ReadStep::Need(ranges) => {
                proof {
                    not_farther_if(self.left_to_do(), left);
                }
                Ok(PartStep::Need(ranges))
            },
            ReadStep::End => {
                if self.batch.len() == 0 {
                    proof {
                        if old(self).good(params) {
                            let none = Seq::<Seq<Value>>::empty();
                            assert(batch + before =~= none);
                            crate::join_spec::lemma_join_empty_right(
                                on,
                                run_of(storage, self.inner_file.0)->0,
                            );
                        }
                    }
                    return Ok(PartStep::Finished);
                }
                match self.start_scan(params, storage) {
                    Ok(_) => {
                        proof {
                            nearer_at(self.left_to_do(), left, 1);
                        }
                        Ok(PartStep::Again)
                    },
                    Err(e) => Err(e),
                }
            },
            ReadStep::Row(row) => {
                proof {
                    if old(self).good(params) {
                        lemma_all_len_drop(before, len);
                    }
                }
                match params.check_len(!self.inner_is_left, &row) {
                    Ok(_) => {},
                    Err(e) => {
                        return Err(e);
                    },
                }
                let ghost rv = row@;
                self.bytes = self.bytes.saturating_add(row.estimate_heap_size());
                self.batch.push(row);
                proof {
                    if old(self).good(params) {
                        assert(batch.push(rv) + before.drop_first() =~= batch + before);
                    }
                }
                if self.bytes >= self.target {
                    match self.start_scan(params, storage) {
                        Ok(_) => {},
                        Err(e) => {
                            return Err(e);
                        },
                    }
                }
                proof {
                    nearer_at(self.left_to_do(), left, 0);
                }
                Ok(PartStep::Again)
            },
        }
    }

    pub fn supply(&mut self, data: Vec<u8>) -> (r: Result<(), DbError>)
        requires
            old(self).waiting(),
            exists|params: &JoinParams, s: &TempStorageManager| #[trigger] old(self).ok(params, s),
        ensures
            final(self).inner_run() == old(self).inner_run(),
            final(self).outer_run() == old(self).outer_run(),
            r is Ok ==> forall|params: &JoinParams, s: &TempStorageManager| #[trigger]
                old(self).ok(params, s) ==> final(self).ok(params, s),
            forall|params: &JoinParams| r is Ok && old(self).expects(data@) && old(self).good(
                params,
            ) ==> #[trigger] final(self).good(params),
            forall|on: JoinOn, params: &JoinParams, s: &TempStorageManager|
                r is Ok && old(self).expects(data@) && #[trigger] old(self).good(params)
                    ==> #[trigger] final(self).rest(on, s) == old(self).rest(on, s),
            forall|on: JoinOn, params: &JoinParams, s: &TempStorageManager|
                r is Ok && old(self).expects(data@) && #[trigger] old(self).good(params)
                    ==> #[trigger] final(self).safe(on, s) == old(self).safe(on, s),
            old(self).expects(data@) ==> r is Ok,
            r is Ok ==> nearer(final(self).left_to_do(), old(self).left_to_do()),
    {
        let ghost left = self.left_to_do();
        let mut current: Option<TempRunReader> = None;
        core::mem::swap(&mut self.inner, &mut current);
        match current {
            None => {
                let r = self.outer.supply(data);
                proof {
                    if r is Ok {
                        nearer_at(self.left_to_do(), left, 0);
                    }
                }
                r
            },
            Some(reader) => {
                let mut reader = reader;
                let r = reader.supply(data);
                self.inner = Some(reader);
                proof {
                    if r is Ok {
                        nearer_at(self.left_to_do(), left, 2);
                    }
                }
                r
            },
        }
    }
}

} // verus!

//! Merging sorted runs.

use vstd::multiset::Multiset;
use vstd::prelude::*;
use crate::error::DbError;
use crate::floats::Comparison;
use crate::join_table::all_len;
use crate::ordering::{SortKey, all_typed, bounds, compare_rows, keys_within, lemma_head_bounds, lemma_sorted_drop, not_after, row_order, row_order_flips, row_order_is_transitive, row_typed, sorted};
use crate::partition_join::{lemma_all_len_drop, reader_good, reader_ok};
use crate::row::Row;
use crate::temp_run::{ReadStep, TempRunReader, blocks_of, fits_page, is_content, run_of};
use crate::temp_storage::{BlockRange, MAX_BATCH_PAGES, TempFileId, TempStorageManager, out_of_room};
use crate::value::{DataType, Value};

verus! {

/// The rows of several runs, order aside.
pub open spec fn runs_bag(runs: Seq<Seq<Seq<Value>>>) -> Multiset<Seq<Value>>
    decreases runs.len(),
{
    if runs.len() == 0 {
        Multiset::empty()
    } else {
        runs_bag(runs.drop_last()).add(runs.last().to_multiset())
    }
}

pub open spec fn runs_sorted(keys: Seq<SortKey>, runs: Seq<Seq<Seq<Value>>>) -> bool {
    forall|i: int| 0 <= i < runs.len() ==> sorted(keys, #[trigger] runs[i])
}

pub open spec fn runs_typed(
    keys: Seq<SortKey>,
    types: Seq<DataType>,
    runs: Seq<Seq<Seq<Value>>>,
) -> bool {
    forall|i: int| 0 <= i < runs.len() ==> all_typed(keys, types, #[trigger] runs[i])
}

/// Whether a row may come before every row of several runs.
pub open spec fn bounds_runs(
    keys: Seq<SortKey>,
    x: Seq<Value>,
    runs: Seq<Seq<Seq<Value>>>,
) -> bool {
    forall|i: int| 0 <= i < runs.len() ==> bounds(keys, x, #[trigger] runs[i])
}

/// Whether run `i` has the least head, the first one where several are least.
pub open spec fn is_least(keys: Seq<SortKey>, runs: Seq<Seq<Seq<Value>>>, i: int) -> bool {
    &&& 0 <= i < runs.len()
    &&& runs[i].len() > 0
    &&& forall|j: int|
        0 <= j < runs.len() && (#[trigger] runs[j]).len() > 0 ==> not_after(
            keys,
            runs[i][0],
            runs[j][0],
        ) && (j < i ==> row_order(keys, runs[i][0], runs[j][0]) == Comparison::Less)
}

/// Whether taking a head gives that row and leaves those runs.
pub open spec fn takes_one(
    runs: Seq<Seq<Seq<Value>>>,
    row: Seq<Value>,
    left: Seq<Seq<Seq<Value>>>,
) -> bool {
    exists|i: int|
        0 <= i < runs.len() && (#[trigger] runs[i]).len() > 0 && row == runs[i][0] && left
            == runs.update(i, runs[i].drop_first())
}

/// Whether taking the least head gives that row and leaves those runs.
pub open spec fn takes_least(
    keys: Seq<SortKey>,
    runs: Seq<Seq<Seq<Value>>>,
    row: Seq<Value>,
    left: Seq<Seq<Seq<Value>>>,
) -> bool {
    exists|i: int| #[trigger]
        is_least(keys, runs, i) && row == runs[i][0] && left == runs.update(
            i,
            runs[i].drop_first(),
        )
}

proof fn lemma_first_out(rows: Seq<Seq<Value>>)
    requires
        rows.len() > 0,
    ensures
        rows.to_multiset() == rows.drop_first().to_multiset().insert(rows[0]),
{
    broadcast use vstd::seq_lib::group_to_multiset_ensures;

    let one = Seq::<Seq<Value>>::empty().push(rows[0]);
    assert(rows =~= one + rows.drop_first());
    vstd::seq_lib::lemma_multiset_commutative(one, rows.drop_first());
    assert(rows.to_multiset() =~= rows.drop_first().to_multiset().insert(rows[0]));
}

pub proof fn lemma_runs_bag_update(
    runs: Seq<Seq<Seq<Value>>>,
    i: int,
    less: Seq<Seq<Value>>,
    x: Seq<Value>,
)
    requires
        0 <= i < runs.len(),
        runs[i].to_multiset() == less.to_multiset().insert(x),
    ensures
        runs_bag(runs) == runs_bag(runs.update(i, less)).insert(x),
    decreases runs.len(),
{
    let left = runs.update(i, less);
    if i == runs.len() - 1 {
        assert(left.drop_last() =~= runs.drop_last());
        assert(runs_bag(runs) =~= runs_bag(left).insert(x));
    } else {
        lemma_runs_bag_update(runs.drop_last(), i, less, x);
        assert(left.drop_last() =~= runs.drop_last().update(i, less));
        assert(runs_bag(runs) =~= runs_bag(left).insert(x));
    }
}

/// Taking a head takes one row away.
pub proof fn taking_one(
    runs: Seq<Seq<Seq<Value>>>,
    row: Seq<Value>,
    left: Seq<Seq<Seq<Value>>>,
)
    requires
        takes_one(runs, row, left),
    ensures
        runs_bag(runs) == runs_bag(left).insert(row),
        left.len() == runs.len(),
{
    let i = choose|i: int|
        0 <= i < runs.len() && (#[trigger] runs[i]).len() > 0 && row == runs[i][0] && left
            == runs.update(i, runs[i].drop_first());
    lemma_first_out(runs[i]);
    lemma_runs_bag_update(runs, i, runs[i].drop_first(), row);
}

/// Of sorted runs, taking the least head takes a least row, and they stay sorted.
pub proof fn taking_the_least(
    keys: Seq<SortKey>,
    types: Seq<DataType>,
    runs: Seq<Seq<Seq<Value>>>,
    row: Seq<Value>,
    left: Seq<Seq<Seq<Value>>>,
)
    requires
        takes_least(keys, runs, row, left),
        runs_sorted(keys, runs),
        runs_typed(keys, types, runs),
    ensures
        runs_sorted(keys, left),
        runs_typed(keys, types, left),
        row_typed(keys, types, row),
        bounds_runs(keys, row, left),
{
    let i = choose|i: int| #[trigger]
        is_least(keys, runs, i) && row == runs[i][0] && left == runs.update(
            i,
            runs[i].drop_first(),
        );
    lemma_sorted_drop(keys, runs[i]);
    assert(all_typed(keys, types, runs[i]));
    assert(row_typed(keys, types, runs[i][0]));
    assert forall|j: int| 0 <= j < left.len() implies sorted(keys, #[trigger] left[j]) by {
        if j != i {
            assert(left[j] == runs[j]);
        }
    }
    assert forall|j: int| 0 <= j < left.len() implies all_typed(
        keys,
        types,
        #[trigger] left[j],
    ) by {
        assert(all_typed(keys, types, runs[j]));
        if j == i {
            assert forall|k: int| 0 <= k < left[i].len() implies row_typed(
                keys,
                types,
                #[trigger] left[i][k],
            ) by {
                assert(left[i][k] == runs[i][k + 1]);
            }
        }
    }
    assert forall|j: int| 0 <= j < left.len() implies bounds(keys, row, #[trigger] left[j]) by {
        if j != i && runs[j].len() > 0 {
            assert(all_typed(keys, types, runs[j]));
            assert(not_after(keys, runs[i][0], runs[j][0]));
            lemma_head_bounds(keys, types, row, runs[j]);
        }
    }
}

/// Gives the rows of several runs, always the least head first.
pub struct RunMerger {
    readers: Vec<TempRunReader>,
    heads: Vec<Option<Row>>,
    ended: Vec<bool>,
    want: Option<usize>,
}

spec fn reads_of(readers: Seq<TempRunReader>, f: u64) -> bool {
    exists|i: int| 0 <= i < readers.len() && #[trigger] readers[i].file() == f
}

/// What is left to do of a run: of its reader, and its head.
spec fn run_work(readers: Seq<TempRunReader>, heads: Seq<Option<Row>>, i: int) -> nat {
    readers[i].left_to_do() + (if heads[i] is Some {
        1nat
    } else {
        0nat
    })
}

/// What is left to do of the first `n` runs.
spec fn runs_work(readers: Seq<TempRunReader>, heads: Seq<Option<Row>>, n: nat) -> nat
    decreases n,
{
    if n == 0 {
        0
    } else {
        runs_work(readers, heads, (n - 1) as nat) + run_work(readers, heads, n - 1)
    }
}

/// Where no run has more left to do than before, all have not; where one has less, all have less.
proof fn lemma_runs_work(
    readers: Seq<TempRunReader>,
    heads: Seq<Option<Row>>,
    readers_then: Seq<TempRunReader>,
    heads_then: Seq<Option<Row>>,
    n: nat,
    k: int,
)
    requires
        forall|i: int|
            0 <= i < n ==> #[trigger] run_work(readers, heads, i) <= run_work(
                readers_then,
                heads_then,
                i,
            ),
    ensures
        runs_work(readers, heads, n) <= runs_work(readers_then, heads_then, n),
        0 <= k < n && run_work(readers, heads, k) < run_work(readers_then, heads_then, k)
            ==> runs_work(readers, heads, n) < runs_work(readers_then, heads_then, n),
    decreases n,
{
    if n > 0 {
        lemma_runs_work(readers, heads, readers_then, heads_then, (n - 1) as nat, k);
        assert(run_work(readers, heads, n - 1) <= run_work(readers_then, heads_then, n - 1));
    }
}

impl RunMerger {
    /// How much is left to do.
    pub closed spec fn left_to_do(&self) -> nat {
        runs_work(self.readers@, self.heads@, self.readers@.len())
    }

    /// A change of one run decides.
    proof fn lemma_work(&self, before: &RunMerger, k: int)
        requires
            0 <= k < before.readers@.len(),
            self.readers@.len() == before.readers@.len(),
            forall|i: int|
                0 <= i < before.readers@.len() && i != k ==> #[trigger] self.readers@[i]
                    == before.readers@[i],
            forall|i: int|
                0 <= i < before.readers@.len() && i != k ==> #[trigger] self.heads@[i]
                    == before.heads@[i],
            run_work(self.readers@, self.heads@, k) <= run_work(before.readers@, before.heads@, k),
        ensures
            self.left_to_do() <= before.left_to_do(),
            run_work(self.readers@, self.heads@, k) < run_work(before.readers@, before.heads@, k)
                ==> self.left_to_do() < before.left_to_do(),
    {
        assert forall|i: int| 0 <= i < before.readers@.len() implies #[trigger] run_work(
            self.readers@,
            self.heads@,
            i,
        ) <= run_work(before.readers@, before.heads@, i) by {
            if i != k {
                assert(self.readers@[i] == before.readers@[i]);
                assert(self.heads@[i] == before.heads@[i]);
            }
        }
        lemma_runs_work(
            self.readers@,
            self.heads@,
            before.readers@,
            before.heads@,
            before.readers@.len(),
            k,
        );
    }

    spec fn run(&self, i: int) -> Seq<Seq<Value>> {
        let more = if self.ended@[i] {
            Seq::empty()
        } else {
            self.readers@[i].remaining()
        };
        match self.heads@[i] {
            Some(row) => seq![row@] + more,
            None => more,
        }
    }

    /// What is left of the runs.
    pub closed spec fn runs(&self) -> Seq<Seq<Seq<Value>>> {
        Seq::new(self.readers@.len(), |i: int| self.run(i))
    }

    /// The files that are read.
    pub closed spec fn reads(&self, f: u64) -> bool {
        reads_of(self.readers@, f)
    }

    pub closed spec fn waiting(&self) -> bool {
        match self.want {
            Some(i) => i < self.readers@.len() && self.readers@[i as int].waiting(),
            None => false,
        }
    }

    pub closed spec fn expects(&self, data: Seq<u8>) -> bool {
        match self.want {
            Some(i) => i < self.readers@.len() && self.readers@[i as int].expects(data),
            None => false,
        }
    }

    spec fn shape(&self, len: nat) -> bool {
        &&& self.heads@.len() == self.readers@.len()
        &&& self.ended@.len() == self.readers@.len()
        &&& forall|i: int|
            0 <= i < self.heads@.len() ==> (#[trigger] self.heads@[i] matches Some(row) ==> row@.len()
                == len)
    }

    spec fn heads_fit(&self, size: nat) -> bool {
        forall|i: int|
            0 <= i < self.heads@.len() ==> (#[trigger] self.heads@[i] matches Some(row) ==> fits_page(
                row@,
                size,
            ))
    }

    pub closed spec fn ok(&self, len: nat, storage: &TempStorageManager) -> bool {
        &&& storage.inv()
        &&& self.shape(len)
        &&& self.heads_fit(storage.size())
        &&& forall|i: int|
            0 <= i < self.readers@.len() ==> reader_ok(&#[trigger] self.readers@[i], storage)
    }

    /// Whether all runs can be read to their ends.
    pub closed spec fn good(&self, len: nat) -> bool {
        forall|i: int|
            0 <= i < self.readers@.len() && !self.ended@[i] ==> reader_good(
                &#[trigger] self.readers@[i],
                len,
            )
    }

    /// A merger depends on the files that it reads alone.
    pub proof fn ok_kept(&self, len: nat, before: &TempStorageManager, after: &TempStorageManager)
        requires
            self.ok(len, before),
            after.inv(),
            before.size() == after.size(),
            forall|f: u64| #[trigger] self.reads(f) ==> before.same_file(after, f),
        ensures
            self.ok(len, after),
    {
        assert forall|i: int| 0 <= i < self.readers@.len() implies reader_ok(
            &#[trigger] self.readers@[i],
            after,
        ) by {
            assert(reader_ok(&self.readers@[i], before));
            assert(self.reads(self.readers@[i].file()));
        }
    }

    /// Opens runs. Each reader asks for so many pages at a time.
    pub fn new(
        run_ids: &[TempFileId],
        reader_batch_pages: usize,
        storage: &TempStorageManager,
        Ghost(len): Ghost<nat>,
    ) -> (r: Result<RunMerger, DbError>)
        requires
            storage.inv(),
            reader_batch_pages > 0,
            forall|i: int|
                0 <= i < run_ids@.len() ==> run_of(storage, (#[trigger] run_ids@[i]).0) is Some
                    && all_len(run_of(storage, run_ids@[i].0)->0, len),
        ensures
            r matches Ok(m) ==> {
                &&& m.ok(len, storage)
                &&& m.good(len)
                &&& m.runs() == run_ids@.map_values(|id: TempFileId| run_of(storage, id.0)->0)
                &&& forall|f: u64| #[trigger]
                    m.reads(f) <==> exists|i: int|
                        0 <= i < run_ids@.len() && #[trigger] run_ids@[i].0 == f
            },
            r is Ok <==> run_ids@.len() == 0 || storage.size() * reader_batch_pages <= usize::MAX,
            r matches Err(e) ==> reader_batch_pages <= MAX_BATCH_PAGES ==> out_of_room(e, storage),
    {
        let mut readers: Vec<TempRunReader> = Vec::new();
        let mut heads: Vec<Option<Row>> = Vec::new();
        let mut ended: Vec<bool> = Vec::new();
        let mut i: usize = 0;
        while i < run_ids.len()
            invariant
                storage.inv(),
                reader_batch_pages > 0,
                i <= run_ids@.len(),
                readers@.len() == i,
                heads@.len() == i,
                ended@.len() == i,
                i > 0 ==> storage.size() * reader_batch_pages <= usize::MAX,
                forall|j: int|
                    0 <= j < run_ids@.len() ==> run_of(storage, (#[trigger] run_ids@[j]).0) is Some
                        && all_len(run_of(storage, run_ids@[j].0)->0, len),
                forall|j: int|
                    0 <= j < i ==> reader_ok(&#[trigger] readers@[j], storage) && reader_good(
                        &readers@[j],
                        len,
                    ) && readers@[j].file() == run_ids@[j].0 && readers@[j].remaining() == run_of(
                        storage,
                        run_ids@[j].0,
                    )->0,
                forall|j: int| 0 <= j < i ==> (#[trigger] heads@[j]) is None && !ended@[j],
            decreases run_ids@.len() - i,
        {
            let ghost id = run_ids@[i as int];
            assert(run_of(storage, id.0) is Some);
            let reader = match TempRunReader::with_batch_pages(
                storage,
                run_ids[i],
                reader_batch_pages,
            ) {
                Ok(r) => r,
                Err(e) => {
                    return Err(e);
                },
            };
            readers.push(reader);
            heads.push(None);
            ended.push(false);
            i += 1;
        }
        let m = RunMerger { readers, heads, ended, want: None };
        proof {
            assert(m.runs() =~= run_ids@.map_values(|id: TempFileId| run_of(storage, id.0)->0))
                by {
                assert forall|j: int| 0 <= j < run_ids@.len() implies m.run(j) == run_of(
                    storage,
                    run_ids@[j].0,
                )->0 by {
                    assert(readers@[j].remaining() == run_of(storage, run_ids@[j].0)->0);
                    assert(heads@[j] is None);
                }
            }
            assert forall|f: u64| #[trigger] m.reads(f) <==> exists|i: int|
                0 <= i < run_ids@.len() && #[trigger] run_ids@[i].0 == f by {
                if m.reads(f) {
                    let j = choose|j: int|
                        0 <= j < m.readers@.len() && #[trigger] m.readers@[j].file() == f;
                    assert(run_ids@[j].0 == f);
                }
                if exists|i: int| 0 <= i < run_ids@.len() && #[trigger] run_ids@[i].0 == f {
                    let j = choose|i: int| 0 <= i < run_ids@.len() && #[trigger] run_ids@[i].0 == f;
                    assert(m.readers@[j].file() == f);
                }
            }
        }
        Ok(m)
    }

    /// Reads the head of a run that has none.
    fn fill(&mut self, i: usize, len: usize, storage: &TempStorageManager) -> (r: Result<
        Option<Vec<BlockRange>>,
        DbError,
    >)
        requires
            old(self).ok(len as nat, storage),
            i < old(self).readers@.len(),
            old(self).heads@[i as int] is None,
            !old(self).ended@[i as int],
        ensures
            r is Ok ==> final(self).ok(len as nat, storage),
            final(self).readers@.len() == old(self).readers@.len(),
            forall|f: u64| #[trigger] final(self).reads(f) == old(self).reads(f),
            r matches Ok(Some(ranges)) ==> final(self).waiting() && (forall|data: Seq<u8>|
                is_content(
                    storage.disk(),
                    blocks_of(ranges@),
                    data,
                    storage.size() as int,
                ) ==> #[trigger] final(self).expects(data)),
            r is Ok && r->Ok_0 is None ==> {
                &&& final(self).heads@[i as int] is Some || final(self).ended@[i as int]
                &&& forall|j: int|
                    0 <= j < old(self).readers@.len() && j != i ==> #[trigger] final(self).heads@[j]
                        == old(self).heads@[j] && final(self).ended@[j] == old(self).ended@[j]
            },
            r is Ok && old(self).good(len as nat) ==> final(self).good(len as nat)
                && final(self).runs() == old(self).runs(),
            old(self).good(len as nat) ==> r is Ok,
            r is Ok ==> final(self).left_to_do() <= old(self).left_to_do(),
    {
        let ghost before = *self;
        let ghost k = i as int;
        let ghost rest = self.readers@[k].remaining();
        proof {
            assert(reader_ok(&self.readers@[k], storage));
            if before.good(len as nat) {
                assert(reader_good(&self.readers@[k], len as nat));
            }
        }
        let r = self.readers[i].next_row(storage);
        proof {
            lemma_reads_same(before.readers@, self.readers@);
        }
        let read = match r {
            Ok(s) => s,
            Err(e) => {
                return Err(e);
            },
        };
        match read {
            ReadStep::Need(ranges) => {
                self.want = Some(i);
                proof {
                    self.lemma_work(&before, k);
                    if before.good(len as nat) {
                        assert(self.runs() =~= before.runs());
                    }
                }
                Ok(Some(ranges))
            },
            ReadStep::End => {
                self.ended.set(i, true);
                proof {
                    self.lemma_work(&before, k);
                    if before.good(len as nat) {
                        assert(rest =~= Seq::<Seq<Value>>::empty());
                        assert(self.runs() =~= before.runs());
                    }
                }
                Ok(None)
            },
            ReadStep::Row(row) => {
                if row.len() != len {
                    proof {
                        if before.good(len as nat) {
                            lemma_all_len_drop(rest, len as nat);
                        }
                    }
                    return Err(DbError::RowSchemaMismatch(row.len(), len));
                }
                let ghost rv = row@;
                self.heads.set(i, Some(row));
                proof {
                    self.lemma_work(&before, k);
                    if before.good(len as nat) {
                        lemma_all_len_drop(rest, len as nat);
                        assert(rest =~= seq![rv] + rest.drop_first());
                        assert(self.runs() =~= before.runs());
                    }
                }
                Ok(None)
            },
        }
    }

    /// A run with a head, where every run has a head or is at its end: the one with the least
    /// head, where the rows can be put in order.
    fn least(
        &self,
        sort_keys: &[SortKey],
        Ghost(len): Ghost<nat>,
        Ghost(types): Ghost<Seq<DataType>>,
    ) -> (r: Option<usize>)
        requires
            self.shape(len),
            keys_within(sort_keys@, len),
            forall|i: int|
                0 <= i < self.heads@.len() ==> (#[trigger] self.heads@[i]) is Some
                    || self.ended@[i],
        ensures
            match r {
                Some(i) => {
                    &&& i < self.heads@.len()
                    &&& self.heads@[i as int] is Some
                    &&& runs_typed(sort_keys@, types, self.runs()) ==> is_least(
                        sort_keys@,
                        self.runs(),
                        i as int,
                    )
                },
                None => forall|i: int|
                    0 <= i < self.heads@.len() ==> (#[trigger] self.heads@[i]) is None,
            },
    {
        let ghost keys = sort_keys@;
        let ghost typed = runs_typed(keys, types, self.runs());
        let mut best: Option<usize> = None;
        let mut i: usize = 0;
        while i < self.heads.len()
            invariant
                i <= self.heads@.len(),
                self.shape(len),
                keys == sort_keys@,
                keys_within(keys, len),
                typed == runs_typed(keys, types, self.runs()),
                match best {
                    Some(b) => b < i && self.heads@[b as int] is Some && (typed
                        ==> self.least_until(keys, b as int, i as int)),
                    None => forall|j: int| 0 <= j < i ==> (#[trigger] self.heads@[j]) is None,
                },
            decreases self.heads@.len() - i,
        {
            if let Some(row) = &self.heads[i] {
                proof {
                    row_order_flips(keys, row@, row@);
                    if typed {
                        self.lemma_head_typed(keys, types, i as int, len);
                    }
                }
                match best {
                    None => {
                        best = Some(i);
                    },
                    Some(b) => {
                        if let Some(top) = &self.heads[b] {
                            match compare_rows(sort_keys, row, top) {
                                Comparison::Less => {
                                    proof {
                                        if typed {
                                            self.lemma_less(
                                                keys,
                                                types,
                                                b as int,
                                                i as int,
                                                len,
                                            );
                                        }
                                    }
                                    best = Some(i);
                                },
                                _ => {
                                    proof {
                                        row_order_flips(keys, row@, top@);
                                    }
                                },
                            }
                        }
                    },
                }
            }
            i += 1;
        }
        proof {
            if typed && best is Some {
                let b = best->0 as int;
                assert forall|j: int|
                    0 <= j < self.runs().len() && (#[trigger] self.runs()[j]).len() > 0 implies
                    not_after(keys, self.runs()[b][0], self.runs()[j][0]) && (j < b ==> row_order(
                    keys,
                    self.runs()[b][0],
                    self.runs()[j][0],
                ) == Comparison::Less) by {
                    assert(self.heads@[j] is Some || self.ended@[j]);
                    assert(self.heads@[j] is Some);
                }
            }
        }
        best
    }

    spec fn least_until(&self, keys: Seq<SortKey>, b: int, upto: int) -> bool {
        forall|j: int|
            0 <= j < upto && (#[trigger] self.heads@[j]) is Some ==> not_after(
                keys,
                self.heads@[b]->0@,
                self.heads@[j]->0@,
            ) && (j < b ==> row_order(keys, self.heads@[b]->0@, self.heads@[j]->0@)
                == Comparison::Less)
    }

    proof fn lemma_head_typed(&self, keys: Seq<SortKey>, types: Seq<DataType>, i: int, len: nat)
        requires
            self.shape(len),
            0 <= i < self.heads@.len(),
            self.heads@[i] is Some,
            runs_typed(keys, types, self.runs()),
        ensures
            row_typed(keys, types, self.heads@[i]->0@),
    {
        assert(all_typed(keys, types, self.runs()[i]));
        assert(self.runs()[i][0] == self.heads@[i]->0@);
    }

    proof fn lemma_less(
        &self,
        keys: Seq<SortKey>,
        types: Seq<DataType>,
        b: int,
        i: int,
        len: nat,
    )
        requires
            self.shape(len),
            0 <= b < i < self.heads@.len(),
            self.heads@[b] is Some,
            self.heads@[i] is Some,
            runs_typed(keys, types, self.runs()),
            self.least_until(keys, b, i),
            row_order(keys, self.heads@[i]->0@, self.heads@[b]->0@) == Comparison::Less,
        ensures
            self.least_until(keys, i, i + 1),
    {
        let x = self.heads@[i]->0@;
        let y = self.heads@[b]->0@;
        self.lemma_head_typed(keys, types, i, len);
        self.lemma_head_typed(keys, types, b, len);
        row_order_flips(keys, x, x);
        row_order_flips(keys, x, y);
        assert forall|j: int| 0 <= j < i && (#[trigger] self.heads@[j]) is Some implies row_order(
            keys,
            x,
            self.heads@[j]->0@,
        ) == Comparison::Less by {
            let z = self.heads@[j]->0@;
            self.lemma_head_typed(keys, types, j, len);
            row_order_is_transitive(keys, types, x, y, z);
            row_order_flips(keys, x, z);
            if row_order(keys, x, z) == Comparison::Equal {
                row_order_is_transitive(keys, types, y, z, x);
            }
        }
    }

    /// Gives a head: the least one, where the rows can be put in order.
    pub fn step(&mut self, sort_keys: &[SortKey], len: usize, storage: &TempStorageManager) -> (r:
        Result<ReadStep, DbError>)
        requires
            old(self).ok(len as nat, storage),
            keys_within(sort_keys@, len as nat),
        ensures
            r is Ok ==> final(self).ok(len as nat, storage),
            forall|f: u64| #[trigger] final(self).reads(f) == old(self).reads(f),
            r matches Ok(ReadStep::Need(ranges)) ==> final(self).waiting() && (forall|
                data: Seq<u8>,
            |
                is_content(
                    storage.disk(),
                    blocks_of(ranges@),
                    data,
                    storage.size() as int,
                ) ==> #[trigger] final(self).expects(data)),
            r matches Ok(ReadStep::Row(row)) ==> row@.len() == len && fits_page(
                row@,
                storage.size(),
            ),
            r is Ok ==> final(self).left_to_do() <= old(self).left_to_do(),
            r matches Ok(ReadStep::Row(_)) ==> final(self).left_to_do() < old(self).left_to_do(),
            old(self).good(len as nat) ==> match r {
                Ok(ReadStep::Need(_)) => final(self).good(len as nat) && final(self).runs() == old(
                    self,
                ).runs(),
                Ok(ReadStep::Row(row)) => {
                    &&& final(self).good(len as nat)
                    &&& takes_one(old(self).runs(), row@, final(self).runs())
                    &&& forall|types: Seq<DataType>| #[trigger]
                        runs_typed(sort_keys@, types, old(self).runs()) ==> takes_least(
                            sort_keys@,
                            old(self).runs(),
                            row@,
                            final(self).runs(),
                        )
                },
                Ok(ReadStep::End) => runs_bag(old(self).runs()) == Multiset::<Seq<Value>>::empty(),
                Err(_) => false,
            },
    {
        let ghost n = len as nat;
        let ghost was_good = self.good(n);
        let mut i: usize = 0;
        while i < self.heads.len()
            invariant
                n == len as nat,
                self.ok(n, storage),
                i <= self.heads@.len(),
                was_good == old(self).good(n),
                self.left_to_do() <= old(self).left_to_do(),
                was_good ==> self.good(n) && self.runs() == old(self).runs(),
                forall|f: u64| #[trigger] self.reads(f) == old(self).reads(f),
                forall|j: int|
                    0 <= j < i ==> (#[trigger] self.heads@[j]) is Some || self.ended@[j],
            decreases self.heads@.len() - i,
        {
            if self.heads[i].is_none() && !self.ended[i] {
                let ghost before = *self;
                match self.fill(i, len, storage) {
                    Ok(Some(ranges)) => {
                        return Ok(ReadStep::Need(ranges));
                    },
                    Ok(None) => {
                        assert forall|j: int| 0 <= j < i + 1 implies (#[trigger] self.heads@[j])
                            is Some || self.ended@[j] by {
                            if j < i {
                                assert(self.heads@[j] == before.heads@[j]);
                                assert(before.heads@[j] is Some || before.ended@[j]);
                            }
                        }
                    },
                    Err(e) => {
                        return Err(e);
                    },
                }
            }
            i += 1;
        }
        let ghost types = choose|types: Seq<DataType>| #[trigger]
            runs_typed(sort_keys@, types, self.runs());
        let ghost before = *self;
        match self.least(sort_keys, Ghost(n), Ghost(types)) {
            None => {
                proof {
                    assert forall|j: int| 0 <= j < self.runs().len() implies (
                    #[trigger] self.runs()[j]).len() == 0 by {
                        assert(self.heads@[j] is Some || self.ended@[j]);
                        assert(self.heads@[j] is None);
                    }
                    lemma_runs_bag_empty(self.runs());
                }
                Ok(ReadStep::End)
            },
            Some(b) => {
                let mut head: Option<Row> = None;
                core::mem::swap(&mut self.heads[b], &mut head);
                match head {
                    Some(row) => {
                        proof {
                            let k = b as int;
                            self.lemma_work(&before, k);
                            assert(self.runs()[k] =~= before.runs()[k].drop_first());
                            assert(self.runs() =~= before.runs().update(
                                k,
                                before.runs()[k].drop_first(),
                            ));
                            assert(before.runs()[k][0] == row@);
                            assert(before.heads@[k] is Some);
                            assert forall|f: u64| #[trigger] self.reads(f) == old(self).reads(
                                f,
                            ) by {
                                assert(before.reads(f) == self.reads(f));
                            }
                        }
                        Ok(ReadStep::Row(row))
                    },
                    None => Ok(ReadStep::End),
                }
            },
        }
    }

    /// Takes the data that was asked for.
    pub fn supply(
        &mut self,
        data: Vec<u8>,
        Ghost(len): Ghost<nat>,
        Ghost(storage): Ghost<TempStorageManager>,
    ) -> (r: Result<(), DbError>)
        requires
            old(self).ok(len, &storage),
            old(self).waiting(),
        ensures
            r is Ok ==> final(self).ok(len, &storage),
            forall|f: u64| #[trigger] final(self).reads(f) == old(self).reads(f),
            r is Ok && old(self).expects(data@) && old(self).good(len) ==> final(self).good(len)
                && final(self).runs() == old(self).runs(),
            old(self).expects(data@) ==> r is Ok,
            r is Ok ==> final(self).left_to_do() < old(self).left_to_do(),
    {
        let ghost before = *self;
        match self.want {
            Some(i) => {
                proof {
                    assert(reader_ok(&self.readers@[i as int], &storage));
                }
                let r = self.readers[i].supply(data);
                proof {
                    lemma_reads_same(before.readers@, self.readers@);
                    if r is Ok {
                        self.lemma_work(&before, i as int);
                    }
                    if r is Ok && before.expects(data@) && before.good(len) {
                        if !before.ended@[i as int] {
                            assert(reader_good(&before.readers@[i as int], len));
                        }
                        assert(self.runs() =~= before.runs());
                    }
                }
                self.want = None;
                r
            },
            None => Ok(()),
        }
    }
}

proof fn lemma_reads_same(a: Seq<TempRunReader>, b: Seq<TempRunReader>)
    requires
        a.len() == b.len(),
        forall|i: int| 0 <= i < a.len() ==> (#[trigger] a[i]).file() == b[i].file(),
    ensures
        forall|f: u64| #[trigger] reads_of(a, f) == reads_of(b, f),
{
    assert forall|f: u64| #[trigger] reads_of(a, f) == reads_of(b, f) by {
        if reads_of(a, f) {
            let j = choose|j: int| 0 <= j < a.len() && #[trigger] a[j].file() == f;
            assert(b[j].file() == f);
        }
        if reads_of(b, f) {
            let j = choose|j: int| 0 <= j < b.len() && #[trigger] b[j].file() == f;
            assert(a[j].file() == b[j].file());
        }
    }
}

pub proof fn lemma_runs_bag_empty(runs: Seq<Seq<Seq<Value>>>)
    requires
        forall|i: int| 0 <= i < runs.len() ==> (#[trigger] runs[i]).len() == 0,
    ensures
        runs_bag(runs) == Multiset::<Seq<Value>>::empty(),
    decreases runs.len(),
{
    if runs.len() > 0 {
        lemma_runs_bag_empty(runs.drop_last());
        crate::partition_join::lemma_bag_empty();
        assert(runs.last() =~= Seq::<Seq<Value>>::empty());
        assert(runs_bag(runs) =~= Multiset::<Seq<Value>>::empty());
    }
}

} // verus!

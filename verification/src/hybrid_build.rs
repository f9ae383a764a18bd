//! The build side of a hybrid hash join: one partition stays in memory, as far as it goes; the
//! others are written to temporary files.

use vstd::prelude::*;
use crate::adaptive_plan::{MAX_ADAPTIVE_PARTITIONS, choose_adaptive_partitions, choose_adaptive_writer_batch, choose_hybrid_resident_budget_bytes, estimate_hash_build_row_bytes, estimate_partition_filter_bytes};
use crate::adaptive_spec::lemma_found_push;
use crate::bloom::{ExactBitmapCandidate, PartitionKeyBloom};
use crate::error::DbError;
use crate::hashing::{key_hash, key_hash64};
use crate::join_spec::{JoinOn, probe_with};
use crate::join_table::{JoinParams, JoinTable, all_in, all_len};
use crate::memory::{MemoryAccount, QueryMemoryManager};
use crate::partition::PartitionWriters;
use crate::row::{Row, pick};
use crate::temp_storage::{MAX_BATCH_PAGES, TempStorageManager, grew_by, unharmed, untouched, untouched_same};
use crate::value::Value;
use crate::temp_run::cannot_store;

verus! {

/// The partition of a hash.
pub open spec fn hash_part(h: u64, n: usize) -> int {
    ((h as usize) % n) as int
}

pub fn part_of_hash(h: u64, n: usize) -> (r: usize)
    requires
        n > 0,
    ensures
        r as int == hash_part(h, n),
        r < n,
{
    (h as usize) % n
}

/// Whether a row belongs to a partition.
pub open spec fn in_part(keys: Seq<int>, n: usize, p: int) -> spec_fn(Seq<Value>) -> bool {
    |row: Seq<Value>| hash_part(key_hash(pick(row, keys)), n) == p
}

/// Whether two lists of rows together give every probe row what a third one gives.
pub open spec fn splits_into(
    on: JoinOn,
    bl: bool,
    all: Seq<Seq<Value>>,
    a: Seq<Seq<Value>>,
    b: Seq<Seq<Value>>,
) -> bool {
    forall|x: Seq<Value>| #[trigger]
        probe_with(on, bl, all, x) == probe_with(on, bl, a, x).add(probe_with(on, bl, b, x))
}

proof fn lemma_splits_push(
    on: JoinOn,
    bl: bool,
    all: Seq<Seq<Value>>,
    a: Seq<Seq<Value>>,
    b: Seq<Seq<Value>>,
    row: Seq<Value>,
)
    requires
        splits_into(on, bl, all, a, b),
    ensures
        splits_into(on, bl, all.push(row), a.push(row), b),
        splits_into(on, bl, all.push(row), a, b.push(row)),
{
    assert forall|x: Seq<Value>| #[trigger]
        probe_with(on, bl, all.push(row), x) == probe_with(on, bl, a.push(row), x).add(
            probe_with(on, bl, b, x),
        ) by {
        lemma_found_push(on, bl, all, row, x);
        lemma_found_push(on, bl, a, row, x);
        assert(probe_with(on, bl, all, x) == probe_with(on, bl, a, x).add(
            probe_with(on, bl, b, x),
        ));
        assert(probe_with(on, bl, all.push(row), x) =~= probe_with(on, bl, a.push(row), x).add(
            probe_with(on, bl, b, x),
        ));
    }
    assert forall|x: Seq<Value>| #[trigger]
        probe_with(on, bl, all.push(row), x) == probe_with(on, bl, a, x).add(
            probe_with(on, bl, b.push(row), x),
        ) by {
        lemma_found_push(on, bl, all, row, x);
        lemma_found_push(on, bl, b, row, x);
        assert(probe_with(on, bl, all, x) == probe_with(on, bl, a, x).add(
            probe_with(on, bl, b, x),
        ));
        assert(probe_with(on, bl, all.push(row), x) =~= probe_with(on, bl, a, x).add(
            probe_with(on, bl, b.push(row), x),
        ));
    }
}

pub proof fn lemma_filter_push(
    rows: Seq<Seq<Value>>,
    row: Seq<Value>,
    keep: spec_fn(Seq<Value>) -> bool,
)
    ensures
        rows.push(row).filter(keep) == (if keep(row) {
            rows.filter(keep).push(row)
        } else {
            rows.filter(keep)
        }),
{
    reveal(Seq::filter);
    assert(rows.push(row).drop_last() =~= rows);
}

/// The bytes that the filters of all partitions take at most.
pub const MAX_FILTER_BYTES: usize = 163840;

/// Whether an error is that of memory for the filters: so many bytes as they may take are not
/// left.
pub open spec fn filters_short(e: DbError, memory: MemoryAccount) -> bool {
    (e is MemoryAccountingOverflow || e is MemoryBudgetExceeded) && memory.used + MAX_FILTER_BYTES
        > memory.budget
}

/// Takes the rows of the build side.
pub struct HybridBuild {
    pub build_is_left: bool,
    pub num_partitions: usize,
    pub writer_batch: usize,
    pub resident_budget: usize,
    pub resident: JoinTable,
    pub resident_bytes: usize,
    pub writers: PartitionWriters,
    pub filters: Vec<PartitionKeyBloom>,
    pub filter_bytes: usize,
    pub candidate: ExactBitmapCandidate,
    pub build_rows: Ghost<Seq<Seq<Value>>>,
}

/// Whether every row's hash is in the filter of its partition.
pub open spec fn filters_hold(
    filters: Seq<PartitionKeyBloom>,
    keys: Seq<int>,
    n: usize,
    rows: Seq<Seq<Value>>,
) -> bool {
    &&& filters.len() == n
    &&& forall|p: int| 0 <= p < filters.len() ==> (#[trigger] filters[p]).inv()
    &&& forall|i: int|
        0 <= i < rows.len() ==> filters[hash_part(key_hash(pick(#[trigger] rows[i], keys)), n)].may(
            key_hash(pick(rows[i], keys)),
        )
}

impl HybridBuild {
    /// The bytes that are reserved.
    pub open spec fn reserved(&self) -> nat {
        (self.resident_bytes + self.filter_bytes) as nat
    }

    pub open spec fn rows_ok(&self, params: &JoinParams) -> bool {
        let on = params@;
        let bl = self.build_is_left;
        let n = self.num_partitions;
        let keys = params.build_at(bl);
        let rows = self.build_rows@;
        &&& forall|p: int|
            1 <= p < n ==> #[trigger] self.writers.rows(p) == rows.filter(in_part(keys, n, p))
        &&& splits_into(
            on,
            bl,
            rows.filter(in_part(keys, n, 0)),
            self.resident.rows(),
            self.writers.rows(0),
        )
        &&& forall|i: int|
            0 <= i < rows.len() ==> self.resident.rows().contains(#[trigger] rows[i])
                || self.writers.rows(hash_part(key_hash(pick(rows[i], keys)), n)).contains(rows[i])
        &&& all_in(self.resident.rows(), rows)
        &&& all_in(self.writers.rows(0), rows)
        &&& forall|p: int|
            0 <= p < n ==> all_len(#[trigger] self.writers.rows(p), params.build_len(bl))
    }

    pub open spec fn inv(&self, params: &JoinParams, storage: &TempStorageManager) -> bool {
        let bl = self.build_is_left;
        let keys = params.build_at(bl);
        let n = self.num_partitions;
        &&& params.inv()
        &&& 0 < n <= MAX_ADAPTIVE_PARTITIONS
        &&& 0 < self.writer_batch <= MAX_BATCH_PAGES
        &&& self.writers.inv(storage)
        &&& self.writers.count() == n
        &&& self.resident.inv(keys, params.build_len(bl))
        &&& all_len(self.build_rows@, params.build_len(bl))
        &&& self.rows_ok(params)
        &&& filters_hold(self.filters@, keys, n, self.build_rows@)
        &&& forall|i: int|
            0 <= i < self.build_rows@.len() ==> self.candidate.covers(
                pick(#[trigger] self.build_rows@[i], keys),
            )
    }

    /// The build side depends on its own files alone.
    pub proof fn inv_kept(
        &self,
        params: &JoinParams,
        before: &TempStorageManager,
        after: &TempStorageManager,
        touched: Set<u64>,
    )
        requires
            self.inv(params, before),
            after.inv(),
            unharmed(before, after, touched),
            touched.disjoint(self.writers.files()),
        ensures
            self.inv(params, after),
    {
        self.writers.inv_kept(before, after, touched);
    }

    /// Starts with no rows; the memory for the filters is reserved.
    pub fn start(
        params: &JoinParams,
        build_is_left: bool,
        sort_run_bytes: usize,
        memory: &mut QueryMemoryManager,
        storage: &TempStorageManager,
    ) -> (r: Result<HybridBuild, DbError>)
        requires
            params.inv(),
            storage.inv(),
            old(memory)@.inv(),
        ensures
            final(memory)@.inv(),
            match r {
                Ok(h) => {
                    &&& h.inv(params, storage)
                    &&& h.build_is_left == build_is_left
                    &&& h.build_rows@ == Seq::<Seq<Value>>::empty()
                    &&& h.writers.files() == Set::<u64>::empty()
                    &&& final(memory)@.used == old(memory)@.used + h.reserved()
                },
                Err(e) => filters_short(e, old(memory)@),
            },
    {
        let block_size: usize = storage.block_size();
        let n: usize = choose_adaptive_partitions(sort_run_bytes, block_size);
        let writer_batch: usize = choose_adaptive_writer_batch(sort_run_bytes, block_size, n);
        let resident_budget: usize = choose_hybrid_resident_budget_bytes(
            sort_run_bytes,
            block_size,
        );
        let mut filters: Vec<PartitionKeyBloom> = Vec::new();
        let mut i: usize = 0;
        while i < n
            invariant
                i <= n,
                filters@.len() == i,
                forall|p: int| 0 <= p < i ==> (#[trigger] filters@[p]).inv(),
            decreases n - i,
        {
            filters.push(PartitionKeyBloom::new());
            i += 1;
        }
        let filter_bytes: usize = estimate_partition_filter_bytes(n);
        match memory.try_reserve(filter_bytes) {
            Ok(_) => {},
            Err(e) => {
                return Err(e);
            },
        }
        let h = HybridBuild {
            build_is_left,
            num_partitions: n,
            writer_batch,
            resident_budget,
            resident: JoinTable::new(),
            resident_bytes: 0,
            writers: PartitionWriters::new(n, writer_batch),
            filters,
            filter_bytes,
            candidate: ExactBitmapCandidate::default(),
            build_rows: Ghost(Seq::empty()),
        };
        proof {
            let on = params@;
            let keys = params.build_at(build_is_left);
            let none = Seq::<Seq<Value>>::empty();
            reveal(Seq::filter);
            assert forall|p: int| 0 <= p < n implies #[trigger] h.writers.rows(p) == none by {
                assert(h.writers.file(p) is None);
            }
            assert forall|p: int| 1 <= p < n implies #[trigger] h.writers.rows(p)
                == h.build_rows@.filter(in_part(keys, n, p)) by {
                assert(none.filter(in_part(keys, n, p)) =~= none);
            }
            let zero = h.build_rows@.filter(in_part(keys, n, 0));
            assert(zero =~= none);
            assert(h.writers.rows(0) == none);
            assert forall|x: Seq<Value>| #[trigger]
                probe_with(on, build_is_left, zero, x) == probe_with(
                    on,
                    build_is_left,
                    h.resident.rows(),
                    x,
                ).add(probe_with(on, build_is_left, h.writers.rows(0), x)) by {
                assert(probe_with(on, build_is_left, zero, x) =~= probe_with(
                    on,
                    build_is_left,
                    h.resident.rows(),
                    x,
                ).add(probe_with(on, build_is_left, h.writers.rows(0), x)));
            }
            assert(h.writers.inv(storage));
        }
        Ok(h)
    }

    /// Takes a row. A row of the resident partition stays in memory where there is room for it.
    #[verifier::rlimit(40)]
    pub fn add_row(
        &mut self,
        row: Row,
        params: &JoinParams,
        memory: &mut QueryMemoryManager,
        storage: &mut TempStorageManager,
    ) -> (r: Result<(), DbError>)
        requires
            old(self).inv(params, old(storage)),
            old(memory)@.inv(),
            row@.len() == params.build_len(old(self).build_is_left),
        ensures
            final(storage).inv(),
            final(memory)@.inv(),
            untouched(old(storage), final(storage), old(self).writers.files()),
            r is Ok ==> {
                &&& final(self).inv(params, final(storage))
                &&& final(self).build_is_left == old(self).build_is_left
                &&& final(self).build_rows@ == old(self).build_rows@.push(row@)
                &&& final(memory)@.used + old(self).reserved() == old(memory)@.used + final(
                    self).reserved()
                &&& forall|f: u64| #[trigger]
                    final(self).writers.files().contains(f) ==> old(self).writers.files().contains(
                        f,
                    ) || !old(storage).has_file(f)
            },
            r matches Err(e) ==> cannot_store(e, row@, final(storage)),
            r matches Err(e) ==> cannot_store(e, row@, old(storage)),
            grew_by(old(storage), final(storage), MAX_BATCH_PAGES as nat, 1),
    {
        let ghost before = *self;
        let ghost on = params@;
        let ghost bl = self.build_is_left;
        let ghost n = self.num_partitions;
        let ghost keys = params.build_at(bl);
        let ghost len = params.build_len(bl);
        let ghost rv = row@;
        let ghost s0 = *storage;
        let key_indices = params.keys_of(self.build_is_left);
        proof {
            untouched_same(&s0, storage, before.writers.files());
            before.writers.inv_gives(storage);
        }
        self.candidate.observe_row(&row, key_indices);
        let h: u64 = key_hash64(&row, key_indices);
        let part: usize = part_of_hash(h, self.num_partitions);
        self.filters[part].add_hash(h);
        let bytes: usize = estimate_hash_build_row_bytes(&row, key_indices);
        let fits = match self.resident_bytes.checked_add(bytes) {
            Some(total) => part == 0 && total <= self.resident_budget && memory.available_bytes()
                >= bytes,
            None => false,
        };
        let ghost after = before.build_rows@.push(rv);
        proof {
            lemma_parts_push(before.build_rows@, rv, keys, n);
            lemma_filters_push(
                before.filters@,
                self.filters@,
                keys,
                n,
                before.build_rows@,
                rv,
            );
            assert forall|i: int| 0 <= i < after.len() implies self.candidate.covers(
                pick(#[trigger] after[i], keys),
            ) by {
                if i < before.build_rows@.len() {
                    assert(after[i] == before.build_rows@[i]);
                    assert(before.candidate.covers(pick(before.build_rows@[i], keys)));
                }
            }
            lemma_splits_push(
                on,
                bl,
                before.build_rows@.filter(in_part(keys, n, 0)),
                before.resident.rows(),
                before.writers.rows(0),
                rv,
            );
        }
        if fits {
            match memory.try_reserve(bytes) {
                Ok(_) => {},
                Err(e) => {
                    return Err(e);
                },
            }
            self.resident_bytes = self.resident_bytes + bytes;
            self.resident.insert(row, key_indices);
            proof {
                self.build_rows@ = after;
                lemma_all_in_push(before.resident.rows(), before.build_rows@, rv);
                lemma_all_in_push(before.writers.rows(0), before.build_rows@, rv);
                assert forall|i: int| 0 <= i < after.len() implies self.resident.rows().contains(
                    #[trigger] after[i],
                ) || self.writers.rows(hash_part(key_hash(pick(after[i], keys)), n)).contains(
                    after[i],
                ) by {
                    lemma_contains_push(before.resident.rows(), rv);
                    if i < before.build_rows@.len() {
                        assert(after[i] == before.build_rows@[i]);
                    }
                }
                assert forall|p: int| 1 <= p < n implies #[trigger] self.writers.rows(p)
                    == after.filter(in_part(keys, n, p)) by {
                    assert(before.writers.rows(p) == before.build_rows@.filter(
                        in_part(keys, n, p),
                    ));
                }
            }
            return Ok(());
        }
        match self.writers.append(part, &row, storage) {
            Ok(_) => {},
            Err(e) => {
                return Err(e);
            },
        }
        proof {
            self.build_rows@ = after;
            assert forall|p: int| 1 <= p < n implies #[trigger] self.writers.rows(p)
                == after.filter(in_part(keys, n, p)) by {
                assert(before.writers.rows(p) == before.build_rows@.filter(in_part(keys, n, p)));
            }
            assert forall|p: int| 0 <= p < n implies all_len(
                #[trigger] self.writers.rows(p),
                len,
            ) by {
                assert(all_len(before.writers.rows(p), len));
            }
            assert forall|i: int| 0 <= i < after.len() implies self.resident.rows().contains(
                #[trigger] after[i],
            ) || self.writers.rows(hash_part(key_hash(pick(after[i], keys)), n)).contains(
                after[i],
            ) by {
                lemma_contains_push(before.writers.rows(part as int), rv);
                if i < before.build_rows@.len() {
                    assert(after[i] == before.build_rows@[i]);
                    let q = hash_part(key_hash(pick(after[i], keys)), n);
                    assert(all_len(before.writers.rows(q), len));
                }
            }
            if part != 0 {
                assert(self.writers.rows(0) == before.writers.rows(0));
            }
            lemma_all_in_push(before.resident.rows(), before.build_rows@, rv);
            lemma_all_in_push(before.writers.rows(0), before.build_rows@, rv);
        }
        Ok(())
    }
}

proof fn lemma_contains_push(rows: Seq<Seq<Value>>, row: Seq<Value>)
    ensures
        rows.push(row).contains(row),
        forall|x: Seq<Value>| #[trigger] rows.contains(x) ==> rows.push(row).contains(x),
{
    assert(rows.push(row)[rows.len() as int] == row);
    assert forall|x: Seq<Value>| #[trigger] rows.contains(x) implies rows.push(row).contains(x) by {
        let i = choose|i: int| 0 <= i < rows.len() && rows[i] == x;
        assert(rows.push(row)[i] == x);
    }
}

pub(crate) proof fn lemma_all_in_push(a: Seq<Seq<Value>>, b: Seq<Seq<Value>>, row: Seq<Value>)
    requires
        all_in(a, b),
    ensures
        all_in(a, b.push(row)),
        all_in(a.push(row), b.push(row)),
{
    lemma_contains_push(b, row);
    let more = a.push(row);
    assert forall|i: int| 0 <= i < more.len() implies b.push(row).contains(#[trigger] more[i]) by {
        if i < a.len() {
            assert(more[i] == a[i]);
            assert(b.contains(a[i]));
        }
    }
    assert forall|i: int| 0 <= i < a.len() implies b.push(row).contains(#[trigger] a[i]) by {
        assert(b.contains(a[i]));
    }
}

proof fn lemma_parts_push(rows: Seq<Seq<Value>>, row: Seq<Value>, keys: Seq<int>, n: usize)
    ensures
        forall|p: int| #[trigger]
            rows.push(row).filter(in_part(keys, n, p)) == (if hash_part(
                key_hash(pick(row, keys)),
                n,
            ) == p {
                rows.filter(in_part(keys, n, p)).push(row)
            } else {
                rows.filter(in_part(keys, n, p))
            }),
{
    assert forall|p: int| #[trigger]
        rows.push(row).filter(in_part(keys, n, p)) == (if hash_part(
            key_hash(pick(row, keys)),
            n,
        ) == p {
            rows.filter(in_part(keys, n, p)).push(row)
        } else {
            rows.filter(in_part(keys, n, p))
        }) by {
        lemma_filter_push(rows, row, in_part(keys, n, p));
    }
}

proof fn lemma_filters_push(
    before: Seq<PartitionKeyBloom>,
    after: Seq<PartitionKeyBloom>,
    keys: Seq<int>,
    n: usize,
    rows: Seq<Seq<Value>>,
    row: Seq<Value>,
)
    requires
        n > 0,
        filters_hold(before, keys, n, rows),
        after.len() == n,
        forall|p: int| 0 <= p < n ==> (#[trigger] after[p]).inv(),
        forall|p: int, h: u64|
            0 <= p < n && #[trigger] before[p].may(h) ==> #[trigger] after[p].may(h),
        after[hash_part(key_hash(pick(row, keys)), n)].may(key_hash(pick(row, keys))),
    ensures
        filters_hold(after, keys, n, rows.push(row)),
{
    let all = rows.push(row);
    assert forall|i: int| 0 <= i < all.len() implies after[hash_part(
        key_hash(pick(#[trigger] all[i], keys)),
        n,
    )].may(key_hash(pick(all[i], keys))) by {
        if i < rows.len() {
            assert(all[i] == rows[i]);
            let h = key_hash(pick(rows[i], keys));
            assert(before[hash_part(h, n)].may(h));
        }
    }
}

} // verus!

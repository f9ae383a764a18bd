//! Splitting the two sides of a join into partitions.

use vstd::prelude::*;
use crate::bloom::BloomFilter;
use crate::error::DbError;
use crate::hashing::{compute_join_key_hash, partition_hash_with_salt, salted_partition, sip_hash};
use crate::join_spec::{JoinOn, join_of, join_splits_into_parts, joins, left_part, lemma_left_part_push, lemma_right_part_push, lemma_sum_same, part_join, right_part, sum_parts};
use crate::join_table::{JoinParams, all_in, all_len, decided, lemma_all_in_filter};
use crate::pairs::{FilePair, both_sided, finish_pairs, lemma_parts_decided, pair_files, pairs_decided, pairs_hold, pairs_join, pairs_ok, rows_by_part, same_hold, shares, writers_join};
use crate::partition::PartitionWriters;
use crate::row::{Row, pick};
use crate::temp_run::{cannot_store, fits_page};
use crate::temp_storage::{MAX_BATCH_PAGES, TempStorageManager, grew, let_go, no_new_files, out_of_room, unharmed, untouched, untouched_more};
use crate::value::Value;
use crate::join_plan::{MAX_HASH_JOIN_PARTITIONS, SPLIT_PAGES};

verus! {

/// The partition of a left row.
pub open spec fn left_partition(on: JoinOn, n: usize, salt: u64) -> spec_fn(Seq<Value>) -> int {
    |l: Seq<Value>| salted_partition(pick(l, on.left_keys), n, salt)
}

/// Whether a right row is kept, and in which partition.
pub open spec fn right_belongs(
    on: JoinOn,
    n: usize,
    salt: u64,
    bloom: Option<BloomFilter>,
) -> spec_fn(int, Seq<Value>) -> bool {
    |p: int, r: Seq<Value>|
        salted_partition(pick(r, on.right_keys), n, salt) == p && (bloom matches Some(b) ==> b.may(
            sip_hash(pick(r, on.right_keys)),
        ))
}

/// Distributes left rows, then right rows, over partitions. With a Bloom filter, right rows that
/// can match no left row are dropped.
pub struct Splitter {
    lw: PartitionWriters,
    rw: PartitionWriters,
    num_partitions: usize,
    salt: u64,
    bloom: Option<BloomFilter>,
    left_rows: Ghost<Seq<Seq<Value>>>,
    right_rows: Ghost<Seq<Seq<Value>>>,
}

proof fn lemma_all_len_filter(rows: Seq<Seq<Value>>, keep: spec_fn(Seq<Value>) -> bool, len: nat)
    requires
        all_len(rows, len),
    ensures
        all_len(rows.filter(keep), len),
    decreases rows.len(),
{
    reveal(Seq::filter);
    if rows.len() > 0 {
        let init = rows.drop_last();
        assert forall|i: int| 0 <= i < init.len() implies (#[trigger] init[i]).len() == len by {
            assert(init[i] == rows[i]);
        }
        lemma_all_len_filter(init, keep, len);
        assert(rows[rows.len() - 1] == rows.last());
    }
}

impl Splitter {
    /// The left rows so far.
    pub closed spec fn left(&self) -> Seq<Seq<Value>> {
        self.left_rows@
    }

    /// The right rows so far, those dropped among them.
    pub closed spec fn right(&self) -> Seq<Seq<Value>> {
        self.right_rows@
    }

    /// How many pages are written at a time.
    pub closed spec fn batch(&self) -> nat {
        self.lw.batch() as nat
    }

    /// Whether the storage has room for a batch of each writer.
    pub open spec fn room(&self, storage: &TempStorageManager) -> bool {
        storage.roomy(shares(self.parts(), 2 * self.batch()) + MAX_BATCH_PAGES as nat)
    }

    /// How many partitions there are.
    pub closed spec fn parts(&self) -> nat {
        self.num_partitions as nat
    }

    /// The left rows of a partition.
    pub closed spec fn left_in(&self, on: JoinOn) -> spec_fn(int) -> Seq<Seq<Value>> {
        |p: int|
            left_part(self.left_rows@, left_partition(on, self.num_partitions, self.salt), p)
    }

    /// The right rows of a partition.
    pub closed spec fn right_in(&self, on: JoinOn) -> spec_fn(int) -> Seq<Seq<Value>> {
        |p: int|
            right_part(
                self.right_rows@,
                right_belongs(on, self.num_partitions, self.salt, self.bloom),
                p,
            )
    }

    /// What partitions hold is of what was split.
    proof fn lemma_parts_in(&self, on: JoinOn)
        ensures
            forall|p: int| all_in(#[trigger] (self.left_in(on))(p), self.left()),
            forall|p: int| all_in(#[trigger] (self.right_in(on))(p), self.right()),
    {
        let part = left_partition(on, self.num_partitions, self.salt);
        let belongs = right_belongs(on, self.num_partitions, self.salt, self.bloom);
        assert forall|p: int| all_in(#[trigger] (self.left_in(on))(p), self.left()) by {
            lemma_all_in_filter(self.left_rows@, |l: Seq<Value>| part(l) == p);
        }
        assert forall|p: int| all_in(#[trigger] (self.right_in(on))(p), self.right()) by {
            lemma_all_in_filter(self.right_rows@, |r: Seq<Value>| belongs(p, r));
        }
    }

    /// Room for what a partitioning may write is room for what this one does.
    proof fn room_enough(&self, storage: &TempStorageManager)
        requires
            self.parts() <= MAX_HASH_JOIN_PARTITIONS,
            self.batch() <= 128,
            storage.roomy(SPLIT_PAGES as nat),
        ensures
            self.room(storage),
    {
        reveal(shares);
        let p = self.parts();
        let b = 2 * self.batch();
        assert(p * b <= 32 * 256) by (nonlinear_arith)
            requires
                p <= 32,
                b <= 256,
        ;
        storage.roomy_for_fewer(SPLIT_PAGES as nat, shares(p, b) + MAX_BATCH_PAGES as nat);
    }

    pub closed spec fn files(&self) -> Set<u64> {
        self.lw.files().union(self.rw.files())
    }

    closed spec fn rows_ok(&self, on: JoinOn) -> bool {
        &&& forall|p: int|
            0 <= p < self.num_partitions ==> #[trigger] self.lw.rows(p) == left_part(
                self.left_rows@,
                left_partition(on, self.num_partitions, self.salt),
                p,
            )
        &&& forall|p: int|
            0 <= p < self.num_partitions ==> #[trigger] self.rw.rows(p) == right_part(
                self.right_rows@,
                right_belongs(on, self.num_partitions, self.salt, self.bloom),
                p,
            )
    }

    closed spec fn bloom_ok(&self, on: JoinOn) -> bool {
        self.bloom matches Some(b) ==> b.inv() && forall|i: int|
            0 <= i < self.left_rows@.len() ==> b.may(
                sip_hash(pick(#[trigger] self.left_rows@[i], on.left_keys)),
            )
    }

    pub closed spec fn inv(&self, params: &JoinParams, storage: &TempStorageManager) -> bool {
        &&& params.inv()
        &&& self.num_partitions > 0
        &&& self.lw.count() == self.num_partitions
        &&& self.rw.count() == self.num_partitions
        &&& self.rw.batch() == self.lw.batch()
        &&& self.lw.inv(storage)
        &&& self.rw.inv(storage)
        &&& self.lw.files().disjoint(self.rw.files())
        &&& self.lw.files_have_rows()
        &&& self.rw.files_have_rows()
        &&& self.rows_ok(params@)
        &&& self.bloom_ok(params@)
        &&& all_len(self.left_rows@, params.left_len as nat)
        &&& all_len(self.right_rows@, params.right_len as nat)
    }

    pub proof fn inv_gives(&self, params: &JoinParams, storage: &TempStorageManager)
        requires
            self.inv(params, storage),
        ensures
            storage.inv(),
            forall|f: u64| #[trigger] self.files().contains(f) ==> storage.has_file(f),
            all_len(self.left(), params.left_len as nat),
            all_len(self.right(), params.right_len as nat),
    {
        self.lw.inv_gives(storage);
        self.rw.inv_gives(storage);
    }

    /// A splitter depends on its own files alone.
    pub proof fn inv_kept(
        &self,
        params: &JoinParams,
        before: &TempStorageManager,
        after: &TempStorageManager,
        touched: Set<u64>,
    )
        requires
            self.inv(params, before),
            after.inv(),
            unharmed(before, after, touched),
            touched.disjoint(self.files()),
        ensures
            self.inv(params, after),
    {
        assert(touched.disjoint(self.lw.files()));
        assert(touched.disjoint(self.rw.files()));
        self.lw.inv_kept(before, after, touched);
        self.rw.inv_kept(before, after, touched);
    }

    /// Makes a splitter with nothing in it.
    pub fn new(
        num_partitions: usize,
        writer_batch: usize,
        salt: u64,
        bloom: Option<BloomFilter>,
        params: &JoinParams,
        storage: &TempStorageManager,
    ) -> (r: Splitter)
        requires
            params.inv(),
            storage.inv(),
            num_partitions > 0,
            0 < writer_batch <= MAX_BATCH_PAGES,
            bloom matches Some(b) ==> b.inv(),
        ensures
            r.inv(params, storage),
            r.left() == Seq::<Seq<Value>>::empty(),
            r.right() == Seq::<Seq<Value>>::empty(),
            r.files() == Set::<u64>::empty(),
            r.batch() == writer_batch,
            r.parts() == num_partitions,
    {
        let r = Splitter {
            lw: PartitionWriters::new(num_partitions, writer_batch),
            rw: PartitionWriters::new(num_partitions, writer_batch),
            num_partitions,
            salt,
            bloom,
            left_rows: Ghost(Seq::empty()),
            right_rows: Ghost(Seq::empty()),
        };
        proof {
            reveal(Seq::filter);
            let none = Seq::<Seq<Value>>::empty();
            assert forall|p: int| 0 <= p < r.num_partitions implies #[trigger] r.lw.rows(p)
                == left_part(none, left_partition(params@, num_partitions, salt), p) by {
                assert(r.lw.file(p) is None);
                assert(left_part(none, left_partition(params@, num_partitions, salt), p) =~= none);
            }
            assert forall|p: int| 0 <= p < r.num_partitions implies #[trigger] r.rw.rows(p)
                == right_part(none, right_belongs(params@, num_partitions, salt, bloom), p) by {
                assert(r.rw.file(p) is None);
                assert(right_part(none, right_belongs(params@, num_partitions, salt, bloom), p)
                    =~= none);
            }
            assert(r.lw.inv(storage));
            assert(r.rw.inv(storage));
            assert(r.files() =~= Set::<u64>::empty());
        }
        r
    }

    /// Takes a left row. All left rows come before the first right row.
    pub fn add_left(&mut self, params: &JoinParams, row: &Row, storage: &mut TempStorageManager)
        -> (r: Result<(), DbError>)
        requires
            old(self).inv(params, old(storage)),
            old(self).right().len() == 0,
            row@.len() == params.left_len,
        ensures
            final(storage).inv(),
            untouched(old(storage), final(storage), old(self).files()),
            r is Ok ==> {
                &&& final(self).inv(params, final(storage))
                &&& final(self).left() == old(self).left().push(row@)
                &&& final(self).right() == old(self).right()
                &&& final(self).batch() == old(self).batch()
                &&& final(self).parts() == old(self).parts()
                &&& old(self).files().subset_of(final(self).files())
                &&& forall|f: u64| #[trigger]
                    final(self).files().contains(f) ==> old(self).files().contains(f) || !old(
                        storage,
                    ).has_file(f)
            },
            fits_page(row@, old(storage).size()) && old(storage).roomy(old(self).batch())
                ==> r is Ok,
            r matches Err(e) ==> cannot_store(e, row@, final(storage)),
    {
        let ghost on = params@;
        let keys = params.keys_of(true);
        let ghost key = pick(row@, on.left_keys);
        let h: u64 = compute_join_key_hash(row, keys);
        let ghost old_bloom = self.bloom;
        let mut filter: Option<BloomFilter> = None;
        core::mem::swap(&mut self.bloom, &mut filter);
        match filter {
            Some(b) => {
                let mut b = b;
                b.insert(h);
                self.bloom = Some(b);
            },
            None => {},
        }
        let part: usize = partition_hash_with_salt(row, keys, self.num_partitions, self.salt);
        let ghost s1 = *storage;
        let ghost lw1 = self.lw;
        proof {
            self.lw.inv_gives(storage);
            self.rw.inv_gives(storage);
        }
        let r = self.lw.append(part, row, storage);
        proof {
            untouched_more(&s1, storage, lw1.files(), old(self).files());
        }
        match r {
            Ok(_) => {},
            Err(e) => {
                return Err(e);
            },
        }
        proof {
            self.left_rows@ = old(self).left_rows@.push(row@);
            let f = left_partition(on, self.num_partitions, self.salt);
            assert forall|p: int| 0 <= p < self.num_partitions implies #[trigger] self.lw.rows(p)
                == left_part(self.left_rows@, f, p) by {
                lemma_left_part_push(old(self).left_rows@, row@, f, p);
                assert(old(self).lw.rows(p) == left_part(old(self).left_rows@, f, p));
            }
            assert forall|p: int| 0 <= p < self.num_partitions implies #[trigger] self.rw.rows(p)
                == right_part(
                self.right_rows@,
                right_belongs(on, self.num_partitions, self.salt, self.bloom),
                p,
            ) by {
                reveal(Seq::filter);
                assert(old(self).rw.rows(p) =~= Seq::<Seq<Value>>::empty());
                assert(right_part(
                    self.right_rows@,
                    right_belongs(on, self.num_partitions, self.salt, self.bloom),
                    p,
                ) =~= Seq::<Seq<Value>>::empty());
            }
            if self.bloom is Some {
                let b = self.bloom->0;
                let ob = old_bloom->0;
                assert forall|i: int| 0 <= i < self.left_rows@.len() implies b.may(
                    sip_hash(pick(#[trigger] self.left_rows@[i], on.left_keys)),
                ) by {
                    if i < old(self).left_rows@.len() {
                        assert(ob.may(sip_hash(pick(old(self).left_rows@[i], on.left_keys))));
                    }
                }
            }
            assert(self.lw.files().disjoint(self.rw.files()));
            assert(untouched(&s1, storage, lw1.files()));
            assert(lw1.files().disjoint(self.rw.files()));
            self.rw.inv_kept(&s1, storage, lw1.files());
        }
        Ok(())
    }

    /// Takes a right row.
    pub fn add_right(&mut self, params: &JoinParams, row: &Row, storage: &mut TempStorageManager)
        -> (r: Result<(), DbError>)
        requires
            old(self).inv(params, old(storage)),
            row@.len() == params.right_len,
        ensures
            final(storage).inv(),
            untouched(old(storage), final(storage), old(self).files()),
            r is Ok ==> {
                &&& final(self).inv(params, final(storage))
                &&& final(self).left() == old(self).left()
                &&& final(self).right() == old(self).right().push(row@)
                &&& final(self).batch() == old(self).batch()
                &&& final(self).parts() == old(self).parts()
                &&& old(self).files().subset_of(final(self).files())
                &&& forall|f: u64| #[trigger]
                    final(self).files().contains(f) ==> old(self).files().contains(f) || !old(
                        storage,
                    ).has_file(f)
            },
            fits_page(row@, old(storage).size()) && old(storage).roomy(old(self).batch())
                ==> r is Ok,
            r matches Err(e) ==> cannot_store(e, row@, final(storage)),
    {
        let ghost on = params@;
        let keys = params.keys_of(false);
        let ghost key = pick(row@, on.right_keys);
        let ghost s1 = *storage;
        let ghost belongs = right_belongs(on, self.num_partitions, self.salt, self.bloom);
        proof {
            self.lw.inv_gives(storage);
            self.rw.inv_gives(storage);
        }
        let keep = match &self.bloom {
            Some(b) => b.may_contain(compute_join_key_hash(row, keys)),
            None => true,
        };
        if !keep {
            proof {
                self.right_rows@ = old(self).right_rows@.push(row@);
                assert forall|p: int| 0 <= p < self.num_partitions implies #[trigger] self.rw.rows(
                    p,
                ) == right_part(self.right_rows@, belongs, p) by {
                    lemma_right_part_push(old(self).right_rows@, row@, belongs, p);
                    assert(old(self).rw.rows(p) == right_part(
                        old(self).right_rows@,
                        belongs,
                        p,
                    ));
                }
                assert(self.rows_ok(on)) by {
                    assert forall|p: int|
                        0 <= p < self.num_partitions implies #[trigger] self.lw.rows(p)
                        == left_part(
                        self.left_rows@,
                        left_partition(on, self.num_partitions, self.salt),
                        p,
                    ) by {
                        assert(old(self).lw.rows(p) == self.lw.rows(p));
                    }
                }
                crate::temp_storage::untouched_same(&s1, storage, old(self).files());
            }
            return Ok(());
        }
        let part: usize = partition_hash_with_salt(row, keys, self.num_partitions, self.salt);
        let ghost rw1 = self.rw;
        let r = self.rw.append(part, row, storage);
        proof {
            untouched_more(&s1, storage, rw1.files(), old(self).files());
        }
        match r {
            Ok(_) => {},
            Err(e) => {
                return Err(e);
            },
        }
        proof {
            self.right_rows@ = old(self).right_rows@.push(row@);
            assert forall|p: int| 0 <= p < self.num_partitions implies #[trigger] self.rw.rows(p)
                == right_part(self.right_rows@, belongs, p) by {
                lemma_right_part_push(old(self).right_rows@, row@, belongs, p);
                assert(old(self).rw.rows(p) == right_part(old(self).right_rows@, belongs, p));
            }
            assert forall|p: int| 0 <= p < self.num_partitions implies #[trigger] self.lw.rows(p)
                == left_part(
                self.left_rows@,
                left_partition(on, self.num_partitions, self.salt),
                p,
            ) by {
                assert(old(self).lw.rows(p) == self.lw.rows(p));
            }
            assert(self.lw.files().disjoint(self.rw.files()));
            assert(untouched(&s1, storage, rw1.files()));
            assert(rw1.files().disjoint(self.lw.files()));
            self.lw.inv_kept(&s1, storage, rw1.files());
        }
        Ok(())
    }

    proof fn lemma_sum(&self, params: &JoinParams, storage: &TempStorageManager)
        requires
            self.inv(params, storage),
        ensures
            sum_parts(
                self.num_partitions as nat,
                writers_join(params@, &self.lw, &self.rw),
            ) == join_of(params@, self.left(), self.right()),
    {
        let on = params@;
        let n = self.num_partitions;
        let part = left_partition(on, n, self.salt);
        let belongs = right_belongs(on, n, self.salt, self.bloom);
        let ls = self.left_rows@;
        let rs = self.right_rows@;
        assert forall|i: int| 0 <= i < ls.len() implies 0 <= part(#[trigger] ls[i]) < n by {}
        assert forall|i: int, j: int|
            0 <= i < ls.len() && 0 <= j < rs.len() && joins(
                on,
                #[trigger] ls[i],
                #[trigger] rs[j],
            ) implies belongs(part(ls[i]), rs[j]) by {
            assert(pick(ls[i], on.left_keys) == pick(rs[j], on.right_keys));
        }
        join_splits_into_parts(on, ls, rs, n as nat, part, belongs);
        let a = part_join(on, ls, rs, part, belongs);
        let b = writers_join(on, &self.lw, &self.rw);
        assert forall|p: int| 0 <= p < n implies #[trigger] a(p) == b(p) by {
            assert(self.lw.rows(p) == left_part(ls, part, p));
            assert(self.rw.rows(p) == right_part(rs, belongs, p));
        }
        lemma_sum_same(n as nat, a, b);
    }

    /// Finishes the partitions: those with rows on both sides are kept, and their joins together
    /// are the join of all rows.
    pub fn finish(self, params: &JoinParams, storage: &mut TempStorageManager) -> (r: Result<
        Vec<FilePair>,
        DbError,
    >)
        requires
            self.inv(params, old(storage)),
        ensures
            final(storage).inv(),
            untouched(old(storage), final(storage), self.files()),
            no_new_files(old(storage), final(storage)),
            r matches Ok(pairs) ==> decided(params@, self.left(), self.right()) ==> pairs_decided(
                params@,
                final(storage),
                pairs@,
            ),
            r matches Ok(pairs) ==> {
                &&& let_go(self.files(), pair_files(pairs@), final(storage))
                &&& pairs_hold(
                    pairs@,
                    final(storage),
                    both_sided(self.parts(), self.left_in(params@), self.right_in(params@)),
                    self.left_in(params@),
                    self.right_in(params@),
                )
                &&& pairs_ok(
                    pairs@,
                    final(storage),
                    params.left_len as nat,
                    params.right_len as nat,
                )
                &&& pair_files(pairs@).subset_of(self.files())
                &&& pairs_join(params@, final(storage), pairs@) == join_of(
                    params@,
                    self.left(),
                    self.right(),
                )
            },
            grew(old(storage), final(storage), shares(self.parts(), 2 * self.batch())),
            self.room(old(storage)) ==> r is Ok,
            self.parts() <= MAX_HASH_JOIN_PARTITIONS && self.batch() <= 128 && old(storage).roomy(
                SPLIT_PAGES as nat,
            ) ==> r is Ok,
            r matches Err(e) ==> out_of_room(e, final(storage)),
    {
        proof {
            if self.parts() <= MAX_HASH_JOIN_PARTITIONS && self.batch() <= 128 && storage.roomy(
                SPLIT_PAGES as nat,
            ) {
                self.room_enough(storage);
            }
            self.lemma_sum(params, storage);
            let on = params@;
            assert forall|p: int| 0 <= p < self.num_partitions implies all_len(
                #[trigger] self.lw.rows(p),
                params.left_len as nat,
            ) by {
                let part = left_partition(on, self.num_partitions, self.salt);
                lemma_all_len_filter(
                    self.left_rows@,
                    |l: Seq<Value>| part(l) == p,
                    params.left_len as nat,
                );
            }
            assert forall|p: int| 0 <= p < self.num_partitions implies all_len(
                #[trigger] self.rw.rows(p),
                params.right_len as nat,
            ) by {
                let belongs = right_belongs(on, self.num_partitions, self.salt, self.bloom);
                lemma_all_len_filter(
                    self.right_rows@,
                    |r: Seq<Value>| belongs(p, r),
                    params.right_len as nat,
                );
            }
        }
        let ghost ls = rows_by_part(&self.lw);
        let ghost rs = rows_by_part(&self.rw);
        let ghost on = params@;
        let r = finish_pairs(
            self.lw,
            self.rw,
            storage,
            Ghost(params@),
            Ghost(params.left_len as nat),
            Ghost(params.right_len as nat),
        );
        proof {
            if r is Ok {
                same_hold(
                    r->Ok_0@,
                    storage,
                    self.parts(),
                    ls,
                    rs,
                    self.left_in(on),
                    self.right_in(on),
                );
                if decided(on, self.left(), self.right()) {
                    self.lemma_parts_in(on);
                    lemma_parts_decided(
                        on,
                        storage,
                        r->Ok_0@,
                        both_sided(self.parts(), self.left_in(on), self.right_in(on)),
                        self.left_in(on),
                        self.right_in(on),
                        self.left(),
                        self.right(),
                    );
                }
            }
        }
        r
    }
}

} // verus!

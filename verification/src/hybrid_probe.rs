//! The probe side of a hybrid hash join: its rows are written to the files of their partitions,
//! unless a filter shows that they have no match.

use vstd::multiset::Multiset;
use vstd::prelude::*;
use crate::adaptive_spec::{contribution, lemma_found_concat, lemma_no_contribution, lemma_total_push, total};
use crate::bitmap_scan::{BitmapScan, ScanNext};
use crate::bloom::{ExactIntBitmap, PartitionKeyBloom, int_key, single_int_key_value};
use crate::error::DbError;
use crate::hashing::key_hash;
use crate::hybrid_build::{HybridBuild, filters_hold, hash_part, in_part, lemma_all_in_push, splits_into};
use crate::hybrid_parts::{ResidentPhase, resident_files, resident_value, resident_within};
use crate::join_spec::{JoinOn, joins, lemma_probe_with_filtered, lemma_sum_change, lemma_sum_empty, lemma_sum_same, probe_with, sum_parts};
use crate::join_table::{JoinParams, JoinTable, all_in, all_len, lemma_all_in_filter, lemma_filter_in};
use crate::memory::QueryMemoryManager;
use crate::pairs::{FilePair, lemma_pairs_kept, lemma_within_kept, pair_files, pairs_ok, pairs_within};
use crate::part_files::{FinishedParts, finalize_partition_pairs, pairs_total, parts_in, parts_total, writers_in};
use crate::partition::PartitionWriters;
use crate::probe_filter::{bitmap_holds, bitmap_spans, populate_bitmap_from_build_map};
use crate::row::{Row, pick};
use crate::progress::{nearer, not_farther};
use crate::temp_run::{TempRunWriter, blocks_of, cannot_store, is_content, run_of};
use crate::temp_storage::{MAX_BATCH_PAGES, TempFileId, TempStorageManager, grew_by, out_of_room, unharmed, untouched, untouched_but, untouched_file, untouched_more, untouched_same, untouched_twice};
use crate::value::Value;
use crate::adaptive_plan::{MAX_ADAPTIVE_PARTITIONS, FINISH_PAGES};

verus! {

/// Takes the rows of the probe side.
pub struct HybridProbe {
    pub build_is_left: bool,
    pub num_partitions: usize,
    pub writer_batch: usize,
    pub resident: JoinTable,
    pub resident_bytes: usize,
    pub filters: Vec<PartitionKeyBloom>,
    pub filter_bytes: usize,
    pub scan: Option<BitmapScan>,
    pub build_files: FinishedParts,
    pub probe_writers: PartitionWriters,
    pub resident_probe: Option<TempRunWriter>,
    pub build_rows: Ghost<Seq<Seq<Value>>>,
    pub probe_rows: Ghost<Seq<Seq<Value>>>,
}

/// Both sides partitioned and their files finished.
struct Closed {
    table: JoinTable,
    resident_bytes: usize,
    filter_bytes: usize,
    probe_file: Option<TempFileId>,
    spill_file: Option<TempFileId>,
    pairs: Vec<FilePair>,
}

impl Closed {
    spec fn own_files(&self) -> Set<u64> {
        Set::new(
            |f: u64|
                (self.probe_file is Some && (self.probe_file->0).0 == f) || (self.spill_file is Some
                    && (self.spill_file->0).0 == f),
        )
    }

    spec fn files(&self) -> Set<u64> {
        pair_files(self.pairs@).union(self.own_files())
    }

    spec fn spilled(&self, storage: &TempStorageManager) -> Seq<Seq<Value>> {
        match self.spill_file {
            Some(id) => run_of(storage, id.0)->0,
            None => Seq::empty(),
        }
    }

    spec fn probe_rows(&self, storage: &TempStorageManager) -> Seq<Seq<Value>> {
        match self.probe_file {
            Some(id) => run_of(storage, id.0)->0,
            None => Seq::empty(),
        }
    }

    spec fn ok(&self, params: &JoinParams, bl: bool, storage: &TempStorageManager) -> bool {
        &&& self.table.inv(params.build_at(bl), params.build_len(bl))
        &&& pairs_ok(self.pairs@, storage, params.left_len as nat, params.right_len as nat)
        &&& pair_files(self.pairs@).disjoint(self.own_files())
        &&& self.probe_file matches Some(id) ==> run_of(storage, id.0) is Some && all_len(
            run_of(storage, id.0)->0,
            params.build_len(!bl),
        )
        &&& self.spill_file matches Some(id) ==> run_of(storage, id.0) is Some && all_len(
            run_of(storage, id.0)->0,
            params.build_len(bl),
        )
        &&& self.probe_file is Some && self.spill_file is Some ==> self.probe_file
            != self.spill_file
    }
}

proof fn lemma_spans_part(
    bitmap: &ExactIntBitmap,
    keys: Seq<int>,
    part: Seq<Seq<Value>>,
    rows: Seq<Seq<Value>>,
)
    requires
        bitmap_spans(bitmap, keys, rows),
        all_in(part, rows),
    ensures
        bitmap_spans(bitmap, keys, part),
{
    assert forall|i: int| 0 <= i < part.len() implies (int_key(
        pick(#[trigger] part[i], keys),
    ) matches Some(v) ==> bitmap.spans(v)) by {
        assert(rows.contains(part[i]));
        let j = choose|j: int| 0 <= j < rows.len() && rows[j] == part[i];
        assert(int_key(pick(rows[j], keys)) matches Some(v) ==> bitmap.spans(v));
    }
}

impl HybridProbe {
    pub open spec fn reserved(&self) -> nat {
        (self.resident_bytes + self.filter_bytes) as nat
    }

    /// The rows written for the resident partition.
    pub open spec fn resident_rows(&self) -> Seq<Seq<Value>> {
        match self.resident_probe {
            Some(w) => w.rows(),
            None => Seq::empty(),
        }
    }

    pub open spec fn resident_file(&self) -> Set<u64> {
        match self.resident_probe {
            Some(w) => Set::<u64>::empty().insert(w.file()),
            None => Set::empty(),
        }
    }

    pub open spec fn files(&self) -> Set<u64> {
        self.build_files.file_set().union(self.probe_writers.files()).union(self.resident_file())
    }

    /// The build rows of the resident partition.
    pub open spec fn resident_build(&self, storage: &TempStorageManager) -> Seq<Seq<Value>> {
        self.resident.rows() + self.build_files.rows(0, storage)
    }

    /// Whether reading the build files has come to its end.
    pub open spec fn scanned(&self) -> bool {
        self.scan matches Some(s) ==> s.finished(&self.build_files)
    }

    pub open spec fn waiting(&self) -> bool {
        self.scan is Some && self.scan->0.waiting()
    }

    pub open spec fn expects(&self, data: Seq<u8>) -> bool {
        self.scan is Some && self.scan->0.expects(data)
    }

    /// Whether a probe row may have a match.
    pub open spec fn keeps(&self, key: Seq<Value>) -> bool {
        let h = key_hash(key);
        let by_hash = self.filters@[hash_part(h, self.num_partitions)].may(h);
        match self.scan {
            Some(s) => match int_key(key) {
                Some(v) => s.map().has(v),
                None => by_hash,
            },
            None => by_hash,
        }
    }

    /// How the build rows lie in the files.
    pub closed spec fn build_ok(&self, params: &JoinParams, storage: &TempStorageManager) -> bool {
        let on = params@;
        let bl = self.build_is_left;
        let n = self.num_partitions;
        let keys = params.build_at(bl);
        let rows = self.build_rows@;
        &&& forall|p: int|
            1 <= p < n ==> #[trigger] self.build_files.rows(p, storage) == rows.filter(
                in_part(keys, n, p),
            )
        &&& splits_into(
            on,
            bl,
            rows.filter(in_part(keys, n, 0)),
            self.resident.rows(),
            self.build_files.rows(0, storage),
        )
        &&& forall|i: int|
            0 <= i < rows.len() ==> self.resident.rows().contains(#[trigger] rows[i])
                || self.build_files.rows(
                hash_part(key_hash(pick(rows[i], keys)), n),
                storage,
            ).contains(rows[i])
        &&& all_in(self.resident.rows(), rows)
        &&& all_in(self.build_files.rows(0, storage), rows)
    }

    pub closed spec fn shape(&self, params: &JoinParams, storage: &TempStorageManager) -> bool {
        let bl = self.build_is_left;
        let n = self.num_partitions;
        let keys = params.build_at(bl);
        &&& 0 < self.writer_batch <= MAX_BATCH_PAGES
        &&& self.resident_probe matches Some(w) ==> w.batch() <= MAX_BATCH_PAGES
        &&& params.inv()
        &&& 0 < n <= MAX_ADAPTIVE_PARTITIONS
        &&& self.build_files.ok(storage, params.build_len(bl))
        &&& self.build_files.count() == n
        &&& self.probe_writers.inv(storage)
        &&& self.probe_writers.count() == n
        &&& self.resident.inv(keys, params.build_len(bl))
        &&& all_len(self.build_rows@, params.build_len(bl))
        &&& all_len(self.probe_rows@, params.build_len(!bl))
        &&& filters_hold(self.filters@, keys, n, self.build_rows@)
        &&& self.scan matches Some(s) ==> s.ok(&self.build_files, storage) && bitmap_spans(
            &s.map(),
            keys,
            self.build_rows@,
        )
        &&& self.resident_probe matches Some(w) ==> w.inv(storage) && all_len(
            w.rows(),
            params.build_len(!bl),
        )
        &&& forall|p: int|
            0 <= p < n ==> all_len(#[trigger] self.probe_writers.rows(p), params.build_len(!bl))
        &&& self.probe_writers.rows(0).len() == 0
        &&& self.build_files.file_set().disjoint(self.probe_writers.files())
        &&& self.resident_file().disjoint(self.build_files.file_set())
        &&& self.resident_file().disjoint(self.probe_writers.files())
    }

    /// Whether the probe rows of all partitions are among those taken so far.
    #[verifier::opaque]
    pub closed spec fn probes_in(&self) -> bool {
        &&& all_in(self.resident_rows(), self.probe_rows@)
        &&& forall|p: int|
            0 <= p < self.num_partitions ==> all_in(
                #[trigger] self.probe_writers.rows(p),
                self.probe_rows@,
            )
    }

    /// The rows of both sides: left and right.
    pub open spec fn sides(&self) -> (Seq<Seq<Value>>, Seq<Seq<Value>>) {
        if self.build_is_left {
            (self.build_rows@, self.probe_rows@)
        } else {
            (self.probe_rows@, self.build_rows@)
        }
    }

    proof fn lemma_probes_push(&self, before: &HybridProbe, x: Seq<Value>)
        requires
            before.probes_in(),
            self.num_partitions == before.num_partitions,
            self.probe_rows@ == before.probe_rows@.push(x),
            self.resident_rows() == before.resident_rows() || self.resident_rows()
                == before.resident_rows().push(x),
            forall|p: int|
                0 <= p < self.num_partitions ==> #[trigger] self.probe_writers.rows(p)
                    == before.probe_writers.rows(p) || self.probe_writers.rows(p)
                    == before.probe_writers.rows(p).push(x),
        ensures
            self.probes_in(),
    {
        reveal(HybridProbe::probes_in);
        lemma_all_in_push(before.resident_rows(), before.probe_rows@, x);
        assert forall|p: int| 0 <= p < self.num_partitions implies all_in(
            #[trigger] self.probe_writers.rows(p),
            self.probe_rows@,
        ) by {
            lemma_all_in_push(before.probe_writers.rows(p), before.probe_rows@, x);
        }
    }

    pub closed spec fn inv(&self, params: &JoinParams, storage: &TempStorageManager) -> bool {
        &&& self.probes_in()
        &&& self.shape(params, storage)
        &&& self.build_ok(params, storage)
    }

    /// What the probe rows so far contribute, by partitions.
    pub open spec fn gathered(
        &self,
        full: bool,
        on: JoinOn,
        storage: &TempStorageManager,
    ) -> Multiset<Seq<Value>> {
        total(
            full,
            on,
            self.build_is_left,
            self.resident_build(storage),
            self.resident_rows(),
        ).add(
            sum_parts(
                self.num_partitions as nat,
                parts_total(
                    full,
                    on,
                    self.build_is_left,
                    &self.build_files,
                    storage,
                    &self.probe_writers,
                ),
            ),
        )
    }

    /// Whether the bitmap holds all keys that it should hold by now.
    pub closed spec fn bitmap_good(&self, params: &JoinParams, storage: &TempStorageManager) -> bool {
        let keys = params.build_at(self.build_is_left);
        let len = params.build_len(self.build_is_left);
        self.scan matches Some(s) ==> bitmap_holds(&s.map(), keys, self.resident.rows()) && s.good(
            &self.build_files,
            keys,
            len,
            storage,
        )
    }

    /// What holds where all data that was supplied is what the storage held.
    pub closed spec fn good(
        &self,
        full: bool,
        params: &JoinParams,
        storage: &TempStorageManager,
    ) -> bool {
        &&& self.bitmap_good(params, storage)
        &&& self.gathered(full, params@, storage) == total(
            full,
            params@,
            self.build_is_left,
            self.build_rows@,
            self.probe_rows@,
        )
    }

    pub proof fn inv_gives(&self, params: &JoinParams, storage: &TempStorageManager)
        requires
            self.inv(params, storage),
        ensures
            storage.inv(),
            forall|f: u64| #[trigger] self.files().contains(f) ==> storage.has_file(f),
            all_len(self.build_rows@, params.build_len(self.build_is_left)),
            all_len(self.probe_rows@, params.build_len(!self.build_is_left)),
            params.inv(),
            self.num_partitions > 0,
            self.filters@.len() == self.num_partitions,
            forall|p: int| 0 <= p < self.filters@.len() ==> (#[trigger] self.filters@[p]).inv(),
            self.build_files.count() == self.num_partitions,
            self.resident.inv(
                params.build_at(self.build_is_left),
                params.build_len(self.build_is_left),
            ),
    {
        self.build_files.ok_gives(storage, params.build_len(self.build_is_left));
        self.probe_writers.inv_gives(storage);
        if let Some(w) = self.resident_probe {
            w.inv_gives(storage);
        }
    }

    proof fn lemma_rows_kept(
        &self,
        params: &JoinParams,
        before: &TempStorageManager,
        after: &TempStorageManager,
        touched: Set<u64>,
    )
        requires
            self.num_partitions > 0,
            self.build_files.count() == self.num_partitions,
            self.build_files.ok(before, params.build_len(self.build_is_left)),
            after.inv(),
            unharmed(before, after, touched),
            touched.disjoint(self.build_files.file_set()),
        ensures
            self.build_files.ok(after, params.build_len(self.build_is_left)),
            forall|p: int|
                0 <= p < self.num_partitions ==> #[trigger] self.build_files.rows(p, after)
                    == self.build_files.rows(p, before),
            self.build_files.rows(0, after) == self.build_files.rows(0, before),
            self.build_ok(params, before) ==> self.build_ok(params, after),
    {
        let len = params.build_len(self.build_is_left);
        let bl = self.build_is_left;
        self.build_files.ok_kept(before, after, touched, len);
        assert(self.build_files.rows(0, after) == self.build_files.rows(0, before));
        if self.build_ok(params, before) {
            assert forall|i: int|
                0 <= i < self.build_rows@.len() implies self.resident.rows().contains(
                #[trigger] self.build_rows@[i],
            ) || self.build_files.rows(
                hash_part(
                    key_hash(pick(self.build_rows@[i], params.build_at(bl))),
                    self.num_partitions,
                ),
                after,
            ).contains(self.build_rows@[i]) by {
                let p = hash_part(
                    key_hash(pick(self.build_rows@[i], params.build_at(bl))),
                    self.num_partitions,
                );
                assert(self.build_files.rows(p, after) == self.build_files.rows(p, before));
            }
        }
    }

    /// A join depends on its own files alone.
    pub proof fn inv_kept(
        &self,
        full: bool,
        params: &JoinParams,
        before: &TempStorageManager,
        after: &TempStorageManager,
        touched: Set<u64>,
    )
        requires
            self.inv(params, before),
            after.inv(),
            unharmed(before, after, touched),
            touched.disjoint(self.files()),
        ensures
            self.inv(params, after),
            self.good(full, params, before) ==> self.good(full, params, after),
    {
        let len = params.build_len(self.build_is_left);
        let on = params@;
        let bl = self.build_is_left;
        assert(touched.disjoint(self.build_files.file_set()));
        assert(touched.disjoint(self.probe_writers.files()));
        assert(touched.disjoint(self.resident_file()));
        self.lemma_rows_kept(params, before, after, touched);
        self.probe_writers.inv_kept(before, after, touched);
        if let Some(w) = self.resident_probe {
            w.inv_gives(before);
            assert(self.resident_file().contains(w.file()));
            untouched_file(before, after, touched, w.file());
            w.inv_kept(before, after);
        }
        if let Some(s) = self.scan {
            s.ok_kept(&self.build_files, params.build_at(bl), len, before, after, touched);
        }
        self.lemma_parts_kept(full, params, before, after, &self.probe_writers);
    }

    proof fn lemma_parts_kept(
        &self,
        full: bool,
        params: &JoinParams,
        before: &TempStorageManager,
        after: &TempStorageManager,
        pw: &PartitionWriters,
    )
        requires
            forall|p: int|
                0 <= p < self.num_partitions ==> #[trigger] self.build_files.rows(p, after)
                    == self.build_files.rows(p, before),
        ensures
            sum_parts(
                self.num_partitions as nat,
                parts_total(full, params@, self.build_is_left, &self.build_files, before, pw),
            ) == sum_parts(
                self.num_partitions as nat,
                parts_total(full, params@, self.build_is_left, &self.build_files, after, pw),
            ),
    {
        let on = params@;
        let bl = self.build_is_left;
        let a = parts_total(full, on, bl, &self.build_files, before, pw);
        let b = parts_total(full, on, bl, &self.build_files, after, pw);
        assert forall|p: int| 0 <= p < self.num_partitions implies #[trigger] a(p) == b(p) by {
            assert(self.build_files.rows(p, after) == self.build_files.rows(p, before));
        }
        lemma_sum_same(self.num_partitions as nat, a, b);
    }

    /// Finishes the files of the build side. Where the keys are integers in a small range and
    /// there is memory for it, a bitmap of them is made.
    pub fn finish_build(
        h: HybridBuild,
        params: &JoinParams,
        memory: &mut QueryMemoryManager,
        storage: &mut TempStorageManager,
        Ghost(full): Ghost<bool>,
    ) -> (r: Result<HybridProbe, DbError>)
        requires
            h.inv(params, old(storage)),
            old(memory)@.inv(),
        ensures
            final(storage).inv(),
            final(memory)@.inv(),
            untouched(old(storage), final(storage), h.writers.files()),
            match r {
                Ok(p) => {
                    &&& p.inv(params, final(storage))
                    &&& p.good(full, params, final(storage))
                    &&& p.build_is_left == h.build_is_left
                    &&& p.build_rows == h.build_rows
                    &&& p.probe_rows@ == Seq::<Seq<Value>>::empty()
                    &&& p.files().subset_of(h.writers.files())
                    &&& final(memory)@.used + h.reserved() == old(memory)@.used + p.reserved()
                },
                Err(e) => out_of_room(e, final(storage)),
            },
            grew_by(old(storage), final(storage), FINISH_PAGES as nat, 0),
    {
        let ghost bl = h.build_is_left;
        let ghost keys = params.build_at(bl);
        let ghost len = params.build_len(bl);
        let ghost on = params@;
        let ghost rows = h.build_rows@;
        let n: usize = h.num_partitions;
        let key_indices = params.keys_of(h.build_is_left);
        let build_files = match FinishedParts::finish_all(h.writers, storage, Ghost(len)) {
            Ok(f) => f,
            Err(e) => {
                return Err(e);
            },
        };
        proof {
            build_files.ok_gives(storage, len);
        }
        let mut filter_bytes: usize = h.filter_bytes;
        let mut scan: Option<BitmapScan> = None;
        if h.candidate.can_build_bitmap() {
            let mut map = ExactIntBitmap::new(h.candidate.min_value, h.candidate.max_value);
            let bytes: usize = map.size_bytes();
            if memory.available_bytes() >= bytes {
                match filter_bytes.checked_add(bytes) {
                    Some(total_bytes) => {
                        match memory.try_reserve(bytes) {
                            Ok(_) => {},
                            Err(e) => {
                                return Err(e);
                            },
                        }
                        filter_bytes = total_bytes;
                        proof {
                            assert(bitmap_spans(&map, keys, rows)) by {
                                assert forall|i: int| 0 <= i < rows.len() implies (int_key(
                                    pick(#[trigger] rows[i], keys),
                                ) matches Some(v) ==> map.spans(v)) by {
                                    assert(h.candidate.covers(pick(rows[i], keys)));
                                }
                            }
                            lemma_spans_part(&map, keys, h.resident.rows(), rows);
                        }
                        populate_bitmap_from_build_map(
                            &h.resident,
                            key_indices,
                            &mut map,
                            Ghost(len),
                        );
                        proof {
                            assert(bitmap_spans(&map, keys, rows));
                        }
                        scan = Some(BitmapScan::new(map));
                    },
                    None => {},
                }
            }
        }
        let p = HybridProbe {
            build_is_left: h.build_is_left,
            num_partitions: n,
            writer_batch: h.writer_batch,
            resident: h.resident,
            resident_bytes: h.resident_bytes,
            filters: h.filters,
            filter_bytes,
            scan,
            build_files,
            probe_writers: PartitionWriters::new(n, h.writer_batch),
            resident_probe: None,
            build_rows: h.build_rows,
            probe_rows: Ghost(Seq::empty()),
        };
        proof {
            let none = Seq::<Seq<Value>>::empty();
            assert forall|q: int| 0 <= q < n implies #[trigger] p.probe_writers.rows(q) == none by {
                assert(p.probe_writers.file(q) is None);
            }
            assert(p.probe_writers.rows(0) == none);
            let parts = parts_total(full, on, bl, &p.build_files, storage, &p.probe_writers);
            assert forall|q: int| 0 <= q < n implies #[trigger] parts(q) == Multiset::<
                Seq<Value>,
            >::empty() by {
                assert(p.probe_writers.rows(q) == none);
            }
            lemma_sum_empty(n as nat, parts);
            assert(Multiset::<Seq<Value>>::empty().add(Multiset::<Seq<Value>>::empty())
                =~= Multiset::<Seq<Value>>::empty());
            assert forall|q: int| 1 <= q < n implies #[trigger] p.build_files.rows(q, storage)
                == rows.filter(in_part(keys, n, q)) by {
                assert(h.writers.rows(q) == rows.filter(in_part(keys, n, q)));
            }
            assert(p.build_files.rows(0, storage) == h.writers.rows(0));
            assert forall|i: int|
                0 <= i < rows.len() implies p.resident.rows().contains(#[trigger] rows[i])
                || p.build_files.rows(
                hash_part(key_hash(pick(rows[i], keys)), n),
                storage,
            ).contains(rows[i]) by {
                let q = hash_part(key_hash(pick(rows[i], keys)), n);
                assert(p.build_files.rows(q, storage) == h.writers.rows(q));
            }
            assert(p.probes_in()) by {
                reveal(HybridProbe::probes_in);
                assert forall|q: int| 0 <= q < n implies all_in(
                    #[trigger] p.probe_writers.rows(q),
                    p.probe_rows@,
                ) by {
                    assert(p.probe_writers.file(q) is None);
                }
            }
        }
        Ok(p)
    }

    /// How much is left to do before probe rows can be taken.
    pub open spec fn left_to_do(&self) -> Seq<nat> {
        match self.scan {
            Some(s) => s.left_to_do(&self.build_files),
            None => seq![0nat, 0nat, 0nat],
        }
    }

    pub proof fn left_is_three(&self)
        ensures
            self.left_to_do().len() == 3,
    {
        if let Some(s) = self.scan {
            s.left_is_three(&self.build_files);
        }
    }


    /// Reads on in the build files for the bitmap.
    pub fn scan_step(
        &mut self,
        params: &JoinParams,
        sort_run_bytes: usize,
        storage: &TempStorageManager,
        Ghost(full): Ghost<bool>,
    ) -> (r: Result<ScanNext, DbError>)
        requires
            old(self).inv(params, storage),
        ensures
            r is Ok ==> final(self).inv(params, storage),
            final(self).files() == old(self).files(),
            final(self).build_is_left == old(self).build_is_left,
            final(self).build_rows == old(self).build_rows,
            final(self).probe_rows == old(self).probe_rows,
            final(self).reserved() == old(self).reserved(),
            match r {
                Ok(ScanNext::Need(ranges)) => final(self).waiting() && (forall|data: Seq<u8>|
                    is_content(
                        storage.disk(),
                        blocks_of(ranges@),
                        data,
                        storage.size() as int,
                    ) ==> #[trigger] final(self).expects(data)),
                Ok(ScanNext::Again) => !old(self).scanned(),
                Ok(ScanNext::Ready) => old(self).scanned() && final(self).scanned(),
                Err(e) => old(self).good(full, params, storage) ==> out_of_room(e, storage),
            },
            old(self).scanned() ==> r matches Ok(ScanNext::Ready),
            match r {
                Ok(ScanNext::Again) => nearer(final(self).left_to_do(), old(self).left_to_do()),
                Ok(_) => not_farther(final(self).left_to_do(), old(self).left_to_do()),
                Err(_) => true,
            },
            r is Ok && old(self).good(full, params, storage) ==> final(self).good(
                full,
                params,
                storage,
            ),
    {
        let ghost before = *self;
        let ghost bl = self.build_is_left;
        let ghost keys = params.build_at(bl);
        let ghost len = params.build_len(bl);
        let mut slot: Option<BitmapScan> = None;
        core::mem::swap(&mut self.scan, &mut slot);
        let mut scan = match slot {
            Some(s) => s,
            None => {
                proof {
                    reveal(HybridProbe::probes_in);
                }
                return Ok(ScanNext::Ready);
            },
        };
        let ghost map = scan.map();
        proof {
            before.build_files.ok_gives(storage, len);
            assert forall|p: int| 0 <= p < self.build_files.count() implies bitmap_spans(
                &map,
                keys,
                #[trigger] self.build_files.rows(p, storage),
            ) by {
                let part = self.build_files.rows(p, storage);
                assert(all_in(part, self.build_rows@)) by {
                    if p > 0 {
                        let keep = in_part(keys, self.num_partitions, p);
                        assert(part == self.build_rows@.filter(keep));
                        assert forall|i: int|
                            0 <= i < part.len() implies self.build_rows@.contains(
                            #[trigger] part[i],
                        ) by {
                            lemma_filter_in(self.build_rows@, keep, i);
                        }
                    }
                }
                lemma_spans_part(&map, keys, part, self.build_rows@);
            }
        }
        let r = scan.step(
            &self.build_files,
            params,
            self.build_is_left,
            sort_run_bytes,
            storage,
        );
        self.scan = Some(scan);
        proof {
            reveal(HybridProbe::probes_in);
        }
        r
    }

    /// Takes the data that was asked for.
    pub fn supply(
        &mut self,
        data: Vec<u8>,
        Ghost(params): Ghost<JoinParams>,
        Ghost(storage): Ghost<TempStorageManager>,
    ) -> (r: Result<(), DbError>)
        requires
            old(self).inv(&params, &storage),
            old(self).waiting(),
        ensures
            r is Ok ==> final(self).inv(&params, &storage),
            final(self).files() == old(self).files(),
            final(self).build_is_left == old(self).build_is_left,
            final(self).build_rows == old(self).build_rows,
            final(self).probe_rows == old(self).probe_rows,
            final(self).reserved() == old(self).reserved(),
            r is Ok && old(self).expects(data@) ==> forall|full: bool| #[trigger]
                old(self).good(full, &params, &storage) ==> final(self).good(
                    full,
                    &params,
                    &storage,
                ),
            old(self).expects(data@) ==> r is Ok,
            r is Ok ==> nearer(final(self).left_to_do(), old(self).left_to_do()),
    {
        let mut slot: Option<BitmapScan> = None;
        core::mem::swap(&mut self.scan, &mut slot);
        match slot {
            Some(s) => {
                let mut s = s;
                let r = s.supply(data, Ghost(self.build_files), Ghost(storage));
                self.scan = Some(s);
                proof {
                    reveal(HybridProbe::probes_in);
                }
                r
            },
            None => Ok(()),
        }
    }

    /// A probe row finds in its partition what it finds in the whole build side.
    pub proof fn lemma_same_part(&self, params: &JoinParams, storage: &TempStorageManager, x: Seq<Value>)
        requires
            self.inv(params, storage),
        ensures
            ({
                let on = params@;
                let bl = self.build_is_left;
                let n = self.num_partitions;
                let p = hash_part(key_hash(pick(x, params.build_at(!bl))), n);
                probe_with(on, bl, self.build_rows@, x) == probe_with(
                    on,
                    bl,
                    if p == 0 {
                        self.resident_build(storage)
                    } else {
                        self.build_files.rows(p, storage)
                    },
                    x,
                )
            }),
    {
        let on = params@;
        let bl = self.build_is_left;
        let n = self.num_partitions;
        let keys = params.build_at(bl);
        let p = hash_part(key_hash(pick(x, params.build_at(!bl))), n);
        let rows = self.build_rows@;
        let keep = in_part(keys, n, p);
        assert forall|i: int|
            0 <= i < rows.len() && (if bl {
                joins(on, #[trigger] rows[i], x)
            } else {
                joins(on, x, rows[i])
            }) implies keep(rows[i]) by {}
        lemma_probe_with_filtered(on, bl, rows, x, keep);
        if p == 0 {
            let part = rows.filter(in_part(keys, n, 0));
            assert(probe_with(on, bl, part, x) == probe_with(on, bl, self.resident.rows(), x).add(
                probe_with(on, bl, self.build_files.rows(0, storage), x),
            ));
            lemma_found_concat(
                on,
                bl,
                self.resident.rows(),
                self.build_files.rows(0, storage),
                x,
            );
        } else {
            assert(self.build_files.rows(p, storage) == rows.filter(in_part(keys, n, p)));
        }
    }

    /// A probe row that is not kept has no match.
    pub proof fn lemma_not_kept(
        &self,
        full: bool,
        params: &JoinParams,
        storage: &TempStorageManager,
        x: Seq<Value>,
    )
        requires
            self.inv(params, storage),
            self.good(full, params, storage),
            self.scanned(),
            !self.keeps(pick(x, params.build_at(!self.build_is_left))),
        ensures
            contribution(full, params@, self.build_is_left, self.build_rows@, x) == Multiset::<
                Seq<Value>,
            >::empty(),
    {
        let on = params@;
        let bl = self.build_is_left;
        let n = self.num_partitions;
        let keys = params.build_at(bl);
        let len = params.build_len(bl);
        let rows = self.build_rows@;
        let key = pick(x, params.build_at(!bl));
        if let Some(s) = self.scan {
            s.finished_gives(&self.build_files, keys, len, storage);
        }
        assert forall|i: int| 0 <= i < rows.len() implies !(if bl {
            joins(on, #[trigger] rows[i], x)
        } else {
            joins(on, x, rows[i])
        }) by {
            let row = rows[i];
            let joined = if bl {
                joins(on, row, x)
            } else {
                joins(on, x, row)
            };
            if joined {
                assert(pick(row, keys) == key);
                let h = key_hash(key);
                assert(self.filters@[hash_part(h, n)].may(h));
                if let Some(s) = self.scan {
                    if int_key(key) is Some {
                        let v = int_key(key)->0;
                        if self.resident.rows().contains(row) {
                            let j = choose|j: int|
                                0 <= j < self.resident.rows().len() && self.resident.rows()[j]
                                    == row;
                            assert(int_key(
                                pick(self.resident.rows()[j], keys),
                            ) matches Some(w) ==> s.map().has(w));
                        } else {
                            let part = self.build_files.rows(hash_part(h, n), storage);
                            assert(part.contains(row));
                            assert(bitmap_holds(&s.map(), keys, part));
                            let j = choose|j: int| 0 <= j < part.len() && part[j] == row;
                            assert(int_key(pick(part[j], keys)) matches Some(w) ==> s.map().has(w));
                        }
                    }
                }
            }
        }
        lemma_no_contribution(full, on, bl, rows, x);
    }

    pub(crate) fn keep_probe_row(&self, row: &Row, params: &JoinParams, h: u64, part: usize) -> (r: bool)
        requires
            params.inv(),
            row@.len() == params.build_len(!self.build_is_left),
            h == key_hash(pick(row@, params.build_at(!self.build_is_left))),
            part as int == hash_part(h, self.num_partitions),
            part < self.filters@.len(),
            self.filters@[part as int].inv(),
        ensures
            r == self.keeps(pick(row@, params.build_at(!self.build_is_left))),
    {
        let probe_keys = params.keys_of(!self.build_is_left);
        match &self.scan {
            Some(s) => match single_int_key_value(row, probe_keys) {
                Some(v) => s.contains(v),
                None => self.filters[part].might_contain_hash(h),
            },
            None => self.filters[part].might_contain_hash(h),
        }
    }

    /// The writer for the probe rows of the resident partition takes a row.
    fn append_resident(&mut self, row: &Row, params: &JoinParams, storage: &mut TempStorageManager)
        -> (r: Result<(), DbError>)
        requires
            old(self).inv(params, old(storage)),
            row@.len() == params.build_len(!old(self).build_is_left),
        ensures
            final(storage).inv(),
            untouched(old(storage), final(storage), old(self).files()),
            r is Ok ==> {
                &&& final(self).inv(params, final(storage))
                &&& final(self).resident_rows() == old(self).resident_rows().push(row@)
                &&& *final(self) == (HybridProbe {
                    resident_probe: final(self).resident_probe,
                    probe_rows: final(self).probe_rows,
                    ..*old(self)
                })
                &&& final(self).probe_rows@ == old(self).probe_rows@.push(row@)
                &&& forall|f: u64| #[trigger]
                    final(self).files().contains(f) ==> old(self).files().contains(f) || !old(
                        storage,
                    ).has_file(f)
                &&& forall|p: int|
                    0 <= p < old(self).num_partitions ==> #[trigger] old(self).build_files.rows(
                        p,
                        final(storage),
                    ) == old(self).build_files.rows(p, old(storage))
                &&& old(self).build_files.rows(0, final(storage)) == old(self).build_files.rows(
                    0,
                    old(storage),
                )
                &&& old(self).bitmap_good(params, old(storage)) ==> final(self).bitmap_good(
                    params,
                    final(storage),
                )
            },
            r matches Err(e) ==> cannot_store(e, row@, final(storage)),
            r matches Err(e) ==> cannot_store(e, row@, old(storage)),
    {
        let ghost before = *self;
        let ghost s0 = *storage;
        let ghost mine = before.files();
        let ghost bl = self.build_is_left;
        let ghost len = params.build_len(bl);
        proof {
            before.inv_gives(params, storage);
            untouched_same(&s0, storage, mine);
        }
        let mut slot: Option<TempRunWriter> = None;
        core::mem::swap(&mut self.resident_probe, &mut slot);
        let mut w = match slot {
            Some(w) => w,
            None => match TempRunWriter::with_batch_pages(storage, self.writer_batch) {
                Ok(w) => w,
                Err(e) => {
                    proof {
                        untouched_same(&s0, storage, mine);
                    }
                    return Err(e);
                },
            },
        };
        let ghost f = w.file();
        let ghost own = Set::<u64>::empty().insert(f);
        let ghost s1 = *storage;
        proof {
            before.build_files.ok_gives(&s0, len);
            before.probe_writers.inv_gives(&s0);
            if before.resident_probe is Some {
                assert(before.resident_file().contains(f));
                untouched_same(&s0, &s1, own);
            } else {
                untouched_but(&s0, &s1, f, own);
            }
            w.inv_gives(&s1);
        }
        let r = w.append_row(row, storage);
        proof {
            untouched_but(&s1, storage, f, own);
            untouched_twice(&s0, &s1, storage, own, own);
            untouched_more(&s0, storage, own, mine);
            assert(own.disjoint(before.build_files.file_set()));
            assert(own.disjoint(before.probe_writers.files()));
            before.lemma_rows_kept(params, &s0, storage, own);
            before.probe_writers.inv_kept(&s0, storage, own);
            if let Some(s) = before.scan {
                s.ok_kept(&before.build_files, params.build_at(bl), len, &s0, storage, own);
            }
        }
        match r {
            Ok(_) => {},
            Err(e) => {
                return Err(e);
            },
        }
        self.resident_probe = Some(w);
        proof {
            assert(self.resident_file() =~= own);
            self.probe_rows@ = before.probe_rows@.push(row@);
            assert(self.resident_rows() =~= before.resident_rows().push(row@));
            self.lemma_probes_push(&before, row@);
        }
        Ok(())
    }

    /// A probe row without a match is passed over.
    pub(crate) fn pass_over(
        &mut self,
        row: &Row,
        params: &JoinParams,
        storage: &TempStorageManager,
        Ghost(full): Ghost<bool>,
    )
        requires
            old(self).inv(params, storage),
            row@.len() == params.build_len(!old(self).build_is_left),
            old(self).good(full, params, storage) ==> contribution(
                full,
                params@,
                old(self).build_is_left,
                old(self).build_rows@,
                row@,
            ) == Multiset::<Seq<Value>>::empty(),
        ensures
            final(self).inv(params, storage),
            *final(self) == (HybridProbe { probe_rows: final(self).probe_rows, ..*old(self) }),
            final(self).probe_rows@ == old(self).probe_rows@.push(row@),
            old(self).good(full, params, storage) ==> final(self).good(full, params, storage),
    {
        proof {
            let on = params@;
            let bl = self.build_is_left;
            let rows = self.probe_rows@;
            lemma_total_push(full, on, bl, self.build_rows@, rows, row@);
            let t = total(full, on, bl, self.build_rows@, rows);
            assert(t.add(Multiset::<Seq<Value>>::empty()) =~= t);
            self.probe_rows@ = rows.push(row@);
            self.lemma_probes_push(old(self), row@);
        }
    }

    proof fn lemma_good_resident(
        full: bool,
        params: &JoinParams,
        before: &HybridProbe,
        after: &HybridProbe,
        s0: &TempStorageManager,
        s1: &TempStorageManager,
        x: Seq<Value>,
    )
        requires
            before.good(full, params, s0),
            after.bitmap_good(params, s1),
            *after == (HybridProbe {
                resident_probe: after.resident_probe,
                probe_rows: after.probe_rows,
                ..*before
            }),
            after.probe_rows@ == before.probe_rows@.push(x),
            after.resident_rows() == before.resident_rows().push(x),
            forall|p: int|
                0 <= p < before.num_partitions ==> #[trigger] before.build_files.rows(p, s1)
                    == before.build_files.rows(p, s0),
            before.build_files.rows(0, s1) == before.build_files.rows(0, s0),
            probe_with(params@, before.build_is_left, before.build_rows@, x) == probe_with(
                params@,
                before.build_is_left,
                before.resident_build(s0),
                x,
            ),
        ensures
            after.good(full, params, s1),
    {
        let on = params@;
        let bl = before.build_is_left;
        let n = before.num_partitions as nat;
        let c = contribution(full, on, bl, before.build_rows@, x);
        let rb = before.resident_build(s0);
        assert(after.resident_build(s1) == rb);
        lemma_total_push(full, on, bl, before.build_rows@, before.probe_rows@, x);
        lemma_total_push(full, on, bl, rb, before.resident_rows(), x);
        before.lemma_parts_kept(full, params, s0, s1, &before.probe_writers);
        let t = total(full, on, bl, rb, before.resident_rows());
        let sum = sum_parts(
            n,
            parts_total(full, on, bl, &before.build_files, s1, &before.probe_writers),
        );
        assert(contribution(full, on, bl, rb, x) == c);
        assert(t.add(c).add(sum) =~= t.add(sum).add(c));
        assert(after.gathered(full, on, s1) == t.add(c).add(sum));
    }

    /// Writes a probe row of the resident partition.
    pub(crate) fn append_resident_row(
        &mut self,
        row: &Row,
        params: &JoinParams,
        storage: &mut TempStorageManager,
        Ghost(full): Ghost<bool>,
    ) -> (r: Result<(), DbError>)
        requires
            old(self).inv(params, old(storage)),
            old(self).scanned(),
            row@.len() == params.build_len(!old(self).build_is_left),
            hash_part(
                key_hash(pick(row@, params.build_at(!old(self).build_is_left))),
                old(self).num_partitions,
            ) == 0,
        ensures
            final(storage).inv(),
            untouched(old(storage), final(storage), old(self).files()),
            r is Ok ==> {
                &&& final(self).inv(params, final(storage))
                &&& final(self).scanned()
                &&& final(self).build_is_left == old(self).build_is_left
                &&& final(self).build_rows == old(self).build_rows
                &&& final(self).probe_rows@ == old(self).probe_rows@.push(row@)
                &&& final(self).reserved() == old(self).reserved()
                &&& forall|f: u64| #[trigger]
                    final(self).files().contains(f) ==> old(self).files().contains(f) || !old(
                        storage,
                    ).has_file(f)
                &&& old(self).good(full, params, old(storage)) ==> final(self).good(
                    full,
                    params,
                    final(storage),
                )
            },
            r matches Err(e) ==> cannot_store(e, row@, final(storage)),
            r matches Err(e) ==> cannot_store(e, row@, old(storage)),
    {
        let ghost before = *self;
        let ghost s0 = *storage;
        let ghost x = row@;
        proof {
            before.lemma_same_part(params, storage, x);
        }
        match self.append_resident(row, params, storage) {
            Ok(_) => {},
            Err(e) => {
                return Err(e);
            },
        }
        proof {
            if before.good(full, params, &s0) {
                Self::lemma_good_resident(full, params, &before, self, &s0, storage, x);
            }
        }
        Ok(())
    }

    /// The writer of a partition takes a row.
    pub(crate) fn append_part(
        &mut self,
        part: usize,
        row: &Row,
        params: &JoinParams,
        storage: &mut TempStorageManager,
        Ghost(full): Ghost<bool>,
    ) -> (r: Result<(), DbError>)
        requires
            old(self).inv(params, old(storage)),
            old(self).scanned(),
            row@.len() == params.build_len(!old(self).build_is_left),
            part as int == hash_part(
                key_hash(pick(row@, params.build_at(!old(self).build_is_left))),
                old(self).num_partitions,
            ),
            0 < part < old(self).num_partitions,
        ensures
            final(storage).inv(),
            untouched(old(storage), final(storage), old(self).files()),
            r is Ok ==> {
                &&& final(self).inv(params, final(storage))
                &&& final(self).scanned()
                &&& final(self).build_is_left == old(self).build_is_left
                &&& final(self).build_rows == old(self).build_rows
                &&& final(self).probe_rows@ == old(self).probe_rows@.push(row@)
                &&& final(self).reserved() == old(self).reserved()
                &&& forall|f: u64| #[trigger]
                    final(self).files().contains(f) ==> old(self).files().contains(f) || !old(
                        storage,
                    ).has_file(f)
                &&& old(self).good(full, params, old(storage)) ==> final(self).good(
                    full,
                    params,
                    final(storage),
                )
            },
            r matches Err(e) ==> cannot_store(e, row@, final(storage)),
            r matches Err(e) ==> cannot_store(e, row@, old(storage)),
    {
        let ghost before = *self;
        let ghost s0 = *storage;
        let ghost on = params@;
        let ghost bl = self.build_is_left;
        let ghost n = self.num_partitions;
        let ghost x = row@;
        let ghost mine = before.files();
        let ghost own = before.probe_writers.files();
        let ghost len = params.build_len(bl);
        let ghost k = part as int;
        proof {
            before.inv_gives(params, storage);
            before.probe_writers.inv_gives(storage);
            before.lemma_same_part(params, storage, x);
        }
        let r = self.probe_writers.append(part, row, storage);
        proof {
            untouched_more(&s0, storage, own, mine);
            before.lemma_rows_kept(params, &s0, storage, own);
            if let Some(w) = before.resident_probe {
                w.inv_gives(&s0);
                assert(before.resident_file().contains(w.file()));
                untouched_file(&s0, storage, own, w.file());
                w.inv_kept(&s0, storage);
            }
            if let Some(s) = before.scan {
                s.ok_kept(&before.build_files, params.build_at(bl), len, &s0, storage, own);
            }
        }
        match r {
            Ok(_) => {},
            Err(e) => {
                return Err(e);
            },
        }
        proof {
            self.probe_rows@ = before.probe_rows@.push(x);
            self.lemma_probes_push(&before, x);
            assert forall|p: int| 0 <= p < n implies all_len(
                #[trigger] self.probe_writers.rows(p),
                params.build_len(!bl),
            ) by {
                assert(all_len(before.probe_writers.rows(p), params.build_len(!bl)));
            }
            assert(self.probe_writers.rows(0) == before.probe_writers.rows(0));
            before.build_files.ok_gives(&s0, len);
            assert(self.build_files.file_set().disjoint(self.probe_writers.files()));
            assert(self.resident_file().disjoint(self.probe_writers.files()));
            if before.good(full, params, &s0) {
                let c = contribution(full, on, bl, before.build_rows@, x);
                lemma_total_push(full, on, bl, before.build_rows@, before.probe_rows@, x);
                lemma_total_push(
                    full,
                    on,
                    bl,
                    before.build_files.rows(k, storage),
                    before.probe_writers.rows(k),
                    x,
                );
                before.lemma_parts_kept(full, params, &s0, storage, &before.probe_writers);
                let a = parts_total(
                    full,
                    on,
                    bl,
                    &before.build_files,
                    storage,
                    &before.probe_writers,
                );
                let b = parts_total(
                    full,
                    on,
                    bl,
                    &self.build_files,
                    storage,
                    &self.probe_writers,
                );
                assert(before.build_files.rows(k, storage) == before.build_files.rows(k, &s0));
                assert(b(k) == a(k).add(c));
                assert forall|p: int| 0 <= p < n && p != k implies #[trigger] a(p) == b(p) by {
                    assert(self.probe_writers.rows(p) == before.probe_writers.rows(p));
                }
                lemma_sum_change(n as nat, a, b, k, c);
                let t = total(
                    full,
                    on,
                    bl,
                    before.resident_build(&s0),
                    before.resident_rows(),
                );
                let sum = sum_parts(n as nat, a);
                assert(t.add(sum.add(c)) =~= t.add(sum).add(c));
            }
        }
        Ok(())
    }

    /// Finishes the files of the probe side and pairs them with those of the build side.
    #[verifier::rlimit(60)]
    #[verifier::spinoff_prover]
    fn close(
        self,
        params: &JoinParams,
        storage: &mut TempStorageManager,
        Ghost(full): Ghost<bool>,
    ) -> (r: Result<Closed, DbError>)
        requires
            self.inv(params, old(storage)),
        ensures
            final(storage).inv(),
            untouched(old(storage), final(storage), self.files()),
            match r {
                Ok(c) => {
                    &&& c.table == self.resident
                    &&& c.resident_bytes == self.resident_bytes
                    &&& c.filter_bytes == self.filter_bytes
                    &&& c.ok(params, self.build_is_left, final(storage))
                    &&& c.files().subset_of(self.files())
                    &&& pairs_within(
                        c.pairs@,
                        final(storage),
                        self.sides().0,
                        self.sides().1,
                    )
                    &&& c.spilled(final(storage)) == self.build_files.rows(0, old(storage))
                    &&& c.probe_rows(final(storage)) == self.resident_rows()
                    &&& pairs_total(
                        full,
                        params@,
                        self.build_is_left,
                        final(storage),
                        c.pairs@,
                    ) == sum_parts(
                        self.num_partitions as nat,
                        parts_total(
                            full,
                            params@,
                            self.build_is_left,
                            &self.build_files,
                            old(storage),
                            &self.probe_writers,
                        ),
                    )
                },
                Err(e) => out_of_room(e, final(storage)),
            },
            grew_by(old(storage), final(storage), FINISH_PAGES as nat, 0),
    {
        let ghost me = self;
        let ghost s0 = *storage;
        let ghost mine = self.files();
        let ghost on = params@;
        let ghost bl = self.build_is_left;
        let ghost n = self.num_partitions as nat;
        let ghost bn = params.build_len(bl);
        proof {
            self.inv_gives(params, storage);
            self.build_files.ok_gives(storage, bn);
            self.probe_writers.inv_gives(storage);
            untouched_same(&s0, storage, mine);
        }
        let ghost bf0 = self.build_files;
        let mut build_files = self.build_files;
        let spill_file = build_files.take(0, Ghost(*storage), Ghost(bn));
        let probe_file: Option<TempFileId> = match self.resident_probe {
            Some(w) => {
                let ghost f = w.file();
                let ghost own = Set::<u64>::empty().insert(f);
                proof {
                    assert(me.resident_file() =~= own);
                    w.inv_gives(storage);
                }
                let r = w.finish(storage);
                proof {
                    untouched_but(&s0, storage, f, own);
                    untouched_more(&s0, storage, own, mine);
                    build_files.ok_kept(&s0, storage, own, bn);
                    bf0.ok_kept(&s0, storage, own, bn);
                    me.probe_writers.inv_kept(&s0, storage, own);
                }
                match r {
                    Ok(id) => Some(id),
                    Err(e) => {
                        return Err(e);
                    },
                }
            },
            None => None,
        };
        let ghost s1 = *storage;
        proof {
            me.lemma_first_taken(full, params, &build_files, &s0, &s1);
            bf0.ok_gives(&s1, bn);
        }
        let ghost own2 = build_files.file_set().union(me.probe_writers.files());
        proof {
            let keys = params.build_at(bl);
            assert(parts_in(&build_files, &s1, me.build_rows@)) by {
                reveal(parts_in);
                assert forall|p: int| 0 <= p < build_files.count() implies all_in(
                    #[trigger] build_files.rows(p, &s1),
                    me.build_rows@,
                ) by {
                    if p > 0 {
                        assert(build_files.file(p) == bf0.file(p));
                        assert(bf0.rows(p, &s1) == bf0.rows(p, &s0));
                        lemma_all_in_filter(me.build_rows@, in_part(keys, me.num_partitions, p));
                    }
                }
            }
            assert(writers_in(&me.probe_writers, me.probe_rows@)) by {
                reveal(HybridProbe::probes_in);
                reveal(writers_in);
            }
        }
        let paired = finalize_partition_pairs(
            self.build_is_left,
            build_files,
            self.probe_writers,
            storage,
            Ghost(full),
            Ghost(on),
            Ghost(params.left_len as nat),
            Ghost(params.right_len as nat),
            Ghost(me.build_rows@),
            Ghost(me.probe_rows@),
        );
        let ghost s2 = *storage;
        proof {
            untouched_more(&s1, &s2, own2, mine);
            untouched_twice(&s0, &s1, &s2, mine, mine);
            if spill_file is Some {
                let f = (spill_file->0).0;
                assert(bf0.file(0) == Some(f));
                assert(!own2.contains(f));
                untouched_file(&s1, &s2, own2, f);
                assert(run_of(&s2, f) == run_of(&s1, f));
            }
            if probe_file is Some {
                let f = (probe_file->0).0;
                assert(me.resident_file().contains(f));
                assert(!own2.contains(f));
                untouched_file(&s1, &s2, own2, f);
                assert(run_of(&s2, f) == run_of(&s1, f));
            }
        }
        let pairs = match paired {
            Ok(p) => p,
            Err(e) => {
                return Err(e);
            },
        };
        let c = Closed {
            table: self.resident,
            resident_bytes: self.resident_bytes,
            filter_bytes: self.filter_bytes,
            probe_file,
            spill_file,
            pairs,
        };
        proof {
            assert(c.own_files().disjoint(own2));
            assert(c.own_files().subset_of(mine));
        }
        Ok(c)
    }

    /// Taking the file of the resident partition out changes nothing for the others.
    proof fn lemma_first_taken(
        &self,
        full: bool,
        params: &JoinParams,
        taken: &FinishedParts,
        s0: &TempStorageManager,
        s1: &TempStorageManager,
    )
        requires
            self.num_partitions > 0,
            self.probe_writers.rows(0).len() == 0,
            taken.file(0) is None,
            self.build_files.count() == self.num_partitions,
            forall|q: int|
                0 <= q < self.num_partitions && q != 0 ==> #[trigger] taken.file(q)
                    == self.build_files.file(q),
            forall|p: int|
                0 <= p < self.num_partitions ==> #[trigger] self.build_files.rows(p, s1)
                    == self.build_files.rows(p, s0),
        ensures
            sum_parts(
                self.num_partitions as nat,
                parts_total(
                    full,
                    params@,
                    self.build_is_left,
                    &self.build_files,
                    s0,
                    &self.probe_writers,
                ),
            ) == sum_parts(
                self.num_partitions as nat,
                parts_total(
                    full,
                    params@,
                    self.build_is_left,
                    taken,
                    s1,
                    &self.probe_writers,
                ),
            ),
            self.build_files.rows(0, s1) == self.build_files.rows(0, s0),
    {
        let on = params@;
        let bl = self.build_is_left;
        let n = self.num_partitions as nat;
        let a = parts_total(full, on, bl, &self.build_files, s0, &self.probe_writers);
        let b = parts_total(full, on, bl, taken, s1, &self.probe_writers);
        assert(self.build_files.rows(0, s1) == self.build_files.rows(0, s0));
        assert forall|p: int| 0 <= p < n implies #[trigger] a(p) == b(p) by {
            if p > 0 {
                assert(taken.file(p) == self.build_files.file(p));
                assert(self.build_files.rows(p, s1) == self.build_files.rows(p, s0));
            }
        }
        lemma_sum_same(n, a, b);
    }

    /// Finishes the files of the probe side and pairs them with those of the build side. The
    /// memory of the filters is given back; that of the resident rows too, where no probe row is
    /// left for them.
    pub fn finish(
        self,
        params: &JoinParams,
        memory: &mut QueryMemoryManager,
        storage: &mut TempStorageManager,
        Ghost(full): Ghost<bool>,
    ) -> (r: Result<(Option<ResidentPhase>, Vec<FilePair>), DbError>)
        requires
            self.inv(params, old(storage)),
            old(memory)@.inv(),
            self.reserved() <= old(memory)@.used,
        ensures
            final(storage).inv(),
            final(memory)@.inv(),
            untouched(old(storage), final(storage), self.files()),
            match r {
                Ok((resident, pairs)) => {
                    &&& pairs_ok(
                        pairs@,
                        final(storage),
                        params.left_len as nat,
                        params.right_len as nat,
                    )
                    &&& resident matches Some(x) ==> x.ok(
                        params,
                        self.build_is_left,
                        final(storage),
                    )
                    &&& pairs_within(
                        pairs@,
                        final(storage),
                        self.sides().0,
                        self.sides().1,
                    )
                    &&& resident_within(
                        resident,
                        self.build_is_left,
                        final(storage),
                        self.sides().0,
                        self.sides().1,
                    )
                    &&& pair_files(pairs@).subset_of(self.files())
                    &&& resident_files(resident).subset_of(self.files())
                    &&& pair_files(pairs@).disjoint(resident_files(resident))
                    &&& final(memory)@.used + self.reserved() == old(memory)@.used + match resident {
                        Some(x) => x.bytes as nat,
                        None => 0,
                    }
                    &&& self.good(full, params, old(storage)) ==> resident_value(
                        resident,
                        full,
                        params@,
                        self.build_is_left,
                        final(storage),
                    ).add(
                        pairs_total(
                            full,
                            params@,
                            self.build_is_left,
                            final(storage),
                            pairs@,
                        ),
                    ) == total(
                        full,
                        params@,
                        self.build_is_left,
                        self.build_rows@,
                        self.probe_rows@,
                    )
                },
                Err(e) => out_of_room(e, final(storage)),
            },
            grew_by(old(storage), final(storage), FINISH_PAGES as nat, 0),
    {
        let ghost me = self;
        let ghost s0 = *storage;
        let ghost mine = self.files();
        let ghost on = params@;
        let ghost bl = self.build_is_left;
        let ghost rr = self.resident_rows();
        let c = match self.close(params, storage, Ghost(full)) {
            Ok(c) => c,
            Err(e) => {
                return Err(e);
            },
        };
        let ghost s1 = *storage;
        proof {
            reveal(HybridProbe::probes_in);
            reveal(resident_within);
        }
        memory.release(c.filter_bytes);
        match c.probe_file {
            Some(id) => {
                let phase = ResidentPhase {
                    table: c.table,
                    bytes: c.resident_bytes,
                    probe_file: id,
                    spill_file: c.spill_file,
                };
                proof {
                    assert(phase.files() =~= c.own_files());
                    assert(phase.spilled(storage) == c.spilled(storage));
                }
                Ok((Some(phase), c.pairs))
            },
            None => {
                match c.spill_file {
                    Some(id) => {
                        let ghost own = Set::<u64>::empty().insert(id.0);
                        let d = storage.delete_temp_file(id);
                        proof {
                            assert(c.own_files().contains(id.0));
                            untouched_but(&s1, storage, id.0, own);
                            untouched_more(&s1, storage, own, mine);
                            untouched_twice(&s0, &s1, storage, mine, mine);
                            assert(own.disjoint(pair_files(c.pairs@)));
                            lemma_pairs_kept(
                                on,
                                c.pairs@,
                                &s1,
                                storage,
                                own,
                                params.left_len as nat,
                                params.right_len as nat,
                            );
                            lemma_within_kept(
                                c.pairs@,
                                &s1,
                                storage,
                                me.sides().0,
                                me.sides().1,
                            );
                            crate::part_files::lemma_pairs_total_kept(
                                full,
                                on,
                                bl,
                                c.pairs@,
                                &s1,
                                storage,
                                own,
                                params.left_len as nat,
                                params.right_len as nat,
                            );
                        }
                    },
                    None => {},
                }
                memory.release(c.resident_bytes);
                proof {
                    assert(rr =~= Seq::<Seq<Value>>::empty());
                    assert(total(full, on, bl, me.resident_build(&s0), rr) == Multiset::<
                        Seq<Value>,
                    >::empty());
                }
                Ok((None, c.pairs))
            },
        }
    }
}

} // verus!

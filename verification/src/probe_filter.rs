//! Filters that keep probe rows out that can have no match.

use vstd::prelude::*;
use crate::bloom::{ExactBitmapCandidate, ExactIntBitmap, PROBE_PRUNE_FILTER_WORDS, PartitionKeyBloom, int_key, single_int_key_value};
use crate::error::DbError;
use crate::hashing::{key_hash, key_hash64};
use crate::join_table::JoinTable;
use crate::memory::QueryMemoryManager;
use crate::row::{Row, in_bounds, pick};
use crate::value::Value;
use crate::views::{positions, rows_of};

verus! {

/// A filter made from the keys of a build side.
pub enum ProbeSemijoinFilter {
    ExactInt { bitmap: ExactIntBitmap, reserved_bytes: usize },
    Bloom { bloom: PartitionKeyBloom, reserved_bytes: usize },
}

impl ProbeSemijoinFilter {
    /// Whether a probe row with this key may have a match.
    pub open spec fn passes(&self, key: Seq<Value>) -> bool {
        match self {
            ProbeSemijoinFilter::ExactInt { bitmap, .. } => match int_key(key) {
                Some(v) => bitmap.has(v),
                None => true,
            },
            ProbeSemijoinFilter::Bloom { bloom, .. } => bloom.may(key_hash(key)),
        }
    }

    pub open spec fn inv(&self) -> bool {
        match self {
            ProbeSemijoinFilter::ExactInt { .. } => true,
            ProbeSemijoinFilter::Bloom { bloom, .. } => bloom.inv(),
        }
    }

    pub open spec fn reserved(&self) -> nat {
        match self {
            ProbeSemijoinFilter::ExactInt { reserved_bytes, .. } => *reserved_bytes as nat,
            ProbeSemijoinFilter::Bloom { reserved_bytes, .. } => *reserved_bytes as nat,
        }
    }

    pub fn reserved_bytes(&self) -> (r: usize)
        ensures
            r == self.reserved(),
    {
        match self {
            ProbeSemijoinFilter::ExactInt { reserved_bytes, .. } => *reserved_bytes,
            ProbeSemijoinFilter::Bloom { reserved_bytes, .. } => *reserved_bytes,
        }
    }
}

/// Whether a probe row may have a match; without a filter, every row may.
pub open spec fn filter_passes(filter: Option<ProbeSemijoinFilter>, key: Seq<Value>) -> bool {
    match filter {
        Some(f) => f.passes(key),
        None => true,
    }
}

pub fn probe_filter_might_match(
    filter: &Option<ProbeSemijoinFilter>,
    probe_row: &Row,
    probe_keys: &[usize],
) -> (r: bool)
    requires
        in_bounds(positions(probe_keys@), probe_row@.len() as int),
        *filter matches Some(f) ==> f.inv(),
    ensures
        r == filter_passes(*filter, pick(probe_row@, positions(probe_keys@))),
{
    match filter {
        None => true,
        Some(ProbeSemijoinFilter::ExactInt { bitmap, .. }) => match single_int_key_value(
            probe_row,
            probe_keys,
        ) {
            Some(v) => bitmap.contains(v),
            None => true,
        },
        Some(ProbeSemijoinFilter::Bloom { bloom, .. }) => bloom.might_contain_hash(
            key_hash64(probe_row, probe_keys),
        ),
    }
}

/// Whether a bitmap holds the integer keys of some rows.
pub open spec fn bitmap_holds(
    bitmap: &ExactIntBitmap,
    keys: Seq<int>,
    rows: Seq<Seq<Value>>,
) -> bool {
    forall|i: int|
        0 <= i < rows.len() ==> (int_key(pick(#[trigger] rows[i], keys)) matches Some(v)
            ==> bitmap.has(v))
}

/// Whether a bitmap has room for the integer keys of some rows.
pub open spec fn bitmap_spans(
    bitmap: &ExactIntBitmap,
    keys: Seq<int>,
    rows: Seq<Seq<Value>>,
) -> bool {
    forall|i: int|
        0 <= i < rows.len() ==> (int_key(pick(#[trigger] rows[i], keys)) matches Some(v)
            ==> bitmap.spans(v))
}

/// Adds the key of a row.
pub fn add_row_to_bitmap(bitmap: &mut ExactIntBitmap, row: &Row, key_indices: &[usize])
    requires
        in_bounds(positions(key_indices@), row@.len() as int),
    ensures
        forall|v: int| #[trigger] old(bitmap).has(v) ==> final(bitmap).has(v),
        forall|v: int| #[trigger] final(bitmap).spans(v) == old(bitmap).spans(v),
        int_key(pick(row@, positions(key_indices@))) matches Some(v) ==> (old(bitmap).spans(v)
            ==> final(bitmap).has(v)),
        final(bitmap).word_count() == old(bitmap).word_count(),
{
    let ghost before = *bitmap;
    if let Some(v) = single_int_key_value(row, key_indices) {
        bitmap.add_value(v);
        proof {
            assert forall|w: int| #[trigger] before.has(w) implies bitmap.has(w) by {}
            assert(before.spans(v as int) ==> bitmap.has(v as int));
        }
    }
}

/// Adds the keys of all rows of a hash table.
pub fn populate_bitmap_from_build_map(
    build_map: &JoinTable,
    key_indices: &[usize],
    bitmap: &mut ExactIntBitmap,
    Ghost(len): Ghost<nat>,
)
    requires
        build_map.inv(positions(key_indices@), len),
    ensures
        forall|v: int| #[trigger] old(bitmap).has(v) ==> final(bitmap).has(v),
        forall|v: int| #[trigger] final(bitmap).spans(v) == old(bitmap).spans(v),
        bitmap_spans(old(bitmap), positions(key_indices@), build_map.rows()) ==> bitmap_holds(
            final(bitmap),
            positions(key_indices@),
            build_map.rows(),
        ),
        final(bitmap).word_count() == old(bitmap).word_count(),
{
    let ghost keys = positions(key_indices@);
    let ghost before = *bitmap;
    let hashes = build_map.hash_values();
    proof {
        build_map.inv_gives(keys, len);
    }
    let mut i: usize = 0;
    while i < hashes.len()
        invariant
            i <= hashes@.len(),
            keys == positions(key_indices@),
            before == *old(bitmap),
            in_bounds(keys, len as int),
            build_map.inv(keys, len),
            hashes@ == build_map.hash_list(),
            forall|v: int| #[trigger] before.has(v) ==> bitmap.has(v),
            forall|v: int| #[trigger] bitmap.spans(v) == before.spans(v),
            bitmap.word_count() == before.word_count(),
            bitmap_spans(&before, keys, build_map.rows()) ==> forall|j: int|
                0 <= j < i ==> bitmap_holds(
                    bitmap,
                    keys,
                    build_map.bucket(#[trigger] hashes@[j]),
                ),
        decreases hashes@.len() - i,
    {
        let h: u64 = hashes[i];
        let rows = build_map.bucket_rows(h);
        let ghost b = rows_of(rows@);
        proof {
            build_map.lemma_bucket_in(keys, len, h);
        }
        let ghost outer = *bitmap;
        let mut j: usize = 0;
        while j < rows.len()
            invariant
                j <= rows@.len(),
                keys == positions(key_indices@),
                in_bounds(keys, len as int),
                b == rows_of(rows@),
                b == build_map.bucket(h),
                crate::join_table::all_len(b, len),
                forall|v: int| #[trigger] outer.has(v) ==> bitmap.has(v),
                forall|v: int| #[trigger] bitmap.spans(v) == outer.spans(v),
                bitmap.word_count() == outer.word_count(),
                bitmap_spans(&outer, keys, b) ==> bitmap_holds(bitmap, keys, b.take(j as int)),
            decreases rows@.len() - j,
        {
            let ghost was = *bitmap;
            assert(b[j as int] == rows@[j as int]@);
            add_row_to_bitmap(bitmap, &rows[j], key_indices);
            proof {
                if bitmap_spans(&outer, keys, b) {
                    let more = b.take(j + 1);
                    assert forall|k: int| 0 <= k < more.len() implies (int_key(
                        pick(#[trigger] more[k], keys),
                    ) matches Some(v) ==> bitmap.has(v)) by {
                        if k < j {
                            assert(more[k] == b.take(j as int)[k]);
                        } else {
                            assert(more[k] == b[j as int]);
                        }
                    }
                }
            }
            j += 1;
        }
        proof {
            assert(b.take(j as int) =~= b);
            if bitmap_spans(&before, keys, build_map.rows()) {
                assert(bitmap_spans(&outer, keys, b)) by {
                    assert forall|k: int| 0 <= k < b.len() implies (int_key(
                        pick(#[trigger] b[k], keys),
                    ) matches Some(v) ==> outer.spans(v)) by {
                        assert(build_map.rows().contains(b[k]));
                    }
                }
                assert forall|k: int| 0 <= k < i + 1 implies bitmap_holds(
                    bitmap,
                    keys,
                    build_map.bucket(#[trigger] hashes@[k]),
                ) by {
                    if k < i {
                        let c = build_map.bucket(hashes@[k]);
                        assert(bitmap_holds(&outer, keys, c));
                    }
                }
            }
        }
        i += 1;
    }
    proof {
        if bitmap_spans(&before, keys, build_map.rows()) {
            let rows = build_map.rows();
            assert forall|k: int| 0 <= k < rows.len() implies (int_key(
                pick(#[trigger] rows[k], keys),
            ) matches Some(v) ==> bitmap.has(v)) by {
                build_map.lemma_row_in_bucket(keys, len, k);
                let h = key_hash(pick(rows[k], keys));
                let j = choose|j: int| 0 <= j < hashes@.len() && hashes@[j] == h;
                let c = build_map.bucket(hashes@[j]);
                assert(bitmap_holds(bitmap, keys, c));
                let m = choose|m: int| 0 <= m < c.len() && c[m] == rows[k];
                assert(int_key(pick(c[m], keys)) matches Some(v) ==> bitmap.has(v));
            }
        }
    }
}

/// A Bloom filter of the keys of all rows of a hash table.
pub fn build_probe_bloom_from_build_map(
    build_map: &JoinTable,
    Ghost(keys): Ghost<Seq<int>>,
    Ghost(len): Ghost<nat>,
) -> (r: PartitionKeyBloom)
    requires
        build_map.inv(keys, len),
    ensures
        r.inv(),
        forall|i: int|
            0 <= i < build_map.rows().len() ==> r.may(
                key_hash(pick(#[trigger] build_map.rows()[i], keys)),
            ),
{
    let hashes = build_map.hash_values();
    let mut bloom = PartitionKeyBloom::new();
    let mut i: usize = 0;
    while i < hashes.len()
        invariant
            i <= hashes@.len(),
            bloom.inv(),
            forall|j: int| 0 <= j < i ==> bloom.may(#[trigger] hashes@[j]),
        decreases hashes@.len() - i,
    {
        bloom.add_hash(hashes[i]);
        i += 1;
    }
    proof {
        build_map.lemma_hashes(keys, len);
    }
    bloom
}

/// Makes a filter for the probe side of a join whose build side is in memory: an exact bitmap
/// where the keys are integers in a small range, else a Bloom filter, as far as the memory goes.
pub fn build_in_memory_probe_filter(
    memory: &mut QueryMemoryManager,
    build_map: &JoinTable,
    key_indices: &[usize],
    candidate: &ExactBitmapCandidate,
    Ghost(len): Ghost<nat>,
) -> (r: Result<Option<ProbeSemijoinFilter>, DbError>)
    requires
        old(memory)@.inv(),
        build_map.inv(positions(key_indices@), len),
        forall|i: int|
            0 <= i < build_map.rows().len() ==> candidate.covers(
                pick(#[trigger] build_map.rows()[i], positions(key_indices@)),
            ),
    ensures
        final(memory)@.inv(),
        r is Ok,
        r matches Ok(f) ==> {
            &&& f matches Some(x) ==> x.inv()
            &&& forall|i: int|
                0 <= i < build_map.rows().len() ==> filter_passes(
                    f,
                    pick(#[trigger] build_map.rows()[i], positions(key_indices@)),
                )
            &&& final(memory)@.used == old(memory)@.used + match f {
                Some(x) => x.reserved(),
                None => 0,
            }
            &&& build_map.rows().len() == 0 ==> f is None
        },
{
    let ghost keys = positions(key_indices@);
    let ghost rows = build_map.rows();
    if build_map.is_empty(Ghost(keys), Ghost(len)) {
        return Ok(None);
    }
    if candidate.can_build_bitmap() {
        let mut bitmap = ExactIntBitmap::new(candidate.min_value, candidate.max_value);
        let bytes: usize = bitmap.size_bytes();
        if memory.available_bytes() >= bytes {
            match memory.try_reserve(bytes) {
                Ok(_) => {},
                Err(e) => {
                    return Err(e);
                },
            }
            proof {
                assert(bitmap_spans(&bitmap, keys, rows)) by {
                    assert forall|i: int| 0 <= i < rows.len() implies (int_key(
                        pick(#[trigger] rows[i], keys),
                    ) matches Some(v) ==> bitmap.spans(v)) by {
                        assert(candidate.covers(pick(rows[i], keys)));
                    }
                }
            }
            populate_bitmap_from_build_map(build_map, key_indices, &mut bitmap, Ghost(len));
            return Ok(Some(ProbeSemijoinFilter::ExactInt { bitmap, reserved_bytes: bytes }));
        }
    }
    let bytes: usize = PROBE_PRUNE_FILTER_WORDS * 8;
    if memory.available_bytes() >= bytes {
        match memory.try_reserve(bytes) {
            Ok(_) => {},
            Err(e) => {
                return Err(e);
            },
        }
        let bloom = build_probe_bloom_from_build_map(build_map, Ghost(keys), Ghost(len));
        return Ok(Some(ProbeSemijoinFilter::Bloom { bloom, reserved_bytes: bytes }));
    }
    Ok(None)
}

} // verus!

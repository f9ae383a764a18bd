//! Membership filters: Bloom filters, and exact bitmaps of integers.

use vstd::prelude::*;
use crate::bits::{bits_of, empty_words, set_bit, test_bit};
use crate::error::DbError;
use crate::hashing::{FastHasher, absorbed, hashed_value};
use crate::row::{Row, in_bounds, pick};
use crate::value::{Data, Value};
use crate::views::{positions, values_of};

verus! {

const MIX: u64 = 0x9E3779B97F4A7C15;

/// The size of a join's Bloom filter in bytes.
pub const BLOOM_FILTER_BYTES: usize = 0x20_0000;

pub const BLOOM_FILTER_BITS: usize = 0x100_0000;

pub const BLOOM_FILTER_WORDS: usize = 0x4_0000;

const BLOOM_FILTER_PROBES: usize = 7;

pub const PROBE_PRUNE_FILTER_BITS: usize = 65_536;

pub const PROBE_PRUNE_FILTER_WORDS: usize = 1024;

pub const PROBE_PRUNE_FILTER_HASHES: usize = 3;

pub const EXACT_KEY_BITMAP_MAX_BITS: usize = 16_777_216;

/// The bits that `k` steps of double hashing reach.
pub open spec fn stride_bits(h: u64, stride: u64, m: int, k: nat) -> Set<int>
    decreases k,
{
    if k == 0 {
        Set::empty()
    } else {
        stride_bits(h.wrapping_add(stride), stride, m, (k - 1) as nat).insert(
            (h as usize) as int % m,
        )
    }
}

/// The bits of a join's Bloom filter that stand for a hash.
pub open spec fn bloom_bits(hash: u64) -> Set<int> {
    stride_bits(
        hash,
        hash.wrapping_mul(0x9E3779B97F4A7C15) | 1,
        BLOOM_FILTER_BITS as int,
        7,
    )
}

/// A Bloom filter over the join keys of one side.
#[derive(Debug)]
pub struct BloomFilter {
    bits: Vec<u64>,
}

impl BloomFilter {
    /// The bits that are set.
    pub closed spec fn view(&self) -> Set<int> {
        bits_of(self.bits@)
    }

    pub closed spec fn inv(&self) -> bool {
        self.bits@.len() == BLOOM_FILTER_WORDS
    }

    /// Whether a hash may have been inserted.
    pub open spec fn may(&self, hash: u64) -> bool {
        bloom_bits(hash).subset_of(self.view())
    }

    pub fn new() -> (r: BloomFilter)
        ensures
            r.inv(),
            r.view() == Set::<int>::empty(),
    {
        BloomFilter { bits: empty_words(BLOOM_FILTER_WORDS) }
    }

    /// Inserts a hash. What may have been inserted before still may.
    pub fn insert(&mut self, hash: u64)
        requires
            old(self).inv(),
        ensures
            final(self).inv(),
            final(self).view() == old(self).view().union(bloom_bits(hash)),
            final(self).may(hash),
            forall|h: u64| old(self).may(h) ==> #[trigger] final(self).may(h),
    {
        let stride: u64 = hash.wrapping_mul(MIX) | 1;
        let m: usize = BLOOM_FILTER_BITS;
        let mut h: u64 = hash;
        let mut i: usize = 0;
        assert(bits_of(self.bits@).union(stride_bits(h, stride, m as int, 7)) =~= old(
            self,
        ).view().union(bloom_bits(hash)));
        while i < BLOOM_FILTER_PROBES
            invariant
                i <= 7,
                m == BLOOM_FILTER_BITS,
                self.bits@.len() == BLOOM_FILTER_WORDS,
                bits_of(self.bits@).union(stride_bits(h, stride, m as int, (7 - i) as nat)) == old(
                    self,
                ).view().union(bloom_bits(hash)),
            decreases 7 - i,
        {
            let bit: usize = (h as usize) % m;
            let ghost before = bits_of(self.bits@);
            set_bit(&mut self.bits, bit);
            proof {
                let rest = stride_bits(h.wrapping_add(stride), stride, m as int, (6 - i) as nat);
                assert(before.union(rest.insert(bit as int)) =~= before.insert(bit as int).union(
                    rest,
                ));
            }
            h = h.wrapping_add(stride);
            i = i + 1;
        }
        assert(self.view() =~= old(self).view().union(bloom_bits(hash)));
    }

    /// Whether a hash may have been inserted.
    pub fn may_contain(&self, hash: u64) -> (r: bool)
        requires
            self.inv(),
        ensures
            r == self.may(hash),
    {
        let stride: u64 = hash.wrapping_mul(MIX) | 1;
        let m: usize = BLOOM_FILTER_BITS;
        let mut h: u64 = hash;
        let mut i: usize = 0;
        while i < BLOOM_FILTER_PROBES
            invariant
                i <= 7,
                m == BLOOM_FILTER_BITS,
                self.bits@.len() == BLOOM_FILTER_WORDS,
                self.may(hash) == stride_bits(h, stride, m as int, (7 - i) as nat).subset_of(
                    self.view(),
                ),
            decreases 7 - i,
        {
            let bit: usize = (h as usize) % m;
            let ghost rest = stride_bits(h.wrapping_add(stride), stride, m as int, (6 - i) as nat);
            if !test_bit(self.bits.as_slice(), bit) {
                assert(rest.insert(bit as int).contains(bit as int));
                return false;
            }
            proof {
                assert(rest.insert(bit as int).subset_of(self.view()) <==> rest.subset_of(
                    self.view(),
                )) by {
                    if rest.insert(bit as int).subset_of(self.view()) {
                        assert forall|x: int| rest.contains(x) implies self.view().contains(x) by {
                            assert(rest.insert(bit as int).contains(x));
                        }
                    }
                }
            }
            h = h.wrapping_add(stride);
            i = i + 1;
        }
        true
    }
}

/// A hash turned by 17 bits to the left.
pub open spec fn turned(x: u64) -> u64 {
    (x << 17) | (x >> 47)
}

/// The bits that `k` steps of repeated mixing reach.
pub open spec fn mixed_bits(x: u64, m: int, k: nat) -> Set<int>
    decreases k,
{
    if k == 0 {
        Set::empty()
    } else {
        mixed_bits(turned(x).wrapping_mul(0x9E3779B97F4A7C15), m, (k - 1) as nat).insert(
            (x as usize) as int % m,
        )
    }
}

/// Whether all the bits that a hash reaches are set.
pub open spec fn mixed_may(words: Seq<u64>, num_hashes: nat, hash: u64) -> bool {
    mixed_bits(hash, (words.len() * 64) as int, num_hashes).subset_of(bits_of(words))
}

fn mix(x: u64) -> (r: u64)
    ensures
        r == turned(x).wrapping_mul(0x9E3779B97F4A7C15),
{
    ((x << 17) | (x >> 47)).wrapping_mul(MIX)
}

pub fn mixed_contains(words: &[u64], num_hashes: usize, hash: u64) -> (r: bool)
    requires
        0 < words@.len() * 64 <= usize::MAX,
    ensures
        r == mixed_may(words@, num_hashes as nat, hash),
{
    let m: usize = words.len() * 64;
    let ghost set = bits_of(words@);
    let mut x: u64 = hash;
    let mut i: usize = 0;
    while i < num_hashes
        invariant
            i <= num_hashes,
            m == words@.len() * 64,
            m > 0,
            set == bits_of(words@),
            mixed_may(words@, num_hashes as nat, hash) == mixed_bits(
                x,
                m as int,
                (num_hashes - i) as nat,
            ).subset_of(set),
        decreases num_hashes - i,
    {
        let bit: usize = (x as usize) % m;
        let next: u64 = mix(x);
        let ghost rest = mixed_bits(next, m as int, (num_hashes - i - 1) as nat);
        if !test_bit(words, bit) {
            assert(rest.insert(bit as int).contains(bit as int));
            return false;
        }
        proof {
            assert(rest.insert(bit as int).subset_of(set) <==> rest.subset_of(set)) by {
                if rest.insert(bit as int).subset_of(set) {
                    assert forall|y: int| rest.contains(y) implies set.contains(y) by {
                        assert(rest.insert(bit as int).contains(y));
                    }
                }
            }
        }
        x = next;
        i = i + 1;
    }
    true
}

/// A Bloom filter over the join keys of one partition.
#[derive(Debug)]
pub struct PartitionKeyBloom {
    words: Vec<u64>,
}

impl PartitionKeyBloom {
    /// The bits that are set.
    pub closed spec fn view(&self) -> Set<int> {
        bits_of(self.words@)
    }

    pub closed spec fn inv(&self) -> bool {
        self.words@.len() == PROBE_PRUNE_FILTER_WORDS
    }

    /// Whether a hash may have been added.
    pub open spec fn may(&self, hash: u64) -> bool {
        mixed_bits(hash, PROBE_PRUNE_FILTER_BITS as int, 3).subset_of(self.view())
    }

    pub fn new() -> (r: PartitionKeyBloom)
        ensures
            r.inv(),
            r.view() == Set::<int>::empty(),
    {
        PartitionKeyBloom { words: empty_words(PROBE_PRUNE_FILTER_WORDS) }
    }

    /// Adds a hash. What may have been added before still may.
    pub fn add_hash(&mut self, hash: u64)
        requires
            old(self).inv(),
        ensures
            final(self).inv(),
            final(self).view() == old(self).view().union(
                mixed_bits(hash, PROBE_PRUNE_FILTER_BITS as int, 3),
            ),
            final(self).may(hash),
            forall|h: u64| old(self).may(h) ==> #[trigger] final(self).may(h),
    {
        let m: usize = PROBE_PRUNE_FILTER_BITS;
        let ghost goal = old(self).view().union(mixed_bits(hash, m as int, 3));
        let mut x: u64 = hash;
        let mut i: usize = 0;
        while i < PROBE_PRUNE_FILTER_HASHES
            invariant
                i <= 3,
                m == PROBE_PRUNE_FILTER_BITS,
                self.words@.len() == PROBE_PRUNE_FILTER_WORDS,
                bits_of(self.words@).union(mixed_bits(x, m as int, (3 - i) as nat)) == goal,
            decreases 3 - i,
        {
            let bit: usize = (x as usize) % m;
            let next: u64 = mix(x);
            let ghost before = bits_of(self.words@);
            set_bit(&mut self.words, bit);
            proof {
                let rest = mixed_bits(next, m as int, (2 - i) as nat);
                assert(before.union(rest.insert(bit as int)) =~= before.insert(bit as int).union(
                    rest,
                ));
            }
            x = next;
            i = i + 1;
        }
        assert(self.view() =~= goal);
    }

    /// Whether a hash may have been added.
    pub fn might_contain_hash(&self, hash: u64) -> (r: bool)
        requires
            self.inv(),
        ensures
            r == self.may(hash),
    {
        mixed_contains(self.words.as_slice(), PROBE_PRUNE_FILTER_HASHES, hash)
    }
}

/// The integer that a join key of one integer column stands for.
pub open spec fn int_key(key: Seq<Value>) -> Option<int> {
    if key.len() != 1 {
        None
    } else {
        match key[0] {
            Value::Int32(v) => Some(v as int),
            Value::Int64(v) => Some(v as int),
            _ => None,
        }
    }
}

/// The integer that the join key of a row stands for.
pub fn single_int_key_value(row: &Row, indices: &[usize]) -> (r: Option<i64>)
    requires
        in_bounds(positions(indices@), row@.len() as int),
    ensures
        r is Some <==> int_key(pick(row@, positions(indices@))) is Some,
        r is Some ==> int_key(pick(row@, positions(indices@))) == Some(r->0 as int),
{
    if indices.len() != 1 {
        return None;
    }
    let values = row.values();
    proof {
        assert(positions(indices@)[0] == indices@[0]);
        assert(values_of(values@).len() == values@.len());
    }
    match &values[indices[0]] {
        Data::Int32(v) => Some(*v as i64),
        Data::Int64(v) => Some(*v),
        _ => None,
    }
}

/// Finds out whether the join keys of one side are integers, and in which range.
#[derive(Debug)]
pub struct ExactBitmapCandidate {
    pub supported: bool,
    pub seen_any: bool,
    pub min_value: i64,
    pub max_value: i64,
}

impl Default for ExactBitmapCandidate {
    fn default() -> (r: ExactBitmapCandidate)
        ensures
            !r.supported,
            !r.seen_any,
            r.min_value == 0,
            r.max_value == 0,
    {
        ExactBitmapCandidate { supported: false, seen_any: false, min_value: 0, max_value: 0 }
    }
}

impl ExactBitmapCandidate {
    /// Whether a key lies in the range of integers seen so far, all keys being integers.
    pub open spec fn covers(&self, key: Seq<Value>) -> bool {
        self.seen_any && (self.supported ==> int_key(key) is Some && self.min_value <= int_key(
            key,
        )->0 <= self.max_value)
    }

    pub fn observe_row(&mut self, row: &Row, key_indices: &[usize])
        requires
            in_bounds(positions(key_indices@), row@.len() as int),
        ensures
            ({
                let key = pick(row@, positions(key_indices@));
                let still = old(self).supported || !old(self).seen_any;
                &&& final(self).seen_any
                &&& final(self).supported == (still && int_key(key) is Some)
                &&& final(self).supported ==> {
                    let v = int_key(key)->0;
                    if old(self).seen_any {
                        &&& final(self).min_value == (if v < old(self).min_value {
                            v
                        } else {
                            old(self).min_value as int
                        })
                        &&& final(self).max_value == (if v > old(self).max_value {
                            v
                        } else {
                            old(self).max_value as int
                        })
                    } else {
                        final(self).min_value == v && final(self).max_value == v
                    }
                }
                &&& final(self).covers(key)
            }),
            forall|k: Seq<Value>| old(self).covers(k) ==> #[trigger] final(self).covers(k),
    {
        if self.seen_any && !self.supported {
            return;
        }
        let v: i64 = match single_int_key_value(row, key_indices) {
            Some(v) => v,
            None => {
                self.supported = false;
                self.seen_any = true;
                return;
            },
        };
        if !self.seen_any {
            self.supported = true;
            self.seen_any = true;
            self.min_value = v;
            self.max_value = v;
            return;
        }
        if v < self.min_value {
            self.min_value = v;
        }
        if v > self.max_value {
            self.max_value = v;
        }
    }

    /// Whether a bitmap of all the keys is small enough.
    pub fn can_build_bitmap(&self) -> (r: bool)
        ensures
            r == (self.supported && self.seen_any && self.min_value <= self.max_value
                && self.max_value - self.min_value + 1 <= EXACT_KEY_BITMAP_MAX_BITS),
    {
        if !self.supported || !self.seen_any {
            return false;
        }
        let span: i128 = (self.max_value as i128) - (self.min_value as i128) + 1;
        span > 0 && span <= EXACT_KEY_BITMAP_MAX_BITS as i128
    }
}

/// How many bits of some words can be addressed.
pub open spec fn bit_capacity(words: Seq<u64>) -> int {
    if words.len() * 64 > usize::MAX {
        usize::MAX as int
    } else {
        (words.len() * 64) as int
    }
}

/// Whether a bitmap with the given base holds an integer.
pub open spec fn bitmap_has(base: i64, words: Seq<u64>, value: int) -> bool {
    value - base < bit_capacity(words) && bits_of(words).contains(value - base)
}

fn offset_in_bitmap(base: i64, words: &[u64], value: i64) -> (r: Option<usize>)
    ensures
        r is Some <==> 0 <= value - base < bit_capacity(words@),
        r is Some ==> r->0 as int == value - base,
{
    if value < base {
        return None;
    }
    let offset: u128 = ((value as i128) - (base as i128)) as u128;
    let capacity: u128 = (words.len() as u128) * 64;
    if offset >= capacity || offset >= usize::MAX as u128 {
        return None;
    }
    Some(offset as usize)
}

/// An exact set of integers in a range.
#[derive(Debug)]
pub struct ExactIntBitmap {
    base: i64,
    bits: Vec<u64>,
}

impl ExactIntBitmap {
    /// Whether an integer is in the set.
    pub closed spec fn has(&self, value: int) -> bool {
        bitmap_has(self.base, self.bits@, value)
    }

    /// Whether an integer is in the range.
    pub closed spec fn spans(&self, value: int) -> bool {
        0 <= value - self.base < bit_capacity(self.bits@)
    }

    pub closed spec fn word_count(&self) -> nat {
        self.bits@.len()
    }

    /// The empty set for the range `base ..= max_value`.
    pub fn new(base: i64, max_value: i64) -> (r: ExactIntBitmap)
        requires
            base <= max_value,
            max_value - base + 1 <= EXACT_KEY_BITMAP_MAX_BITS,
        ensures
            forall|v: int| !#[trigger] r.has(v),
            forall|v: int| base <= v <= max_value ==> #[trigger] r.spans(v),
            r.word_count() == (max_value - base + 1 + 63) / 64,
    {
        let span: usize = ((max_value as i128) - (base as i128) + 1) as usize;
        let words: usize = (span + 63) / 64;
        ExactIntBitmap { base, bits: empty_words(words) }
    }

    /// Adds an integer, where it lies in the range.
    pub fn add_value(&mut self, value: i64)
        ensures
            forall|v: int|
                #[trigger] final(self).has(v) <==> old(self).has(v) || (v == value && old(
                    self,
                ).spans(v)),
            forall|v: int| #[trigger] final(self).spans(v) == old(self).spans(v),
            final(self).word_count() == old(self).word_count(),
    {
        if let Some(offset) = offset_in_bitmap(self.base, self.bits.as_slice(), value) {
            set_bit(&mut self.bits, offset);
        }
    }

    pub fn contains(&self, value: i64) -> (r: bool)
        ensures
            r == self.has(value as int),
    {
        match offset_in_bitmap(self.base, self.bits.as_slice(), value) {
            Some(offset) => test_bit(self.bits.as_slice(), offset),
            None => false,
        }
    }

    /// The memory that the bitmap takes, in bytes.
    pub fn size_bytes(&self) -> (r: usize)
        ensures
            r == (if self.word_count() * 8 > usize::MAX {
                usize::MAX as nat
            } else {
                self.word_count() * 8
            }),
    {
        match self.bits.len().checked_mul(8) {
            Some(n) => n,
            None => usize::MAX,
        }
    }
}

/// What a run-time filter of a scan tests for.
#[derive(Debug)]
pub enum RuntimeMembershipFilterKind {
    ExactIntBitmap { base: i64, bits: Vec<u64> },
    Bloom { words: Vec<u64>, num_hashes: usize },
}

/// A filter that a scan applies to one column of a table.
#[derive(Debug)]
pub struct RuntimeMembershipFilter {
    pub full_col_idx: usize,
    pub kind: RuntimeMembershipFilterKind,
}

/// The hash of a value for a run-time filter; unlike in a join key, a string has no terminator.
pub open spec fn filter_hash(v: Value) -> u64 {
    match v {
        Value::Str(s) => absorbed(0, vstd::utf8::encode_utf8(s)),
        _ => hashed_value(0, v),
    }
}

/// Whether a value passes a run-time filter.
pub open spec fn filter_accepts(kind: RuntimeMembershipFilterKind, v: Value) -> bool {
    match kind {
        RuntimeMembershipFilterKind::ExactIntBitmap { base, bits } => match v {
            Value::Int32(n) => bitmap_has(base, bits@, n as int),
            Value::Int64(n) => bitmap_has(base, bits@, n as int),
            _ => false,
        },
        RuntimeMembershipFilterKind::Bloom { words, num_hashes } => words@.len() > 0 && mixed_may(
            words@,
            num_hashes as nat,
            filter_hash(v),
        ),
    }
}

pub fn hash_data_value(value: &Data) -> (r: u64)
    ensures
        r == filter_hash(value@),
{
    let mut h = FastHasher { state: 0 };
    match value {
        Data::Int32(v) => h.write_i32(*v),
        Data::Int64(v) => h.write_i64(*v),
        Data::Float32(v) => h.write_u32(*v),
        Data::Float64(v) => h.write_u64(*v),
        Data::String(s) => h.write(s.as_str().as_bytes()),
    }
    h.finish()
}

impl RuntimeMembershipFilter {
    /// Whether the filter's words can be addressed bit by bit.
    pub open spec fn inv(&self) -> bool {
        match self.kind {
            RuntimeMembershipFilterKind::ExactIntBitmap { base, bits } => true,
            RuntimeMembershipFilterKind::Bloom { words, num_hashes } => words@.len() * 64
                <= usize::MAX,
        }
    }

    pub fn exact_int_bitmap(full_col_idx: usize, base: i64, bits: Vec<u64>) -> (r:
        RuntimeMembershipFilter)
        ensures
            r.full_col_idx == full_col_idx,
            r.kind == (RuntimeMembershipFilterKind::ExactIntBitmap { base, bits }),
            r.inv(),
    {
        RuntimeMembershipFilter {
            full_col_idx,
            kind: RuntimeMembershipFilterKind::ExactIntBitmap { base, bits },
        }
    }

    pub fn bloom(full_col_idx: usize, words: Vec<u64>, num_hashes: usize) -> (r: Result<
        RuntimeMembershipFilter,
        DbError,
    >)
        requires
            words@.len() * 64 <= usize::MAX,
        ensures
            r is Ok <==> words@.len() > 0 && num_hashes > 0,
            r matches Ok(f) ==> f.full_col_idx == full_col_idx && f.kind == (
            RuntimeMembershipFilterKind::Bloom { words, num_hashes }) && f.inv(),
            r matches Err(e) ==> e == (if words@.len() == 0 {
                DbError::FilterWithoutWords
            } else {
                DbError::FilterWithoutHashes
            }),
    {
        if words.len() == 0 {
            return Err(DbError::FilterWithoutWords);
        }
        if num_hashes == 0 {
            return Err(DbError::FilterWithoutHashes);
        }
        Ok(
            RuntimeMembershipFilter {
                full_col_idx,
                kind: RuntimeMembershipFilterKind::Bloom { words, num_hashes },
            },
        )
    }

    /// Whether an integer passes, given as such or by its hash.
    pub fn matches_data(&self, value: &Data) -> (r: bool)
        requires
            self.inv(),
        ensures
            r == filter_accepts(self.kind, value@),
    {
        match &self.kind {
            RuntimeMembershipFilterKind::ExactIntBitmap { base, bits } => match value {
                Data::Int32(v) => bitmap_contains(*base, bits.as_slice(), *v as i64),
                Data::Int64(v) => bitmap_contains(*base, bits.as_slice(), *v),
                _ => false,
            },
            RuntimeMembershipFilterKind::Bloom { words, num_hashes } => {
                if words.len() == 0 {
                    false
                } else {
                    mixed_contains(words.as_slice(), *num_hashes, hash_data_value(value))
                }
            },
        }
    }
}

pub fn bitmap_contains(base: i64, bits: &[u64], value: i64) -> (r: bool)
    ensures
        r == bitmap_has(base, bits@, value as int),
{
    match offset_in_bitmap(base, bits, value) {
        Some(offset) => test_bit(bits, offset),
        None => false,
    }
}

} // verus!

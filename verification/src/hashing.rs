//! Hashes of values and join keys.

use std::hash::{DefaultHasher, Hasher};
use vstd::prelude::*;
use vstd::std_specs::hash::DefaultHasherAdditionalSpecFns;
use vstd::utf8::encode_utf8;
use crate::codec::{append_le, le};
use crate::row::{Row, in_bounds, pick};
use crate::value::{Data, Value};
use crate::views::{positions, values_of};

verus! {

pub const FNV_OFFSET: u64 = 0xcbf29ce484222325;

pub const FNV_PRIME: u64 = 0x100000001b3;

/// One step of the FNV-1a hash.
pub open spec fn fnv_step(h: u64, b: u8) -> u64 {
    (h ^ (b as u64)).wrapping_mul(FNV_PRIME)
}

/// The FNV-1a hash of bytes, from a state on.
pub open spec fn fnv(h: u64, bytes: Seq<u8>) -> u64
    decreases bytes.len(),
{
    if bytes.len() == 0 {
        h
    } else {
        fnv_step(fnv(h, bytes.drop_last()), bytes.last())
    }
}

/// The state of a `FastHasher` after bytes were written to it; a state of zero is a fresh one.
pub open spec fn absorbed(state: u64, bytes: Seq<u8>) -> u64 {
    fnv(
        if state == 0 {
            FNV_OFFSET
        } else {
            state
        },
        bytes,
    )
}

/// The FNV-1a hash.
#[derive(Clone, Copy, Debug)]
pub struct FastHasher {
    pub state: u64,
}

impl Default for FastHasher {
    fn default() -> (r: FastHasher)
        ensures
            r.state == 0,
    {
        FastHasher { state: 0 }
    }
}

proof fn lemma_fnv_push(h: u64, bytes: Seq<u8>, b: u8)
    ensures
        fnv(h, bytes.push(b)) == fnv_step(fnv(h, bytes), b),
{
    assert(bytes.push(b).drop_last() =~= bytes);
}

proof fn lemma_u32_bytes(i: u32)
    ensures
        le(i as nat, 4) == seq![
            (i & 0xff) as u8,
            ((i >> 8) & 0xff) as u8,
            ((i >> 16) & 0xff) as u8,
            ((i >> 24) & 0xff) as u8,
        ],
        (i & 0xff) as u64 == ((i & 0xff) as u8) as u64,
        ((i >> 8) & 0xff) as u64 == (((i >> 8) & 0xff) as u8) as u64,
        ((i >> 16) & 0xff) as u64 == (((i >> 16) & 0xff) as u8) as u64,
        ((i >> 24) & 0xff) as u64 == (((i >> 24) & 0xff) as u8) as u64,
{
    assert(i & 0xff == i % 256 && (i >> 8) & 0xff == (i / 256) % 256 && (i >> 16) & 0xff == (i
        / 256 / 256) % 256 && (i >> 24) & 0xff == (i / 256 / 256 / 256) % 256) by (bit_vector);
    reveal_with_fuel(le, 5);
    assert(le(i as nat, 4) =~= seq![
        (i & 0xff) as u8,
        ((i >> 8) & 0xff) as u8,
        ((i >> 16) & 0xff) as u8,
        ((i >> 24) & 0xff) as u8,
    ]);
}

proof fn lemma_u64_bytes(i: u64)
    ensures
        le(i as nat, 8) == seq![
            (i & 0xff) as u8,
            ((i >> 8) & 0xff) as u8,
            ((i >> 16) & 0xff) as u8,
            ((i >> 24) & 0xff) as u8,
            ((i >> 32) & 0xff) as u8,
            ((i >> 40) & 0xff) as u8,
            ((i >> 48) & 0xff) as u8,
            ((i >> 56) & 0xff) as u8,
        ],
        i & 0xff < 256,
        (i >> 8) & 0xff < 256,
        (i >> 16) & 0xff < 256,
        (i >> 24) & 0xff < 256,
        (i >> 32) & 0xff < 256,
        (i >> 40) & 0xff < 256,
        (i >> 48) & 0xff < 256,
        (i >> 56) & 0xff < 256,
{
    assert(i & 0xff == i % 256 && (i >> 8) & 0xff == (i / 256) % 256 && (i >> 16) & 0xff == (i
        / 256 / 256) % 256 && (i >> 24) & 0xff == (i / 256 / 256 / 256) % 256) by (bit_vector);
    let hi = i / 256 / 256 / 256 / 256;
    assert(hi == i >> 32) by (bit_vector)
        requires
            hi == i / 256 / 256 / 256 / 256,
    ;
    assert((i >> 32) & 0xff == hi % 256 && (i >> 40) & 0xff == (hi / 256) % 256 && (i >> 48) & 0xff
        == (hi / 256 / 256) % 256 && (i >> 56) & 0xff == (hi / 256 / 256 / 256) % 256)
        by (bit_vector)
        requires
            hi == i >> 32,
    ;
    reveal_with_fuel(le, 9);
    assert(le(i as nat, 8) =~= seq![
        (i & 0xff) as u8,
        ((i >> 8) & 0xff) as u8,
        ((i >> 16) & 0xff) as u8,
        ((i >> 24) & 0xff) as u8,
        ((i >> 32) & 0xff) as u8,
        ((i >> 40) & 0xff) as u8,
        ((i >> 48) & 0xff) as u8,
        ((i >> 56) & 0xff) as u8,
    ]);
}

fn fnv_mix(h: u64, b: u64) -> (r: u64)
    requires
        b < 256,
    ensures
        r == fnv_step(h, b as u8),
{
    (h ^ b).wrapping_mul(FNV_PRIME)
}

impl FastHasher {
    fn start(&self) -> (r: u64)
        ensures
            r == (if self.state == 0 {
                FNV_OFFSET
            } else {
                self.state
            }),
    {
        if self.state == 0 {
            FNV_OFFSET
        } else {
            self.state
        }
    }

    pub fn write(&mut self, bytes: &[u8])
        ensures
            final(self).state == absorbed(old(self).state, bytes@),
    {
        let first: u64 = self.start();
        let mut hash: u64 = first;
        let mut i: usize = 0;
        assert(bytes@.take(0) =~= Seq::<u8>::empty());
        while i < bytes.len()
            invariant
                i <= bytes@.len(),
                hash == fnv(first, bytes@.take(i as int)),
            decreases bytes@.len() - i,
        {
            let b: u8 = bytes[i];
            proof {
                assert(bytes@.take(i + 1) =~= bytes@.take(i as int).push(b));
                lemma_fnv_push(first, bytes@.take(i as int), b);
            }
            hash = fnv_mix(hash, b as u64);
            i = i + 1;
        }
        assert(bytes@.take(i as int) =~= bytes@);
        self.state = hash;
    }

    pub fn write_u8(&mut self, i: u8)
        ensures
            final(self).state == absorbed(old(self).state, seq![i]),
    {
        let h: u64 = self.start();
        proof {
            reveal_with_fuel(fnv, 2);
            assert(seq![i].drop_last() =~= Seq::<u8>::empty());
        }
        self.state = fnv_mix(h, i as u64);
    }

    pub fn write_u16(&mut self, i: u16)
        ensures
            final(self).state == absorbed(old(self).state, le(i as nat, 2)),
    {
        let mut bytes: Vec<u8> = Vec::new();
        append_le(&mut bytes, i as u64, 2);
        assert(bytes@ =~= le(i as nat, 2));
        self.write(bytes.as_slice());
    }

    /// Writes four bytes; the same as writing them as a slice.
    pub fn write_u32(&mut self, i: u32)
        ensures
            final(self).state == absorbed(old(self).state, le(i as nat, 4)),
    {
        let h: u64 = self.start();
        proof {
            lemma_u32_bytes(i);
            let bytes = le(i as nat, 4);
            reveal_with_fuel(fnv, 5);
            assert(bytes.drop_last() =~= bytes.take(3));
            assert(bytes.take(3).drop_last() =~= bytes.take(2));
            assert(bytes.take(2).drop_last() =~= bytes.take(1));
            assert(bytes.take(1).drop_last() =~= bytes.take(0));
        }
        assert(i & 0xff < 256 && (i >> 8) & 0xff < 256 && (i >> 16) & 0xff < 256 && (i >> 24)
            & 0xff < 256) by (bit_vector);
        let a: u64 = fnv_mix(h, (i & 0xff) as u64);
        let b: u64 = fnv_mix(a, ((i >> 8) & 0xff) as u64);
        let c: u64 = fnv_mix(b, ((i >> 16) & 0xff) as u64);
        let d: u64 = fnv_mix(c, ((i >> 24) & 0xff) as u64);
        self.state = d;
    }

    /// Writes eight bytes; the same as writing them as a slice.
    pub fn write_u64(&mut self, i: u64)
        ensures
            final(self).state == absorbed(old(self).state, le(i as nat, 8)),
    {
        let h: u64 = self.start();
        proof {
            lemma_u64_bytes(i);
            let bytes = le(i as nat, 8);
            reveal_with_fuel(fnv, 9);
            assert(bytes.drop_last() =~= bytes.take(7));
            assert(bytes.take(7).drop_last() =~= bytes.take(6));
            assert(bytes.take(6).drop_last() =~= bytes.take(5));
            assert(bytes.take(5).drop_last() =~= bytes.take(4));
            assert(bytes.take(4).drop_last() =~= bytes.take(3));
            assert(bytes.take(3).drop_last() =~= bytes.take(2));
            assert(bytes.take(2).drop_last() =~= bytes.take(1));
            assert(bytes.take(1).drop_last() =~= bytes.take(0));
        }
        let a: u64 = fnv_mix(h, i & 0xff);
        let b: u64 = fnv_mix(a, (i >> 8) & 0xff);
        let c: u64 = fnv_mix(b, (i >> 16) & 0xff);
        let d: u64 = fnv_mix(c, (i >> 24) & 0xff);
        let e: u64 = fnv_mix(d, (i >> 32) & 0xff);
        let f: u64 = fnv_mix(e, (i >> 40) & 0xff);
        let g: u64 = fnv_mix(f, (i >> 48) & 0xff);
        let k: u64 = fnv_mix(g, (i >> 56) & 0xff);
        self.state = k;
    }

    pub fn write_usize(&mut self, i: usize)
        ensures
            final(self).state == absorbed(old(self).state, le(i as nat, 8)),
    {
        self.write_u64(i as u64);
    }

    pub fn write_i32(&mut self, i: i32)
        ensures
            final(self).state == absorbed(old(self).state, le((i as u32) as nat, 4)),
    {
        self.write_u32(i as u32);
    }

    pub fn write_i64(&mut self, i: i64)
        ensures
            final(self).state == absorbed(old(self).state, le((i as u64) as nat, 8)),
    {
        self.write_u64(i as u64);
    }

    pub fn finish(&self) -> (r: u64)
        ensures
            r == self.state,
    {
        self.state
    }
}

/// The state of a `FastHasher` after a value: a number as its little-endian bytes, a string as
/// its bytes and a terminator.
pub open spec fn hashed_value(state: u64, v: Value) -> u64 {
    match v {
        Value::Int32(n) => absorbed(state, le((n as u32) as nat, 4)),
        Value::Int64(n) => absorbed(state, le((n as u64) as nat, 8)),
        Value::Float32(b) => absorbed(state, le(b as nat, 4)),
        Value::Float64(b) => absorbed(state, le(b as nat, 8)),
        Value::Str(s) => absorbed(absorbed(state, encode_utf8(s)), seq![0xffu8]),
    }
}

/// The hash of a join key.
pub open spec fn key_hash(key: Seq<Value>) -> u64
    decreases key.len(),
{
    if key.len() == 0 {
        0
    } else {
        hashed_value(key_hash(key.drop_last()), key.last())
    }
}

fn hash_value(h: &mut FastHasher, d: &Data)
    ensures
        final(h).state == hashed_value(old(h).state, d@),
{
    match d {
        Data::Int32(v) => h.write_i32(*v),
        Data::Int64(v) => h.write_i64(*v),
        Data::Float32(v) => h.write_u32(*v),
        Data::Float64(v) => h.write_u64(*v),
        Data::String(s) => {
            h.write(s.as_str().as_bytes());
            h.write_u8(0xff);
        },
    }
}

/// Hashes the values of a row at the given positions.
pub fn key_hash64(row: &Row, indices: &[usize]) -> (r: u64)
    requires
        in_bounds(positions(indices@), row@.len() as int),
    ensures
        r == key_hash(pick(row@, positions(indices@))),
{
    let values = row.values();
    let ghost at = positions(indices@);
    let ghost key = pick(row@, at);
    let mut h = FastHasher { state: 0 };
    let mut i: usize = 0;
    assert(key.take(0) =~= Seq::<Value>::empty());
    while i < indices.len()
        invariant
            i <= indices@.len(),
            at == positions(indices@),
            key == pick(row@, at),
            values_of(values@) == row@,
            in_bounds(at, row@.len() as int),
            h.state == key_hash(key.take(i as int)),
        decreases indices@.len() - i,
    {
        assert(at[i as int] == indices@[i as int]);
        assert(values_of(values@).len() == values@.len());
        hash_value(&mut h, &values[indices[i]]);
        proof {
            assert(key.take(i + 1).drop_last() =~= key.take(i as int));
            assert(key.take(i + 1).last() == row@[at[i as int]]);
        }
        i = i + 1;
    }
    assert(key.take(i as int) =~= key);
    h.finish()
}

/// What a `DefaultHasher` is fed for a join key.
pub open spec fn key_writes(key: Seq<Value>) -> Seq<Seq<u8>>
    decreases key.len(),
{
    if key.len() == 0 {
        Seq::empty()
    } else {
        let before = key_writes(key.drop_last());
        match key.last() {
            Value::Int32(n) => before.push(le((n as u32) as nat, 4)),
            Value::Int64(n) => before.push(le((n as u64) as nat, 8)),
            Value::Float32(b) => before.push(le(b as nat, 4)),
            Value::Float64(b) => before.push(le(b as nat, 8)),
            Value::Str(s) => before.push(encode_utf8(s)).push(seq![0xffu8]),
        }
    }
}

/// The `DefaultHasher` hash of a join key.
pub open spec fn sip_hash(key: Seq<Value>) -> u64 {
    DefaultHasher::spec_finish(key_writes(key))
}

/// The partition that a salted hash puts a join key in.
pub open spec fn salted_partition(key: Seq<Value>, num_partitions: usize, salt: u64) -> int {
    (DefaultHasher::spec_finish(seq![le(salt as nat, 8)] + key_writes(key)) as usize) as int
        % num_partitions as int
}

fn write_number(h: &mut DefaultHasher, n: u64, width: usize)
    ensures
        final(h)@ == old(h)@.push(le(n as nat, width as nat)),
{
    let mut bytes: Vec<u8> = Vec::new();
    append_le(&mut bytes, n, width);
    assert(bytes@ =~= le(n as nat, width as nat));
    h.write(bytes.as_slice());
}

fn write_key(h: &mut DefaultHasher, row: &Row, indices: &[usize])
    requires
        in_bounds(positions(indices@), row@.len() as int),
    ensures
        final(h)@ == old(h)@ + key_writes(pick(row@, positions(indices@))),
{
    let values = row.values();
    let ghost at = positions(indices@);
    let ghost key = pick(row@, at);
    let ghost before = h@;
    let mut i: usize = 0;
    assert(key.take(0) =~= Seq::<Value>::empty());
    assert(h@ =~= before + key_writes(key.take(0)));
    while i < indices.len()
        invariant
            i <= indices@.len(),
            at == positions(indices@),
            key == pick(row@, at),
            values_of(values@) == row@,
            in_bounds(at, row@.len() as int),
            h@ == before + key_writes(key.take(i as int)),
        decreases indices@.len() - i,
    {
        assert(at[i as int] == indices@[i as int]);
        assert(values_of(values@).len() == values@.len());
        proof {
            assert(key.take(i + 1).drop_last() =~= key.take(i as int));
            assert(key.take(i + 1).last() == row@[at[i as int]]);
        }
        match &values[indices[i]] {
            Data::Int32(v) => write_number(h, (*v as u32) as u64, 4),
            Data::Int64(v) => write_number(h, *v as u64, 8),
            Data::Float32(v) => write_number(h, *v as u64, 4),
            Data::Float64(v) => write_number(h, *v, 8),
            Data::String(s) => {
                h.write(s.as_str().as_bytes());
                write_number(h, 0xff, 1);
                proof {
                    reveal_with_fuel(le, 2);
                    assert(le(0xff, 1) =~= seq![0xffu8]);
                }
            },
        }
        assert(h@ =~= before + key_writes(key.take(i + 1)));
        i = i + 1;
    }
    assert(key.take(i as int) =~= key);
}

/// Hashes a join key for the Bloom filter.
pub fn compute_join_key_hash(row: &Row, indices: &[usize]) -> (r: u64)
    requires
        in_bounds(positions(indices@), row@.len() as int),
    ensures
        r == sip_hash(pick(row@, positions(indices@))),
{
    let mut h = DefaultHasher::new();
    write_key(&mut h, row, indices);
    assert(h@ =~= key_writes(pick(row@, positions(indices@))));
    h.finish()
}

/// Tells which partition a row belongs to.
pub fn partition_hash_with_salt(
    row: &Row,
    indices: &[usize],
    num_partitions: usize,
    salt: u64,
) -> (r: usize)
    requires
        in_bounds(positions(indices@), row@.len() as int),
        num_partitions > 0,
    ensures
        r < num_partitions,
        r as int == salted_partition(pick(row@, positions(indices@)), num_partitions, salt),
{
    let mut h = DefaultHasher::new();
    write_number(&mut h, salt, 8);
    write_key(&mut h, row, indices);
    assert(h@ =~= seq![le(salt as nat, 8)] + key_writes(pick(row@, positions(indices@))));
    (h.finish() as usize) % num_partitions
}

} // verus!

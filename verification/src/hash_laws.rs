//! What hashes and membership filters do.

use vstd::prelude::*;
use crate::bits::{bits_of, word_bit};
use crate::bloom::{RuntimeMembershipFilterKind, filter_accepts, filter_hash, int_key, mixed_bits, mixed_may};
use crate::byte_laws::{int_bytes, least_significant_byte_comes_first, written_integers_are_in_twos_complement};
use crate::hashing::{absorbed, fnv, key_hash, salted_partition};
use crate::value::Value;

verus! {

/// Hashing bytes in two pieces is hashing them in one.
pub proof fn hashing_goes_byte_by_byte(h: u64, a: Seq<u8>, b: Seq<u8>)
    ensures
        fnv(h, Seq::empty()) == h,
        fnv(h, a + b) == fnv(fnv(h, a), b),
    decreases b.len(),
{
    if b.len() == 0 {
        assert(a + b =~= a);
    } else {
        hashing_goes_byte_by_byte(h, a, b.drop_last());
        assert((a + b).drop_last() =~= a + b.drop_last());
        assert((a + b).last() == b.last());
    }
}

/// Hashing a byte takes the exclusive or with it, and multiplies that by the prime of the 64 bit
/// hash of Fowler, Noll and Vo, modulo two to the power 64. A fresh state starts from their offset.
pub proof fn a_byte_is_mixed_in(h: u64, b: u8)
    ensures
        fnv(h, seq![b]) as int == ((h ^ (b as u64)) as int * 0x100_0000_01b3)
            % 0x1_0000_0000_0000_0000,
        h != 0 ==> absorbed(h, seq![b]) == fnv(h, seq![b]),
        absorbed(0, seq![b]) == fnv(0xcbf2_9ce4_8422_2325, seq![b]),
{
    let one = seq![b];
    assert(one.drop_last() =~= Seq::<u8>::empty());
    assert(fnv(h, one.drop_last()) == h);
}

/// A key is hashed value by value: a number by its bytes, the least significant one first, and a
/// text by its bytes and then a byte that no text holds.
pub proof fn keys_hash_their_bytes(key: Seq<Value>, v: Value)
    ensures
        key_hash(Seq::empty()) == 0,
        key_hash(key.push(v)) == (match v {
            Value::Int32(n) => absorbed(key_hash(key), int_bytes(n as int, 4)),
            Value::Int64(n) => absorbed(key_hash(key), int_bytes(n as int, 8)),
            Value::Float32(b) => absorbed(key_hash(key), int_bytes(b as int, 4)),
            Value::Float64(b) => absorbed(key_hash(key), int_bytes(b as int, 8)),
            Value::Str(s) => absorbed(
                absorbed(key_hash(key), vstd::utf8::encode_utf8(s)),
                seq![0xffu8],
            ),
        }),
        v matches Value::Str(s) ==> filter_hash(v) == absorbed(0, vstd::utf8::encode_utf8(s)),
        !(v is Str) ==> filter_hash(v) == key_hash(seq![v]),
{
    assert(key.push(v).drop_last() =~= key);
    assert(seq![v].drop_last() =~= Seq::<Value>::empty());
    assert(key_hash(seq![v].drop_last()) == 0);
    match v {
        Value::Int32(n) => {
            written_integers_are_in_twos_complement(n as int, 4);
        },
        Value::Int64(n) => {
            written_integers_are_in_twos_complement(n as int, 8);
        },
        Value::Float32(b) => {
            least_significant_byte_comes_first(b as nat, 4);
        },
        Value::Float64(b) => {
            least_significant_byte_comes_first(b as nat, 8);
        },
        Value::Str(_) => {},
    }
}

/// Rows with the same key go to the same partition, which is one of those that there are.
pub proof fn same_keys_go_together(a: Seq<Value>, b: Seq<Value>, n: usize, salt: u64)
    requires
        a == b,
        n > 0,
    ensures
        salted_partition(a, n, salt) == salted_partition(b, n, salt),
        0 <= salted_partition(a, n, salt) < n,
        key_hash(a) == key_hash(b),
{
}

/// Whether a bit of some words is set.
pub open spec fn bit_is_set(words: Seq<u64>, i: int) -> bool {
    0 <= i < words.len() * 64 && word_bit(words[i / 64], i % 64)
}

/// An exact filter accepts an integer of any type exactly where its bit is set, counted from the
/// base, and nothing that is no integer.
pub proof fn exact_filters_accept_their_integers(base: i64, bits: Vec<u64>, v: Value)
    requires
        bits@.len() * 64 <= usize::MAX,
    ensures
        ({
            let kind = RuntimeMembershipFilterKind::ExactIntBitmap { base, bits };
            filter_accepts(kind, v) <==> match v {
                Value::Int32(n) => bit_is_set(bits@, n - base),
                Value::Int64(n) => bit_is_set(bits@, n - base),
                _ => false,
            }
        }),
{
}

proof fn lemma_mixed_within(x: u64, m: int, k: nat)
    requires
        m > 0,
    ensures
        forall|i: int| mixed_bits(x, m, k).contains(i) ==> 0 <= i < m,
    decreases k,
{
    if k > 0 {
        let next = crate::bloom::turned(x).wrapping_mul(0x9E3779B97F4A7C15);
        let rest = mixed_bits(next, m, (k - 1) as nat);
        let first = (x as usize) as int % m;
        lemma_mixed_within(next, m, (k - 1) as nat);
        vstd::arithmetic::div_mod::lemma_mod_bound((x as usize) as int, m);
        assert forall|i: int| mixed_bits(x, m, k).contains(i) implies 0 <= i < m by {
            assert(i == first || rest.contains(i));
        }
    }
}

/// Setting more bits of a filter never makes it turn down what it accepted, a filter with all bits
/// set accepts all, and one with none set accepts nothing.
pub proof fn filters_accept_more_with_more_bits(
    few: Vec<u64>,
    many: Vec<u64>,
    num_hashes: usize,
    v: Value,
)
    requires
        few@.len() == many@.len(),
        few@.len() > 0,
        num_hashes > 0,
        forall|i: int| #[trigger] bit_is_set(few@, i) ==> bit_is_set(many@, i),
    ensures
        filter_accepts(RuntimeMembershipFilterKind::Bloom { words: few, num_hashes }, v)
            ==> filter_accepts(RuntimeMembershipFilterKind::Bloom { words: many, num_hashes }, v),
        (forall|i: int| 0 <= i < many@.len() * 64 ==> #[trigger] bit_is_set(many@, i))
            ==> filter_accepts(RuntimeMembershipFilterKind::Bloom { words: many, num_hashes }, v),
        (forall|i: int| !#[trigger] bit_is_set(few@, i)) ==> !filter_accepts(
            RuntimeMembershipFilterKind::Bloom { words: few, num_hashes },
            v,
        ),
{
    let h = filter_hash(v);
    let m = (few@.len() * 64) as int;
    let wanted = mixed_bits(h, m, num_hashes as nat);
    lemma_mixed_within(h, m, num_hashes as nat);
    assert forall|i: int| bits_of(few@).contains(i) <==> #[trigger] bit_is_set(few@, i) by {}
    assert forall|i: int| bits_of(many@).contains(i) <==> #[trigger] bit_is_set(many@, i) by {}
    if mixed_may(few@, num_hashes as nat, h) {
        assert forall|i: int| wanted.contains(i) implies bits_of(many@).contains(i) by {
            assert(bits_of(few@).contains(i));
            assert(bit_is_set(few@, i));
        }
    }
    if forall|i: int| 0 <= i < many@.len() * 64 ==> #[trigger] bit_is_set(many@, i) {
        assert forall|i: int| wanted.contains(i) implies bits_of(many@).contains(i) by {
            assert(bit_is_set(many@, i));
        }
    }
    let first = (h as usize) as int % m;
    assert(wanted.contains(first));
    if forall|i: int| !#[trigger] bit_is_set(few@, i) {
        assert(!bit_is_set(few@, first));
        assert(!bits_of(few@).contains(first));
    }
}

/// A key is an integer where it is a single one, of either type.
pub proof fn single_integers_are_keys(v: Value, w: Value)
    ensures
        int_key(seq![v]) == (match v {
            Value::Int32(n) => Some(n as int),
            Value::Int64(n) => Some(n as int),
            _ => None::<int>,
        }),
        int_key(seq![v, w]) is None,
        int_key(Seq::empty()) is None,
{
}

} // verus!

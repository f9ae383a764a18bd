//! Sets of small numbers, one bit each.

use vstd::prelude::*;

verus! {

/// Whether bit `k` of a word is set.
pub open spec fn word_bit(w: u64, k: int) -> bool {
    (w >> (k as u64)) & 1 == 1
}

/// The set that 64-bit words stand for.
pub open spec fn bits_of(words: Seq<u64>) -> Set<int> {
    Set::new(|i: int| 0 <= i < words.len() * 64 && word_bit(words[i / 64], i % 64))
}

proof fn lemma_set_word_bit(w: u64, k: u64, j: u64)
    requires
        k < 64,
        j < 64,
    ensures
        word_bit(w | (1u64 << k), j as int) <==> (j == k || word_bit(w, j as int)),
{
    assert((((w | (1u64 << k)) >> j) & 1 == 1) <==> (j == k || (w >> j) & 1 == 1)) by (bit_vector)
        requires
            k < 64,
            j < 64,
    ;
}

proof fn lemma_zero_word(j: u64)
    requires
        j < 64,
    ensures
        !word_bit(0, j as int),
{
    assert((0u64 >> j) & 1 == 0) by (bit_vector);
}

proof fn lemma_mask_test(w: u64, k: u64)
    requires
        k < 64,
    ensures
        ((w & (1u64 << k)) != 0) <==> word_bit(w, k as int),
{
    assert(((w & (1u64 << k)) != 0) <==> ((w >> k) & 1 == 1)) by (bit_vector)
        requires
            k < 64,
    ;
}

/// Makes words with no bit set.
pub fn empty_words(n: usize) -> (r: Vec<u64>)
    ensures
        r@.len() == n,
        bits_of(r@) == Set::<int>::empty(),
{
    let r: Vec<u64> = vec![0u64; n];
    proof {
        assert forall|i: int| !bits_of(r@).contains(i) by {
            if 0 <= i < r@.len() * 64 {
                lemma_zero_word((i % 64) as u64);
            }
        }
        assert(bits_of(r@) =~= Set::<int>::empty());
    }
    r
}

/// Sets a bit.
pub fn set_bit(words: &mut Vec<u64>, bit: usize)
    requires
        bit < old(words)@.len() * 64,
    ensures
        final(words)@.len() == old(words)@.len(),
        bits_of(final(words)@) == bits_of(old(words)@).insert(bit as int),
{
    let at: usize = bit / 64;
    let k: u64 = (bit % 64) as u64;
    let w: u64 = words[at] | (1u64 << k);
    let ghost before = words@;
    words.set(at, w);
    proof {
        assert forall|i: int| bits_of(words@).contains(i) <==> bits_of(before).insert(
            bit as int,
        ).contains(i) by {
            if 0 <= i < before.len() * 64 {
                lemma_set_word_bit(before[at as int], k, (i % 64) as u64);
                if i / 64 == at && i % 64 == k {
                    assert(i == bit);
                }
            }
        }
        assert(bits_of(words@) =~= bits_of(before).insert(bit as int));
    }
}

/// Tests a bit.
pub fn test_bit(words: &[u64], bit: usize) -> (r: bool)
    requires
        bit < words@.len() * 64,
    ensures
        r == bits_of(words@).contains(bit as int),
{
    let k: u64 = (bit % 64) as u64;
    let w: u64 = words[bit / 64];
    proof {
        lemma_mask_test(w, k);
    }
    (w & (1u64 << k)) != 0
}

} // verus!

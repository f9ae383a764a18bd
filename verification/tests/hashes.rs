use exocore::bloom::{bitmap_contains, single_int_key_value, BloomFilter, ExactBitmapCandidate, ExactIntBitmap, PartitionKeyBloom, RuntimeMembershipFilter, hash_data_value};
use exocore::error::DbError;
use exocore::hashing::{compute_join_key_hash, key_hash64, partition_hash_with_salt, FastHasher};
use exocore::join_table::{make_key, same_keys};
use exocore::row::Row;
use exocore::value::Data;
use std::collections::hash_map::DefaultHasher;
use std::hash::Hasher;

fn text(s: &str) -> Data {
    Data::String(s.to_string())
}

#[test]
fn the_fast_hash_is_fnv_1a() {
    let mut h = FastHasher { state: 0 };
    h.write(b"ab");
    h.write(&[0xff]);
    assert_eq!(h.finish(), FNV_AB);
    let mut h = FastHasher { state: 0 };
    h.write_i64(-3);
    assert_eq!(h.finish(), FNV_M3);
}

const FNV_7: u64 = 0x6d3572669b2cde42;
const FNV_AB: u64 = 0xe7202e190542452f;
const FNV_M3: u64 = 0xf5b33f6b1d3bea7f;
const FNV_7_AB: u64 = 0x19cd8b7527e366fa;

#[test]
fn join_keys_hash_their_bytes() {
    let r = Row::new(vec![Data::Int32(7), text("ab")]);
    assert_eq!(key_hash64(&r, &[0]), FNV_7);
    assert_eq!(key_hash64(&r, &[0, 1]), FNV_7_AB);
    assert_eq!(key_hash64(&r, &[]), 0);
}

#[test]
fn partitions_follow_the_salted_hash() {
    let r = Row::new(vec![Data::Int64(5), text("k")]);
    for salt in [0u64, 1, 99] {
        let mut h = DefaultHasher::new();
        h.write(&salt.to_le_bytes());
        h.write(&5i64.to_le_bytes());
        h.write(b"k");
        h.write(&[0xff]);
        assert_eq!(
            partition_hash_with_salt(&r, &[0, 1], 13, salt),
            (h.finish() as usize) % 13
        );
    }
    let mut h = DefaultHasher::new();
    h.write(&5i64.to_le_bytes());
    assert_eq!(compute_join_key_hash(&r, &[0]), h.finish());
}

#[test]
fn equal_keys_hash_alike() {
    let a = Row::new(vec![Data::Int32(1), text("x")]);
    let b = Row::new(vec![text("x"), Data::Int32(1)]);
    assert!(same_keys(&a, &[0, 1], &b, &[1, 0]));
    assert_eq!(compute_join_key_hash(&a, &[0, 1]), compute_join_key_hash(&b, &[1, 0]));
    let wide = Row::new(vec![Data::Int64(1)]);
    assert!(!same_keys(&a, &[0], &wide, &[0]));
    assert!(make_key(&a, &[0, 1]).estimate_heap_size() > make_key(&a, &[0]).estimate_heap_size());
}

#[test]
fn bloom_filters_have_no_false_negatives() {
    let mut big = BloomFilter::new();
    let mut small = PartitionKeyBloom::new();
    for i in 0..200u64 {
        let h = i.wrapping_mul(0x9e3779b97f4a7c15);
        big.insert(h);
        small.add_hash(h);
    }
    for i in 0..200u64 {
        let h = i.wrapping_mul(0x9e3779b97f4a7c15);
        assert!(big.may_contain(h));
        assert!(small.might_contain_hash(h));
    }
    assert!(!BloomFilter::new().may_contain(12345));
    assert!(!PartitionKeyBloom::new().might_contain_hash(12345));
}

#[test]
fn bitmaps_hold_exactly_their_values() {
    let mut b = ExactIntBitmap::new(-10, 100);
    for v in [-10i64, 0, 63, 64, 100] {
        b.add_value(v);
    }
    b.add_value(500);
    for v in -20..120i64 {
        assert_eq!(b.contains(v), [-10, 0, 63, 64, 100].contains(&v), "{v}");
    }
    assert_eq!(b.size_bytes(), 16);
    assert!(bitmap_contains(5, &[0b101], 7));
    assert!(!bitmap_contains(5, &[0b101], 6));
    assert!(!bitmap_contains(5, &[0b101], 4));
    assert!(!bitmap_contains(i64::MIN, &[1], i64::MAX));
}

#[test]
fn only_single_integer_keys_make_a_bitmap() {
    let r = Row::new(vec![Data::Int32(4), Data::Int64(9), text("x")]);
    assert_eq!(single_int_key_value(&r, &[0]), Some(4));
    assert_eq!(single_int_key_value(&r, &[1]), Some(9));
    assert_eq!(single_int_key_value(&r, &[2]), None);
    assert_eq!(single_int_key_value(&r, &[0, 1]), None);
    let mut c = ExactBitmapCandidate::default();
    assert!(!c.can_build_bitmap());
    c.observe_row(&r, &[0]);
    c.observe_row(&r, &[1]);
    assert!(c.can_build_bitmap());
    assert_eq!((c.min_value, c.max_value), (4, 9));
    c.observe_row(&r, &[2]);
    assert!(!c.can_build_bitmap());
    let mut far = ExactBitmapCandidate::default();
    far.observe_row(&Row::new(vec![Data::Int64(i64::MIN)]), &[0]);
    far.observe_row(&Row::new(vec![Data::Int64(i64::MAX)]), &[0]);
    assert!(!far.can_build_bitmap());
}

#[test]
fn runtime_filters_pass_members() {
    let f = RuntimeMembershipFilter::exact_int_bitmap(2, 10, vec![0b11]);
    assert_eq!(f.full_col_idx, 2);
    assert!(f.matches_data(&Data::Int32(11)));
    assert!(f.matches_data(&Data::Int64(10)));
    assert!(!f.matches_data(&Data::Int64(12)));
    assert!(!f.matches_data(&text("11")));
    let e = RuntimeMembershipFilter::bloom(0, vec![], 3).err();
    assert_eq!(e, Some(DbError::FilterWithoutWords));
    let e = RuntimeMembershipFilter::bloom(0, vec![1], 0).err();
    assert_eq!(e, Some(DbError::FilterWithoutHashes));
    let all = RuntimeMembershipFilter::bloom(0, vec![u64::MAX; 4], 3).unwrap();
    assert!(all.matches_data(&text("anything")));
    let none = RuntimeMembershipFilter::bloom(0, vec![0; 4], 3).unwrap();
    assert!(!none.matches_data(&Data::Int32(1)));
    assert_eq!(hash_data_value(&Data::Int32(7)), FNV_7);
}

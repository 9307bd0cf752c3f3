//! Behavioral tests for the filter, run against the real bit array and
//! hasher. Items of any type enter the filter as their bytes.

use bloom_filter::{BloomFilter, FilterError};

fn i32_bytes(x: i32) -> Vec<u8> {
    x.to_le_bytes().to_vec()
}

fn u64_bytes(x: u64) -> Vec<u8> {
    x.to_le_bytes().to_vec()
}

fn i32_slice_bytes(v: &[i32]) -> Vec<u8> {
    let mut out: Vec<u8> = Vec::new();
    for x in v {
        out.extend_from_slice(&x.to_le_bytes());
    }
    out
}

#[test]
fn test_insert_and_contains() {
    let mut bf = BloomFilter::new(100, 1, 100).unwrap();
    bf.insert("hello".as_bytes());
    bf.insert("world".as_bytes());

    assert!(bf.might_contain("hello".as_bytes()));
    assert!(bf.might_contain("world".as_bytes()));
    assert!(!bf.might_contain("not_present".as_bytes()));
}

#[test]
fn test_no_false_negatives() {
    let mut bf = BloomFilter::new(10_000, 1, 100).unwrap();

    for item in 0..10_000i32 {
        bf.insert(&i32_bytes(item));
    }

    for item in 0..10_000i32 {
        assert!(
            bf.might_contain(&i32_bytes(item)),
            "False negative for item: {}",
            item
        );
    }
}

#[test]
fn test_empty_filter() {
    let bf = BloomFilter::new(100, 1, 100).unwrap();

    // empty filter should return false for everything
    assert!(!bf.might_contain("anything".as_bytes()));
    assert!(!bf.might_contain(&i32_bytes(42)));
    assert!(!bf.might_contain(&i32_slice_bytes(&[1, 2, 3])));
}

#[test]
fn test_different_types() {
    let mut bf = BloomFilter::new(100, 1, 100).unwrap();

    bf.insert("string".as_bytes());
    bf.insert(&i32_bytes(42));
    bf.insert(&u64_bytes(100));
    bf.insert(&i32_slice_bytes(&[1, 2, 3]));

    assert!(bf.might_contain("string".as_bytes()));
    assert!(bf.might_contain(&i32_bytes(42)));
    assert!(bf.might_contain(&u64_bytes(100)));
    assert!(bf.might_contain(&i32_slice_bytes(&[1, 2, 3])));

    assert!(!bf.might_contain("different_string".as_bytes()));
    assert!(!bf.might_contain(&i32_bytes(99)));
}

#[test]
fn test_duplicate_inserts() {
    let mut bf = BloomFilter::new(100, 1, 100).unwrap();
    let item = "test_item";

    // inserting same item multiple times should be fine
    bf.insert(item.as_bytes());
    bf.insert(item.as_bytes());
    bf.insert(item.as_bytes());
    assert!(bf.might_contain(item.as_bytes()));
}

#[test]
fn test_large_capacity() {
    let capacity = 10_000;
    let mut bf = BloomFilter::new(capacity, 1, 100).unwrap();

    for i in (0..capacity as u64).step_by(100) {
        bf.insert(&u64_bytes(i));
    }

    for i in (0..capacity as u64).step_by(100) {
        assert!(bf.might_contain(&u64_bytes(i)));
    }
}

#[test]
fn test_false_positive_rate() {
    let cap = 100u64;
    let mut bf = BloomFilter::new(cap as usize, 1, 10).unwrap();
    for i in 0..cap {
        bf.insert(&u64_bytes(i));
    }

    // test 100k items that are not in bloom filter to see false positives
    let false_positives = (cap..cap + 100_000)
        .filter(|i| bf.might_contain(&u64_bytes(*i)))
        .count();

    // should have roughly 10% false positives with this configuration
    assert!(false_positives > 7500, "false positives: {}", false_positives);
    assert!(false_positives < 12500, "false positives: {}", false_positives);
}

#[test]
fn test_very_low_false_positive_rate() {
    let mut bf = BloomFilter::new(100_000, 1, 10_000).unwrap();

    for i in 0..100_000u64 {
        bf.insert(&u64_bytes(i));
    }

    // test 100k items that are not in bloom filter to see false positives
    let false_positives = (100_000u64..200_000)
        .filter(|i| bf.might_contain(&u64_bytes(*i)))
        .count();

    // with a 0.01% false-positive rate, expect roughly 10 in 100k tests
    assert!(false_positives < 20, "false positives: {}", false_positives);
}

#[test]
fn test_zero_capacity_rejected() {
    assert!(matches!(
        BloomFilter::new(0, 1, 100),
        Err(FilterError::InvalidArgument)
    ));
}

#[test]
fn test_false_positive_rate_ge_one_rejected() {
    // a rate of exactly one (100 / 100)
    assert!(matches!(
        BloomFilter::new(100, 100, 100),
        Err(FilterError::InvalidArgument)
    ));
}

#[test]
fn test_false_positive_rate_gt_one_rejected() {
    // a rate of three halves
    assert!(matches!(
        BloomFilter::new(100, 3, 2),
        Err(FilterError::InvalidArgument)
    ));
}

#[test]
fn test_zero_rate_rejected() {
    assert!(matches!(
        BloomFilter::new(100, 0, 100),
        Err(FilterError::InvalidArgument)
    ));
    assert!(matches!(
        BloomFilter::new(100, 1, 0),
        Err(FilterError::InvalidArgument)
    ));
}

#[test]
fn test_sizing_formula() {
    // ceil(-(100 * ln(0.01)) / ln(2)^2) = 959 and ceil(959 / 100 * ln(2)) = 7
    let bf = BloomFilter::new(100, 1, 100).unwrap();
    assert_eq!(bf.bit_count(), 959);
    assert_eq!(bf.hash_count(), 7);
}

#[test]
fn test_sizing_floors_at_one() {
    // a capacity of one and a rate barely below one still give at least
    // one bit and one hash
    let bf = BloomFilter::new(5, 99, 100).unwrap();
    assert_eq!(bf.bit_count(), 1);
    assert_eq!(bf.hash_count(), 1);

    let bf2 = BloomFilter::new(1, 1, 2).unwrap();
    assert_eq!(bf2.bit_count(), 2);
    assert_eq!(bf2.hash_count(), 2);
}

#[test]
fn test_determinism() {
    let mut a = BloomFilter::new(100, 1, 100).unwrap();
    let mut b = BloomFilter::new(100, 1, 100).unwrap();

    assert_eq!(a.bit_count(), b.bit_count());
    assert_eq!(a.hash_count(), b.hash_count());

    for i in 0..50u64 {
        a.insert(&u64_bytes(i));
        b.insert(&u64_bytes(i));
    }

    for i in 0..2_000u64 {
        assert_eq!(
            a.might_contain(&u64_bytes(i)),
            b.might_contain(&u64_bytes(i)),
            "filters disagree on {}",
            i
        );
    }
}

#[test]
fn test_idempotent_insert() {
    let mut once = BloomFilter::new(100, 1, 100).unwrap();
    let mut thrice = BloomFilter::new(100, 1, 100).unwrap();

    once.insert("repeated".as_bytes());
    thrice.insert("repeated".as_bytes());
    thrice.insert("repeated".as_bytes());
    thrice.insert("repeated".as_bytes());

    assert_eq!(once.bit_count(), thrice.bit_count());
    for i in 0..2_000u64 {
        assert_eq!(
            once.might_contain(&u64_bytes(i)),
            thrice.might_contain(&u64_bytes(i)),
            "filters disagree on {}",
            i
        );
    }
    assert!(thrice.might_contain("repeated".as_bytes()));
}

#[test]
fn test_membership_survives_later_inserts() {
    let mut bf = BloomFilter::new(1_000, 1, 100).unwrap();
    bf.insert("first".as_bytes());
    assert!(bf.might_contain("first".as_bytes()));

    for i in 0..1_000u64 {
        bf.insert(&u64_bytes(i));
        assert!(bf.might_contain("first".as_bytes()));
    }
}

#[test]
fn test_capacity_and_hash_count_accessors() {
    let bf = BloomFilter::new(250, 1, 50).unwrap();
    assert_eq!(bf.capacity, 250);
    assert_eq!(bf.hash_count(), bf.num_hashes);
    assert!(bf.num_hashes >= 1);
    assert!(bf.bit_count() >= 1);
}

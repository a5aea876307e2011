use systems::bloom_filter::{BloomFilter, ProbabilisticSet};

#[test]
fn test_basic_inserts_and_contains() {
    let mut filter = BloomFilter::<str>::new(100, 3);

    assert!(!filter.contains("apple"));
    assert!(!filter.contains("banana"));

    filter.insert("apple");
    filter.insert("banana");

    assert!(filter.contains("apple"));
    assert!(filter.contains("banana"));
    assert!(!filter.contains("orange"));
}

#[test]
fn test_clear() {
    let mut filter = BloomFilter::<str>::new(100, 3);
    filter.insert("hello");
    assert!(filter.contains("hello"));

    filter.clear();
    assert!(!filter.contains("hello"));
}

#[test]
fn test_double_hashing_probes() {
    let mut filter = BloomFilter::<u32>::new(64, 3);
    let h: u64 = (5u64 << 32) | 7;
    filter.insert_hash(h);
    assert!(filter.contains_hash(h));
    // probes 7, 12 and 17 are set; 7 + 0 * 1 = 7 is set, but 8 is not
    let other: u64 = (1u64 << 32) | 8;
    assert!(!filter.contains_hash(other));
    let same_first: u64 = (5u64 << 32) | 7;
    assert!(filter.contains_hash(same_first));
}

#[test]
fn test_many_items_have_no_false_negatives() {
    let mut filter = BloomFilter::<u64>::new(1000, 4);
    for i in 0..200u64 {
        filter.insert(&i);
    }
    for i in 0..200u64 {
        assert!(filter.contains(&i));
    }
}

use std::collections::hash_map::DefaultHasher;
use std::hash::{Hash, Hasher};
use systems::concurrent_cache::ConcurrentLruCache;

#[test]
fn test_concurrent_basic() {
    let mut cache = ConcurrentLruCache::new(10, 4);
    let (a, b, c) = (b'a' as u64, b'b' as u64, b'c' as u64);
    cache.put(a, 1);
    cache.put(b, 2);
    assert_eq!(cache.get(&a), Some(1));
    assert_eq!(cache.get(&b), Some(2));
    assert_eq!(cache.get(&c), None);
}

#[test]
fn test_eviction_per_shard() {
    let mut cache = ConcurrentLruCache::new(2, 2);
    for i in 0..100u64 {
        cache.put(i, i);
    }
    let mut count = 0;
    for i in 0..100u64 {
        if cache.get(&i).is_some() {
            count += 1;
        }
    }
    assert!(count <= 2);
}

#[test]
fn concurrent_cache_same_key_same_shard() {
    let cache: ConcurrentLruCache<u32> = ConcurrentLruCache::new(10, 4);
    for k in 0..50u64 {
        let i = cache.shard_index(&k);
        assert!(i < 4);
        assert_eq!(cache.shard_index(&k), i);
    }
}

#[test]
fn concurrent_cache_shard_operations() {
    // 5 entries over 2 shards: 3 per shard.
    let mut cache = ConcurrentLruCache::new(5, 2);
    for k in 1..=3u64 {
        cache.put_in(0, k, k * 10);
    }
    assert_eq!(cache.get_in(0, &1), Some(10));
    // Shard 0 is full; 2 is now the least recently used and leaves.
    cache.put_in(0, 4, 40);
    assert_eq!(cache.get_in(0, &2), None);
    assert_eq!(cache.get_in(0, &3), Some(30));
    assert_eq!(cache.get_in(0, &4), Some(40));
    // The other shard is untouched.
    assert_eq!(cache.get_in(1, &1), None);
    // Overwriting keeps one entry.
    cache.put_in(1, 7, 1);
    cache.put_in(1, 7, 2);
    assert_eq!(cache.get_in(1, &7), Some(2));
}

#[test]
fn concurrent_cache_shard_is_the_keys_default_hash() {
    let cache: ConcurrentLruCache<u32> = ConcurrentLruCache::new(64, 7);
    for key in [0u64, 1, 42, 1 << 40, u64::MAX] {
        let mut h = DefaultHasher::new();
        key.hash(&mut h);
        // `u64::hash` writes the key's native-endian bytes; this holds on little-endian targets.
        assert_eq!(cache.shard_index(&key) as u64, h.finish() % 7);
        assert_eq!(cache.shard_index(&key), cache.shard_index(&key));
    }
}

#[test]
fn concurrent_cache_reads_back_every_write() {
    let mut cache: ConcurrentLruCache<u64> = ConcurrentLruCache::new(400, 8);
    for k in 0..100u64 {
        cache.put(k, k * 3);
    }
    for k in 0..100u64 {
        assert_eq!(cache.get(&k), Some(k * 3));
    }
}

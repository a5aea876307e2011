use systems::lfu_cache::LFUCache;

#[test]
fn test_lfu_basic_put_get() {
    let mut cache = LFUCache::new(2);
    cache.put(1, 10);
    cache.put(2, 20);
    assert_eq!(cache.get(&1), Some(&10));
    assert_eq!(cache.get(&2), Some(&20));
}

#[test]
fn test_lfu_eviction() {
    let mut cache = LFUCache::new(2);
    cache.put(1, 10);
    cache.put(2, 20);
    assert_eq!(cache.get(&1), Some(&10));
    cache.put(3, 30);
    assert_eq!(cache.get(&1), Some(&10));
    assert_eq!(cache.get(&2), None);
    assert_eq!(cache.get(&3), Some(&30));
}

#[test]
fn test_lfu_tie_breaking_lru() {
    let mut cache = LFUCache::new(3);
    cache.put(1, 10);
    cache.put(2, 20);
    cache.put(3, 30);
    cache.get(&1);
    cache.get(&2);
    cache.put(4, 40);
    assert_eq!(cache.get(&3), None);
    assert_eq!(cache.get(&1), Some(&10));
    assert_eq!(cache.get(&2), Some(&20));
    assert_eq!(cache.get(&4), Some(&40));
    cache.get(&4);
    cache.put(5, 50);
    assert_eq!(cache.get(&1), None);
    assert_eq!(cache.get(&2), Some(&20));
    assert_eq!(cache.get(&4), Some(&40));
    assert_eq!(cache.get(&5), Some(&50));
}

#[test]
fn test_lfu_update_value() {
    let mut cache = LFUCache::new(2);
    cache.put(1, 10);
    cache.put(1, 11);
    assert_eq!(cache.get(&1), Some(&11));
    cache.put(2, 20);
    cache.put(3, 30);
    assert_eq!(cache.get(&1), Some(&11));
    assert_eq!(cache.get(&2), None);
    assert_eq!(cache.get(&3), Some(&30));
}

#[test]
fn lfu_len_tracks_entries() {
    let mut cache = LFUCache::new(2);
    assert!(cache.is_empty());
    cache.put(1, 1);
    cache.put(2, 2);
    cache.put(3, 3);
    assert_eq!(cache.len(), 2);
}

use systems::lru_cache::LRUCache;

#[test]
fn test_lru_cache_happy_path() {
    let mut cache = LRUCache::new(2);
    cache.put(1, 10);
    cache.put(2, 20);
    assert_eq!(cache.get(&1), Some(&10));
    assert_eq!(cache.get(&2), Some(&20));
    cache.put(3, 30);
    assert_eq!(cache.get(&1), None);
    assert_eq!(cache.get(&2), Some(&20));
    assert_eq!(cache.get(&3), Some(&30));
}

#[test]
fn test_lru_cache_update_moves_to_head() {
    let mut cache = LRUCache::new(2);
    cache.put(1, 10);
    cache.put(2, 20);
    cache.get(&1);
    cache.put(3, 30);
    assert_eq!(cache.get(&1), Some(&10));
    assert_eq!(cache.get(&2), None);
    assert_eq!(cache.get(&3), Some(&30));
}

#[test]
fn test_lru_cache_put_update_moves_to_head() {
    let mut cache = LRUCache::new(2);
    cache.put(1, 10);
    cache.put(2, 20);
    cache.put(1, 100);
    cache.put(3, 30);
    assert_eq!(cache.get(&1), Some(&100));
    assert_eq!(cache.get(&2), None);
    assert_eq!(cache.get(&3), Some(&30));
}

#[test]
fn test_lru_cache_capacity_1() {
    let mut cache = LRUCache::new(1);
    cache.put(1, 10);
    assert_eq!(cache.get(&1), Some(&10));
    cache.put(2, 20);
    assert_eq!(cache.get(&1), None);
    assert_eq!(cache.get(&2), Some(&20));
}

#[test]
fn test_lru_complex_sequence() {
    let mut cache = LRUCache::new(3);
    cache.put(1, 1);
    cache.put(2, 2);
    cache.put(3, 3);
    cache.put(4, 4);
    assert_eq!(cache.get(&1), None);
    assert_eq!(cache.get(&2), Some(&2));
    assert_eq!(cache.get(&3), Some(&3));
    assert_eq!(cache.get(&4), Some(&4));
    cache.get(&2);
    cache.put(5, 5);
    assert_eq!(cache.get(&3), None);
    assert_eq!(cache.get(&2), Some(&2));
    assert_eq!(cache.get(&4), Some(&4));
    assert_eq!(cache.get(&5), Some(&5));
}

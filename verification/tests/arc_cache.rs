use std::time::Instant;
use systems::arc_cache::{ARCCache, Cache};

#[test]
fn test_arc_basic_put_get() {
    let mut cache = ARCCache::new(2);
    cache.put(1, 10);
    cache.put(2, 20);
    assert_eq!(cache.get(&1), Some(&10));
    assert_eq!(cache.get(&2), Some(&20));
}

#[test]
fn test_arc_lru_behavior_initially() {
    let mut cache = ARCCache::new(2);
    cache.put(1, 10);
    cache.put(2, 20);
    cache.put(3, 30);
    assert_eq!(cache.get(&1), None);
    assert_eq!(cache.get(&2), Some(&20));
    assert_eq!(cache.get(&3), Some(&30));
}

#[test]
fn test_arc_adaptation_to_frequency() {
    let mut cache = ARCCache::new(2);
    cache.put(1, 10);
    cache.put(2, 20);
    cache.get(&1);
    cache.put(1, 10);
    cache.put(3, 30);
    cache.put(2, 25);
    assert_eq!(cache.get(&2), Some(&25));
    assert_eq!(cache.get(&1), None);
    assert_eq!(cache.get(&3), Some(&30));
    cache.put(1, 15);
    assert_eq!(cache.get(&1), Some(&15));
    assert_eq!(cache.get(&2), None);
    assert_eq!(cache.get(&3), Some(&30));
}

#[test]
fn test_arc_scan_resistance() {
    let mut cache = ARCCache::new(2);
    cache.put(1, 10);
    cache.get(&1);
    cache.put(2, 20);
    cache.put(3, 30);
    cache.put(4, 40);
    assert_eq!(cache.get(&1), Some(&10));
    assert_eq!(cache.get(&4), Some(&40));
}

#[test]
fn test_arc_capacity_limits() {
    let mut cache = ARCCache::new(2);
    cache.put(1, 1);
    cache.put(2, 2);
    cache.put(3, 3);
    cache.put(4, 4);
    cache.put(5, 5);
    let mut live_count = 0;
    if cache.get(&1).is_some() {
        live_count += 1;
    }
    if cache.get(&2).is_some() {
        live_count += 1;
    }
    if cache.get(&3).is_some() {
        live_count += 1;
    }
    if cache.get(&4).is_some() {
        live_count += 1;
    }
    if cache.get(&5).is_some() {
        live_count += 1;
    }
    assert!(live_count <= 2);
}

#[test]
fn test_arc_benchmark_proxy() {
    let mut cache = ARCCache::new(1000);
    let start = Instant::now();
    for i in 0..10_000 {
        cache.put(i, i);
    }
    let duration = start.elapsed();
    println!("Inserted 10k items in {:?}", duration);
    assert!(duration.as_secs() < 1);
}

#[test]
fn arc_trait_calls_match_inherent_ones() {
    let mut cache = ARCCache::new(1);
    Cache::put(&mut cache, 7, "seven");
    assert_eq!(Cache::get(&mut cache, &7), Some(&"seven"));
    Cache::put(&mut cache, 8, "eight");
    assert_eq!(Cache::get(&mut cache, &7), None);
    assert_eq!(Cache::get(&mut cache, &8), Some(&"eight"));
}

use std::collections::HashMap;
use std::sync::{Arc, Mutex};
use systems::rate_limiter::{DistributedRateLimiter, RateLimiter, Storage};

pub struct InMemoryStorage {
    map: Mutex<HashMap<String, usize>>,
}

impl InMemoryStorage {
    pub fn new() -> Self {
        Self { map: Mutex::new(HashMap::new()) }
    }
}

impl Storage for InMemoryStorage {
    fn incr_and_expire(&self, key: &str, value: usize, _window_secs: u64) -> usize {
        let mut map = self.map.lock().unwrap();
        let entry = map.entry(key.to_string()).or_insert(0);
        *entry += value;
        *entry
    }
}

#[test]
fn test_distributed_mock() {
    let storage = Arc::new(InMemoryStorage::new());
    let limiter = DistributedRateLimiter::new(storage.clone(), "api_v1".to_string(), 5, 1);

    for _ in 0..5 {
        assert!(limiter.try_acquire(1));
    }
    assert!(!limiter.try_acquire(1));
}

#[test]
fn test_window_key_and_admission() {
    let storage = Arc::new(InMemoryStorage::new());
    let limiter = DistributedRateLimiter::new(storage, "api".to_string(), 2, 60);
    assert_eq!(limiter.key_for(125), "api:2");
    assert_eq!(limiter.key_for(59), "api:0");
    assert!(limiter.admits(2));
    assert!(!limiter.admits(3));
}

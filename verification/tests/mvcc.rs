use systems::mvcc::MvccStore;

#[test]
fn test_read_your_own_writes() {
    let mut store = MvccStore::new();
    let mut tx = store.begin();
    tx.set("key".to_string(), "value");
    assert_eq!(tx.get(&store, "key"), Some("value"));
    tx.commit(&mut store).unwrap();
}

#[test]
fn test_snapshot_isolation() {
    let mut store = MvccStore::new();
    let mut tx1 = store.begin();
    tx1.set("key".to_string(), "v1");
    tx1.commit(&mut store).unwrap();

    let tx2 = store.begin();
    assert_eq!(tx2.get(&store, "key"), Some("v1"));

    let mut tx3 = store.begin();
    tx3.set("key".to_string(), "v2");
    tx3.commit(&mut store).unwrap();

    assert_eq!(tx2.get(&store, "key"), Some("v1"));

    let tx4 = store.begin();
    assert_eq!(tx4.get(&store, "key"), Some("v2"));
}

#[test]
fn test_write_write_conflict() {
    let mut store = MvccStore::new();
    let mut tx1 = store.begin();
    let mut tx2 = store.begin();

    tx1.set("key".to_string(), "v1");
    assert!(tx1.commit(&mut store).is_ok());

    tx2.set("key".to_string(), "v2");
    let result = tx2.commit(&mut store);
    assert!(result.is_err());
    assert_eq!(result.unwrap_err(), "Write-Write Conflict detected. Transaction aborted.");
}

#[test]
fn test_no_conflict_different_keys() {
    let mut store = MvccStore::new();
    let mut tx1 = store.begin();
    let mut tx2 = store.begin();

    tx1.set("key1".to_string(), "v1");
    tx2.set("key2".to_string(), "v2");

    assert!(tx1.commit(&mut store).is_ok());
    assert!(tx2.commit(&mut store).is_ok());

    let tx3 = store.begin();
    assert_eq!(tx3.get(&store, "key1"), Some("v1"));
    assert_eq!(tx3.get(&store, "key2"), Some("v2"));
}

#[test]
fn test_raii_rollback() {
    let mut store = MvccStore::new();
    let first;
    {
        let mut tx = store.begin();
        first = tx.tx_id();
        tx.set("key".to_string(), "v1");
        tx.rollback(&mut store);
    }
    let tx_check = store.begin();
    assert_eq!(tx_check.get(&store, "key"), None);
    assert!(store.is_active(tx_check.tx_id()));
    assert!(!store.is_active(first));
}

#[test]
fn test_dirty_read_prevention() {
    let mut store: MvccStore<&str> = MvccStore::new();
    let mut tx1 = store.begin();
    tx1.set("key".to_string(), "dirty_value");
    let tx2 = store.begin();
    assert_eq!(tx2.get(&store, "key"), None);
}

#[test]
fn mvcc_running_writer_is_invisible_after_commit() {
    // tx2 begins while tx1 runs; tx1's later commit stays invisible to tx2.
    let mut store = MvccStore::new();
    let mut tx1 = store.begin();
    let tx2 = store.begin();
    tx1.set("k".to_string(), 1);
    tx1.commit(&mut store).unwrap();
    assert_eq!(tx2.get(&store, "k"), None);
    let tx3 = store.begin();
    assert_eq!(tx3.get(&store, "k"), Some(1));
}

#[test]
fn mvcc_overwrite_in_buffer_and_versions() {
    let mut store = MvccStore::new();
    let mut tx = store.begin();
    tx.set("a".to_string(), 1);
    tx.set("a".to_string(), 2);
    assert_eq!(tx.get(&store, "a"), Some(2));
    tx.commit(&mut store).unwrap();
    let mut t2 = store.begin();
    t2.set("a".to_string(), 3);
    t2.commit(&mut store).unwrap();
    let t3 = store.begin();
    assert_eq!(t3.get(&store, "a"), Some(3));
    // A failed commit still ends the transaction.
    let mut late = store.begin();
    let mut early_writer = store.begin();
    early_writer.set("b".to_string(), 9);
    let id = late.tx_id();
    late.set("b".to_string(), 8);
    early_writer.commit(&mut store).unwrap();
    assert!(late.commit(&mut store).is_err());
    assert!(!store.is_active(id));
}

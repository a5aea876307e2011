use systems::lsm_tree::{
    encode_table, parse_table_id, search_table, table_load_order, Entry, LsmTree, MemTable, TableError,
};

fn put(db: &mut LsmTree, k: &[u8], v: &[u8]) -> Option<Vec<u8>> {
    db.put(k.to_vec(), v.to_vec())
}

#[test]
fn test_memtable_basic() {
    let mut db = LsmTree::new(1024);
    assert_eq!(put(&mut db, b"k1", b"v1"), None);
    assert_eq!(put(&mut db, b"k2", b"v2"), None);
    assert_eq!(db.get(b"k1"), Ok(Some(b"v1".to_vec())));
    assert_eq!(db.get(b"k2"), Ok(Some(b"v2".to_vec())));
    assert_eq!(db.get(b"k3"), Ok(None));
    assert_eq!(db.delete(b"k1".to_vec()), None);
    assert_eq!(db.get(b"k1"), Ok(None));
}

#[test]
fn test_flush_and_sstable_read() {
    let mut db = LsmTree::new(0);
    assert!(put(&mut db, b"disk_k1", b"disk_v1").is_some());
    assert!(put(&mut db, b"disk_k2", b"disk_v2").is_some());
    assert!(db.memtable_is_empty(), "MemTable should be empty after flush");
    assert_eq!(db.table_count(), 2, "Should have 2 SSTables");
    assert_eq!(db.get(b"disk_k1"), Ok(Some(b"disk_v1".to_vec())));
    assert_eq!(db.get(b"disk_k2"), Ok(Some(b"disk_v2".to_vec())));
}

#[test]
fn test_overwrite_and_tombstone_masking() {
    let mut db = LsmTree::new(1024);
    put(&mut db, b"key", b"val1");
    assert!(db.force_flush().is_some());
    assert_eq!(db.get(b"key"), Ok(Some(b"val1".to_vec())));
    put(&mut db, b"key", b"val2");
    db.force_flush();
    assert_eq!(db.get(b"key"), Ok(Some(b"val2".to_vec())));
    db.delete(b"key".to_vec());
    db.force_flush();
    assert_eq!(db.get(b"key"), Ok(None));
    assert_eq!(db.table_count(), 3);
}

#[test]
fn lsm_tree_test_recovery() {
    let mut db = LsmTree::new(1024);
    put(&mut db, b"persist", b"data");
    let table = db.force_flush().unwrap();
    let reopened = LsmTree::with_tables(1024, vec![table]);
    assert_eq!(reopened.get(b"persist"), Ok(Some(b"data".to_vec())));
}

#[test]
fn lsm_flush_of_empty_memtable_is_nothing() {
    let mut db = LsmTree::new(1024);
    assert_eq!(db.force_flush(), None);
    assert_eq!(db.table_count(), 0);
}

#[test]
fn lsm_size_estimate_and_threshold() {
    let mut db = LsmTree::new(10);
    assert_eq!(put(&mut db, b"k1", b"v1"), None);
    assert_eq!(db.estimated_size(), 4);
    // Overwrite: the estimate changes by the difference of the values.
    assert_eq!(put(&mut db, b"k1", b"value"), None);
    assert_eq!(db.estimated_size(), 7);
    // A tombstone counts its key only.
    assert_eq!(db.delete(b"k1".to_vec()), None);
    assert_eq!(db.estimated_size(), 2);
    // Reaching the threshold flushes.
    let t = put(&mut db, b"abcd", b"efgh").unwrap();
    assert!(db.memtable_is_empty());
    assert_eq!(db.estimated_size(), 0);
    assert_eq!(db.table_count(), 1);
    assert_eq!(search_table(&t, b"k1"), Ok(Some(Entry::Tombstone)));
    assert_eq!(search_table(&t, b"abcd"), Ok(Some(Entry::Data(b"efgh".to_vec()))));
}

#[test]
fn lsm_table_bytes_are_exact() {
    let mut m = MemTable::new();
    m.put(b"b".to_vec(), Entry::Tombstone);
    m.put(b"a".to_vec(), Entry::Data(b"xy".to_vec()));
    let t = encode_table(&m);
    assert_eq!(
        t,
        vec![1, 0, 0, 0, 2, 0, 0, 0, b'a', b'x', b'y', 1, 0, 0, 0, 0xff, 0xff, 0xff, 0xff, b'b']
    );
    assert_eq!(search_table(&t, b"a"), Ok(Some(Entry::Data(b"xy".to_vec()))));
    assert_eq!(search_table(&t, b"b"), Ok(Some(Entry::Tombstone)));
    assert_eq!(search_table(&t, b"c"), Ok(None));
}

#[test]
fn lsm_search_of_damaged_tables() {
    // Fewer than four bytes where a record would start: nothing found.
    assert_eq!(search_table(&[1, 0], b"a"), Ok(None));
    assert_eq!(search_table(&[], b"a"), Ok(None));
    // The lengths are cut off.
    assert_eq!(search_table(&[1, 0, 0, 0, 2], b"a"), Err(TableError::Truncated));
    // The key is cut off.
    assert_eq!(search_table(&[3, 0, 0, 0, 0, 0, 0, 0, b'a'], b"a"), Err(TableError::Truncated));
    // The value sought is cut off.
    assert_eq!(search_table(&[1, 0, 0, 0, 5, 0, 0, 0, b'a', b'x'], b"a"), Err(TableError::Truncated));
    // A value of another key that runs past the end ends the search.
    assert_eq!(search_table(&[1, 0, 0, 0, 5, 0, 0, 0, b'z', b'x'], b"a"), Ok(None));
}

#[test]
fn lsm_memtable_get_and_clear() {
    let mut m = MemTable::new();
    assert!(m.is_empty());
    m.put(b"k".to_vec(), Entry::Data(b"v".to_vec()));
    assert_eq!(m.get(b"k"), Some(Entry::Data(b"v".to_vec())));
    assert_eq!(m.get(b"j"), None);
    assert_eq!(m.estimated_size(), 2);
    m.clear();
    assert!(m.is_empty());
    assert_eq!(m.estimated_size(), 0);
    assert_eq!(m.get(b"k"), None);
}

#[test]
fn lsm_newer_table_shadows_older() {
    let mut old = MemTable::new();
    old.put(b"k".to_vec(), Entry::Data(b"old".to_vec()));
    old.put(b"other".to_vec(), Entry::Data(b"o".to_vec()));
    let mut new = MemTable::new();
    new.put(b"k".to_vec(), Entry::Tombstone);
    let db = LsmTree::with_tables(1024, vec![encode_table(&new), encode_table(&old)]);
    assert_eq!(db.get(b"k"), Ok(None));
    assert_eq!(db.get(b"other"), Ok(Some(b"o".to_vec())));
    let broken = LsmTree::with_tables(1024, vec![vec![9, 0, 0, 0, 1], encode_table(&old)]);
    assert_eq!(broken.get(b"other"), Err(TableError::Truncated));
}

#[test]
fn table_ids_parse_like_usize() {
    assert_eq!(parse_table_id("42"), Some(42));
    assert_eq!(parse_table_id("+7"), Some(7));
    assert_eq!(parse_table_id("007"), Some(7));
    assert_eq!(parse_table_id(""), None);
    assert_eq!(parse_table_id("+"), None);
    assert_eq!(parse_table_id("-1"), None);
    assert_eq!(parse_table_id("12a"), None);
    assert_eq!(parse_table_id("compacted_5"), None);
    assert_eq!(parse_table_id("99999999999999999999999"), None);
    assert_eq!(parse_table_id(&usize::MAX.to_string()), Some(usize::MAX));
}

#[test]
fn table_load_order_is_newest_first_and_skips_other_names() {
    let stems: Vec<String> = ["3", "notes", "10", "1", "7", "x9"].iter().map(|s| s.to_string()).collect();
    assert_eq!(table_load_order(&stems), vec![(10, 2), (7, 4), (3, 0), (1, 3)]);
    let ties: Vec<String> = ["5", "05", "2"].iter().map(|s| s.to_string()).collect();
    assert_eq!(table_load_order(&ties), vec![(5, 0), (5, 1), (2, 2)]);
    assert!(table_load_order(&Vec::new()).is_empty());
}

use systems::log_structured_storage::{
    compact, compare_str, decode_wal_entry, encode_wal_entry, replay, scan_lines, table_load_order,
    table_timestamp, Memtable,
};

#[test]
fn lss_wal_record_round_trip() {
    let e = encode_wal_entry("key1", "välue");
    assert_eq!(&e[0..8], &4u64.to_le_bytes());
    assert_eq!(decode_wal_entry(&e), Some(("key1".to_string(), "välue".to_string())));
    assert_eq!(decode_wal_entry(&[1, 2, 3]), None);
    let mut short = 10u64.to_le_bytes().to_vec();
    short.extend_from_slice(b"abc");
    assert_eq!(decode_wal_entry(&short), None);
    let mut bad = 1u64.to_le_bytes().to_vec();
    bad.extend_from_slice(&[0xff, b'x']);
    assert_eq!(decode_wal_entry(&bad), Some(("\u{FFFD}".to_string(), "x".to_string())));
}

#[test]
fn lss_replay_rebuilds_memtable() {
    let entries = vec![
        encode_wal_entry("a", "1"),
        vec![0u8, 1],
        encode_wal_entry("b", "22"),
        encode_wal_entry("a", "333"),
    ];
    let m = replay(&entries).unwrap();
    assert_eq!(m.get("a"), Some("333".to_string()));
    assert_eq!(m.get("b"), Some("22".to_string()));
    assert_eq!(m.get("c"), None);
    // a + 333 and b + 22.
    assert_eq!(m.byte_size(), 4 + 3);
}

#[test]
fn lss_flush_decision() {
    // Threshold 5: the first write goes in although it is larger; the second forces a flush.
    let mut m = Memtable::new();
    assert!(!m.needs_flush("key1", "val1", 5));
    m.put("key1".to_string(), "val1".to_string());
    assert_eq!(m.byte_size(), 8);
    assert!(m.needs_flush("key2", "val2", 5));
    assert!(!m.needs_flush("key2", "val2", 1000));
}

#[test]
fn lss_sstable_text_and_scan() {
    let mut m = Memtable::new();
    m.put("b".to_string(), "2".to_string());
    m.put("a".to_string(), "1".to_string());
    m.put("c".to_string(), "3".to_string());
    m.put("b".to_string(), "two".to_string());
    let text = m.sstable_text();
    assert_eq!(text, "a,1\nb,two\nc,3\n");
    let lines: Vec<String> = text.lines().map(|l| l.to_string()).collect();
    assert_eq!(scan_lines(&lines, "b"), Some("two".to_string()));
    assert_eq!(scan_lines(&lines, "bb"), None);
    assert_eq!(scan_lines(&lines, "z"), None);
    m.clear();
    assert!(m.is_empty());
    assert_eq!(m.byte_size(), 0);
}

#[test]
fn lss_compaction_newest_wins() {
    let old = vec!["a,1".to_string(), "b,1".to_string()];
    let new = vec!["a,2".to_string(), "no comma".to_string(), "c,3,x".to_string()];
    let merged = compact(&vec![old, new]);
    assert_eq!(merged.get("a"), Some("2".to_string()));
    assert_eq!(merged.get("b"), Some("1".to_string()));
    assert_eq!(merged.get("c"), Some("3,x".to_string()));
    assert_eq!(merged.len(), 3);
    assert_eq!(merged.text(), "a,2\nb,1\nc,3,x\n");
}

#[test]
fn lss_compare_is_char_order() {
    assert_eq!(compare_str("a", "b"), -1);
    assert_eq!(compare_str("ab", "a"), 1);
    assert_eq!(compare_str("", ""), 0);
    assert_eq!(compare_str("é", "z"), 1);
}

#[test]
fn table_timestamps_read_the_number_in_the_name() {
    assert_eq!(table_timestamp("1700000000123"), 1_700_000_000_123);
    assert_eq!(table_timestamp("compacted_1700000000999"), 1_700_000_000_999);
    assert_eq!(table_timestamp("+12"), 12);
    assert_eq!(table_timestamp("compacted_"), 0);
    assert_eq!(table_timestamp("compactedX5"), 0);
    assert_eq!(table_timestamp("notes"), 0);
    assert_eq!(table_timestamp(""), 0);
    assert_eq!(table_timestamp(&u128::MAX.to_string()), u128::MAX);
    assert_eq!(table_timestamp("340282366920938463463374607431768211456"), 0);
}

#[test]
fn table_load_order_is_oldest_first_and_stable() {
    let stems: Vec<String> = ["30", "compacted_10", "junk", "20", "10"].iter().map(|s| s.to_string()).collect();
    // Timestamps: 30, 10, 0, 20, 10.
    assert_eq!(table_load_order(&stems), vec![2, 1, 4, 3, 0]);
    assert!(table_load_order(&Vec::new()).is_empty());
}

use systems::bitcask::{decode_header, encode_header, Bitcask, BitcaskError, EntryHeader, EntryLocation, HEADER_SIZE};

/// A store over an in-memory log: writes append to the log, reads take the bytes the index
/// points at.
struct Store {
    log: Vec<u8>,
    index: Bitcask,
}

impl Store {
    fn open(log: Vec<u8>) -> Store {
        let index = Bitcask::open(&log).unwrap();
        Store { log, index }
    }
    fn put(&mut self, k: &[u8], v: &[u8]) {
        let rec = self.index.put(k.to_vec(), v, 7);
        self.log.extend_from_slice(&rec);
    }
    fn delete(&mut self, k: &[u8]) {
        let rec = self.index.delete(k.to_vec(), 8);
        self.log.extend_from_slice(&rec);
    }
    fn get(&self, k: &[u8]) -> Option<Vec<u8>> {
        self.index.get(k).map(|loc| {
            let p = loc.value_pos as usize;
            self.log[p..p + loc.value_sz as usize].to_vec()
        })
    }
}

#[test]
fn test_basic_put_get() {
    let mut store = Store::open(Vec::new());
    store.put(b"hello", b"world");
    assert_eq!(store.get(b"hello"), Some(b"world".to_vec()));
}

#[test]
fn test_empty_value_vs_delete() {
    let mut store = Store::open(Vec::new());
    store.put(b"empty", b"");
    store.put(b"deleted", b"val");
    store.delete(b"deleted");
    let store = Store::open(store.log);
    assert_eq!(store.get(b"empty"), Some(vec![]));
    assert_eq!(store.get(b"deleted"), None);
}

#[test]
fn test_overwrite() {
    let mut store = Store::open(Vec::new());
    store.put(b"key", b"val1");
    store.put(b"key", b"val2");
    assert_eq!(store.get(b"key"), Some(b"val2".to_vec()));
}

#[test]
fn test_delete() {
    let mut store = Store::open(Vec::new());
    store.put(b"key", b"val");
    store.delete(b"key");
    assert_eq!(store.get(b"key"), None);
}

#[test]
fn bitcask_test_recovery() {
    let mut store = Store::open(Vec::new());
    store.put(b"k1", b"v1");
    store.put(b"k2", b"v2");
    let store = Store::open(store.log);
    assert_eq!(store.get(b"k1"), Some(b"v1".to_vec()));
    assert_eq!(store.get(b"k2"), Some(b"v2".to_vec()));
}

#[test]
fn test_recovery_with_delete() {
    let mut store = Store::open(Vec::new());
    store.put(b"k1", b"v1");
    store.delete(b"k1");
    let store = Store::open(store.log);
    assert_eq!(store.get(b"k1"), None);
}

#[test]
fn bitcask_record_layout() {
    let mut index = Bitcask::open(&[]).unwrap();
    let rec = index.put(b"ab".to_vec(), b"xyz", 0x0102);
    assert_eq!(
        rec,
        vec![0, 0, 0, 0, 0, 0, 0, 0, 0, 0, 1, 2, 0, 0, 0, 2, 0, 0, 0, 3, b'a', b'b', b'x', b'y', b'z']
    );
    assert_eq!(
        index.get(b"ab"),
        Some(EntryLocation { file_id: 0, value_sz: 3, value_pos: 22, timestamp: 0x0102 })
    );
    let tomb = index.delete(b"ab".to_vec(), 5);
    assert_eq!(&tomb[16..20], &[0xff, 0xff, 0xff, 0xff]);
    assert_eq!(tomb.len(), HEADER_SIZE + 2);
    assert_eq!(index.get(b"ab"), None);
    // The next write lands after both records.
    index.put(b"c".to_vec(), b"", 6);
    assert_eq!(index.get(b"c").unwrap().value_pos, (25 + 22 + 21) as u64);
}

#[test]
fn bitcask_header_round_trip() {
    let h = EntryHeader { crc: 0xdeadbeef, timestamp: 0x0102030405060708, key_sz: 9, value_sz: 0xffff_ffff };
    let b = encode_header(&h);
    assert_eq!(b.len(), HEADER_SIZE);
    assert_eq!(&b[0..4], &0xdeadbeefu32.to_be_bytes());
    assert_eq!(decode_header(&b, 0), h);
    let mut shifted = vec![9u8; 3];
    shifted.extend_from_slice(&b);
    assert_eq!(decode_header(&shifted, 3), h);
}

#[test]
fn bitcask_damaged_logs() {
    // A partial header at the end is ignored.
    let mut index = Bitcask::open(&[]).unwrap();
    let mut log = index.put(b"k".to_vec(), b"v", 1);
    log.extend_from_slice(&[0, 0, 0]);
    let reopened = Bitcask::open(&log).unwrap();
    assert_eq!(reopened.get(b"k").map(|l| l.value_pos), Some(21));
    // A log that ends inside a key is refused.
    let mut cut = index.put(b"longkey".to_vec(), b"v", 2);
    cut.truncate(HEADER_SIZE + 3);
    assert_eq!(Bitcask::open(&cut).err(), Some(BitcaskError::TruncatedKey));
    // A value that runs past the end still indexes its key.
    let mut short = index.put(b"z".to_vec(), b"value", 3);
    short.truncate(HEADER_SIZE + 1 + 2);
    let reopened = Bitcask::open(&short).unwrap();
    assert_eq!(reopened.get(b"z").map(|l| l.value_sz), Some(5));
}

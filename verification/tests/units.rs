use jadedb::key::{InternalKey, ValueKind};
use jadedb::memtable::MemTable;
use jadedb::options::FsyncMode;
use jadedb::sstable::bloom::BloomFilter;
use jadedb::wal::Wal;

#[test]
fn newer_seq_sorts_first_same_key() {
    let a = InternalKey::put(b"k".to_vec(), 10);
    let b = InternalKey::put(b"k".to_vec(), 5);
    assert!(a < b);
}

#[test]
fn encode_roundtrip() {
    let k = InternalKey::delete(b"hello".to_vec(), 42);
    let enc = k.encode();
    let dec = InternalKey::decode(&enc).unwrap();
    assert_eq!(k, dec);
}

#[test]
fn put_get_delete() {
    let mut m = MemTable::new();
    m.put(InternalKey::put(b"a".to_vec(), 1), b"1".to_vec());
    m.put(InternalKey::put(b"a".to_vec(), 2), b"2".to_vec());
    let e = m.get(b"a", u64::MAX).unwrap();
    assert_eq!(e.value, b"2");
    m.put(InternalKey::delete(b"a".to_vec(), 3), Vec::new());
    let e = m.get(b"a", u64::MAX).unwrap();
    assert_eq!(e.kind, ValueKind::Delete);
    assert!(m.get(b"a", 2).unwrap().value == b"2");
}

#[test]
fn no_false_negative() {
    let keys: Vec<_> = (0..100).map(|i| format!("key{i}").into_bytes()).collect();
    let bloom = BloomFilter::build(&keys, 10);
    let round = BloomFilter::decode(&bloom.encode()).unwrap();
    for k in &keys {
        assert!(bloom.may_contain(k));
        assert!(round.may_contain(k));
    }
    assert!(!bloom.may_contain(b"missing-key-xyz"));
}

#[test]
fn wal_roundtrip_and_truncate() {
    let mut log: Vec<u8> = Vec::new();
    {
        let mut wal = Wal::create(FsyncMode::Always);
        for (key, value) in [
            (InternalKey::put(b"a".to_vec(), 1), b"1"),
            (InternalKey::put(b"b".to_vec(), 2), b"2"),
        ] {
            let frame = wal.append(&key, value);
            log.extend_from_slice(&frame);
            assert!(wal.appended(frame.len()));
            wal.append_synced();
        }
    }
    let entries = Wal::recover(&log).unwrap();
    assert_eq!(entries.len(), 2);
    assert_eq!(entries[0].0.user_key, b"a");
}

use jadedb::compact::{can_pick, has_room, key_range, overlapping, pick_compaction, run_compaction, CompactionJob};
use jadedb::error::Error;
use jadedb::frame::framed;
use jadedb::iter::MergeIterator;
use jadedb::key::{compare_encoded, InternalKey, ValueKind};
use jadedb::manifest::{apply_edit, decode_edit, encode_edit, is_edit_complete, FileMeta, Manifest, ManifestEdit, RecoveredState};
use jadedb::memtable::{Bound, MemTable};
use jadedb::options::{FsyncMode, Options};
use jadedb::snapshot::SnapshotTracker;
use jadedb::sstable::block::{Block, BlockBuilder, IndexBlock};
use jadedb::sstable::bloom::BloomFilter;
use jadedb::sstable::builder::{SsTableBuilder, FOOTER_SIZE, SST_MAGIC};
use jadedb::sstable::reader::{BlockCache, Footer, SsTable};
use jadedb::text::table_file_name;
use jadedb::version::Version;
use jadedb::wal::{decode_record, Wal};
use std::cmp::Ordering;
use std::sync::Arc;

fn message<T>(r: Result<T, Error>) -> String {
    match r {
        Err(Error::Corruption(m)) => m,
        Err(_) => "another error".to_string(),
        Ok(_) => "no error".to_string(),
    }
}

fn put(k: &str, seq: u64) -> InternalKey {
    InternalKey::put(k.as_bytes().to_vec(), seq)
}

fn del(k: &str, seq: u64) -> InternalKey {
    InternalKey::delete(k.as_bytes().to_vec(), seq)
}

/// A table that holds no block, for tests of what is decided by its key range and its size.
fn table(file_num: u64, smallest: &str, largest: &str, file_size: u64) -> SsTable {
    let index = IndexBlock::new().encode();
    let bloom = BloomFilter::build(&[], 10).encode();
    SsTable::open(
        file_num,
        smallest.as_bytes().to_vec(),
        largest.as_bytes().to_vec(),
        file_size,
        &index,
        &bloom,
    )
    .unwrap()
}

fn meta(file_num: u64, level: u32, smallest: &str, largest: &str) -> FileMeta {
    FileMeta {
        file_num,
        level,
        smallest: smallest.as_bytes().to_vec(),
        largest: largest.as_bytes().to_vec(),
        file_size: 0,
    }
}

fn version(tables: Vec<(u32, SsTable)>, max_levels: usize) -> Version {
    let mut files = Vec::new();
    let mut opened = Vec::new();
    for (level, t) in tables {
        files.push(FileMeta {
            file_num: t.file_num,
            level,
            smallest: t.smallest.clone(),
            largest: t.largest.clone(),
            file_size: t.file_size,
        });
        opened.push(Some(t));
    }
    Version::from_metas(&files, opened, max_levels)
}

fn numbers(tables: &[Arc<SsTable>]) -> Vec<u64> {
    tables.iter().map(|t| t.file_num).collect()
}

#[test]
fn frame_holds_length_and_checksum() {
    // The check value of CRC-32 is 0xCBF43926.
    let f = framed(b"123456789");
    assert_eq!(f[..4], [9, 0, 0, 0]);
    assert_eq!(f[4..8], [0x26, 0x39, 0xF4, 0xCB]);
    assert_eq!(&f[8..], b"123456789");
}

#[test]
fn encoded_key_is_user_key_and_tag() {
    assert_eq!(put("k", 5).encode(), [b'k', 0, 0, 0, 0, 0, 0, 5, 1]);
    assert_eq!(del("", 0x0102).encode(), [0, 0, 0, 0, 0, 1, 2, 0]);
    assert_eq!(message(InternalKey::decode(b"short")), "internal key too short");
    assert_eq!(message(InternalKey::decode(&[0, 0, 0, 0, 0, 0, 1, 7])), "bad value kind 7");
    let largest = put("k", (1 << 56) - 1);
    assert_eq!(InternalKey::decode(&largest.encode()).unwrap(), largest);
}

#[test]
fn keys_are_ordered_by_key_then_newest() {
    assert!(put("a", 1) < put("b", 9));
    assert!(put("a", 9) < put("a", 1));
    assert!(put("a", 1) < put("aa", 9));
    // The higher kind comes first where all else is equal.
    assert!(put("a", 1) < del("a", 1));
    let ks = [put("a", 9), put("a", 1), del("a", 1), put("aa", 3), del("b", 2)];
    for (i, a) in ks.iter().enumerate() {
        for (j, b) in ks.iter().enumerate() {
            assert_eq!(compare_encoded(&a.encode(), &b.encode()), i.cmp(&j));
        }
    }
    assert_eq!(compare_encoded(b"", b""), Ordering::Equal);
}

#[test]
fn value_kinds_have_numbers() {
    assert_eq!(ValueKind::from_u8(0), Some(ValueKind::Delete));
    assert_eq!(ValueKind::from_u8(1), Some(ValueKind::Put));
    assert_eq!(ValueKind::from_u8(2), None);
}

#[test]
fn log_record_layout() {
    let wal = Wal::create(FsyncMode::Batch);
    let f = wal.append(&put("a", 3), b"xy");
    let rec = &f[8..];
    let expected = [
        &[0x45u8, 0x44, 0x41, 0x4A][..],
        &[1, 0, 0, 0],
        b"a",
        &[3, 0, 0, 0, 0, 0, 0, 0],
        &[1],
        &[2, 0, 0, 0],
        b"xy",
    ]
    .concat();
    assert_eq!(rec, &expected[..]);
    let (k, v) = decode_record(rec).unwrap();
    assert_eq!((k, v), (put("a", 3), b"xy".to_vec()));
    assert_eq!(message(decode_record(&rec[..20])), "wal record too short");
    let mut bad = expected.clone();
    bad[0] = 0;
    assert_eq!(message(decode_record(&bad)), "wal bad magic");
    let mut bad = expected.clone();
    bad[4] = 200;
    assert_eq!(message(decode_record(&bad)), "wal key truncated");
    let mut bad = expected.clone();
    bad[17] = 5;
    assert_eq!(message(decode_record(&bad)), "wal kind");
    let mut bad = expected.clone();
    bad[18] = 1;
    assert_eq!(message(decode_record(&bad)), "wal value length");
}

#[test]
fn log_is_synced_in_batches() {
    let mut wal = Wal::open_append(FsyncMode::Batch);
    assert!(!wal.appended(256 * 1024 - 1));
    assert!(wal.appended(1));
    wal.append_synced();
    assert!(!wal.appended(1));
    let mut wal = Wal::create(FsyncMode::Never);
    assert!(!wal.appended(1 << 30));
    assert!(!wal.sync_due());
    wal.sync();
}

#[test]
fn manifest_edit_layout() {
    let add = ManifestEdit::AddFile(FileMeta {
        file_num: 7,
        level: 2,
        smallest: b"a".to_vec(),
        largest: b"bc".to_vec(),
        file_size: 258,
    });
    let b = encode_edit(&add);
    let expected = [
        &[1u8][..],
        &[7, 0, 0, 0, 0, 0, 0, 0],
        &[2, 0, 0, 0],
        &[1, 0, 0, 0],
        b"a",
        &[2, 0, 0, 0],
        b"bc",
        &[2, 1, 0, 0, 0, 0, 0, 0],
    ]
    .concat();
    assert_eq!(b, expected);
    match decode_edit(&b).unwrap() {
        ManifestEdit::AddFile(m) => {
            assert_eq!((m.file_num, m.level, m.file_size), (7, 2, 258));
            assert_eq!((m.smallest, m.largest), (b"a".to_vec(), b"bc".to_vec()));
        }
        _ => panic!("an addition"),
    }
    let delete = ManifestEdit::DeleteFile { level: 1, file_num: 9 };
    assert_eq!(encode_edit(&delete), [2, 1, 0, 0, 0, 9, 0, 0, 0, 0, 0, 0, 0]);
    assert_eq!(encode_edit(&ManifestEdit::SetNextFileNum(4)), [3, 4, 0, 0, 0, 0, 0, 0, 0]);
    assert_eq!(encode_edit(&ManifestEdit::SetLastSeq(5)), [4, 5, 0, 0, 0, 0, 0, 0, 0]);
    assert_eq!(message(decode_edit(&[])), "empty edit");
    assert_eq!(message(decode_edit(&[200])), "unknown edit 200");
    assert!(!is_edit_complete(&[3, 4]));
    assert!(!is_edit_complete(&expected[..expected.len() - 1]));
    // A frame whose edit breaks off cannot be read.
    assert!(Manifest::reopen(&framed(&[3, 4])).is_none());
}

#[test]
fn manifest_recovers_what_was_logged() {
    let m = Manifest::create(FsyncMode::Batch);
    assert!(m.sync_due());
    let mut bytes = m.log(&[
        ManifestEdit::AddFile(meta(1, 0, "a", "b")),
        ManifestEdit::AddFile(meta(2, 1, "c", "d")),
        ManifestEdit::SetNextFileNum(3),
    ]);
    let more = m.log(&[ManifestEdit::DeleteFile { level: 0, file_num: 1 }, ManifestEdit::SetLastSeq(17)]);
    let torn = more.len() - 1;
    bytes.extend_from_slice(&more[..torn]);
    let s = Manifest::recover(&bytes).unwrap();
    assert_eq!((s.next_file_num, s.last_seq), (3, 0));
    assert_eq!(s.files.iter().map(|f| f.file_num).collect::<Vec<_>>(), vec![2]);
    // The deletion is the beginning of a run that was never finished.
    let (s, n) = Manifest::reopen(&bytes).unwrap().unwrap();
    assert_eq!(s.files.iter().map(|f| f.file_num).collect::<Vec<_>>(), vec![1, 2]);
    assert_eq!(n, bytes.len() - torn);
    assert_eq!(Manifest::intact_len(&bytes), n);
    bytes.extend_from_slice(&more[torn..]);
    let s = Manifest::recover(&bytes).unwrap();
    assert_eq!(s.last_seq, 17);
    let (s, n) = Manifest::reopen(&bytes).unwrap().unwrap();
    assert_eq!(s.files.iter().map(|f| f.file_num).collect::<Vec<_>>(), vec![2]);
    assert_eq!(n, bytes.len());
    bytes[8] ^= 1;
    assert_eq!(message(Manifest::reopen(&bytes).unwrap()), "manifest checksum");
    // A deletion on another level leaves the file alone.
    let mut s = RecoveredState::default();
    apply_edit(&mut s, ManifestEdit::AddFile(meta(1, 0, "a", "b")));
    apply_edit(&mut s, ManifestEdit::DeleteFile { level: 1, file_num: 1 });
    assert_eq!(s.files.len(), 1);
}

#[test]
fn table_names_have_six_digits() {
    assert_eq!(table_file_name(0), "000000.sst");
    assert_eq!(table_file_name(7), "000007.sst");
    assert_eq!(table_file_name(999999), "999999.sst");
    assert_eq!(table_file_name(1234567), "1234567.sst");
    assert_eq!(table_file_name(u64::MAX), "18446744073709551615.sst");
}

#[test]
fn filter_has_as_many_probes_as_it_should() {
    for bits in 0usize..300 {
        let k = ((bits.max(1) as f64) * 0.69).max(1.0).min(30.0) as u32;
        let b = BloomFilter::build(&[], bits).encode();
        assert_eq!(b[..4], k.to_le_bytes(), "{bits} bits per key");
        assert_eq!(b[4..12], 64u64.to_le_bytes());
        assert_eq!(b.len(), 12 + 8);
    }
}

#[test]
fn filter_sets_the_bits_of_its_keys() {
    // One key, ten bits per key: 64 bits, 6 probes.
    let b = BloomFilter::build(&[b"123456789".to_vec()], 10).encode();
    let h1 = 0xCBF43926u32;
    let h2 = crc32fast::hash(&[&h1.to_le_bytes()[..], b"123456789"].concat()).max(1);
    let mut bits = [0u8; 8];
    for i in 0..6u32 {
        let h = (h1.wrapping_add(i.wrapping_mul(h2)) % 64) as usize;
        bits[h / 8] |= 1 << (h % 8);
    }
    assert_eq!(b[12..], bits);
    assert_eq!(message(BloomFilter::decode(&b[..11])), "bloom too short");
    let empty = BloomFilter::decode(&b[..12]).unwrap();
    assert!(empty.is_in_bounds());
    assert!(empty.may_contain(b"anything"));
    assert!(!BloomFilter::decode(&b[..15]).unwrap().is_in_bounds());
}

#[test]
fn block_layout_and_lookup() {
    let mut b = BlockBuilder::new();
    assert!(b.is_empty());
    b.add(&put("a", 2).encode(), b"x");
    b.add(&put("a", 1).encode(), b"y");
    b.add(&del("b", 3).encode(), b"");
    let size = b.estimated_size();
    let block = b.finish();
    assert_eq!(size, 3 * (9 + 8) + 2);
    assert_eq!(block.raw().len(), 4 + size);
    assert_eq!(block.raw()[..8], [3, 0, 0, 0, 9, 0, 0, 0]);
    assert_eq!(block.get(b"a", u64::MAX).unwrap(), (put("a", 2), b"x".to_vec()));
    assert_eq!(block.get(b"a", 1).unwrap().1, b"y");
    assert!(block.get(b"a", 0).is_none());
    assert_eq!(block.get(b"b", 9).unwrap().0.kind, ValueKind::Delete);
    assert!(block.get(b"c", 9).is_none());
    let mut it = block.iter_entries();
    let mut n = 0;
    while it.next().is_some() {
        n += 1;
    }
    assert_eq!(n, 3);
    // A block that breaks off gives what is whole.
    assert!(Block::from_raw(vec![1, 2]).get(b"a", 1).is_none());
}

#[test]
fn index_layout_and_search() {
    let mut i = IndexBlock::new();
    assert_eq!(i.find_block(b"a"), None);
    i.push(put("d", 1).encode(), 0, 10);
    i.push(put("m", 1).encode(), 10, 20);
    assert_eq!(i.find_block(b"a"), Some((0, 10)));
    assert_eq!(i.find_block(b"d"), Some((0, 10)));
    assert_eq!(i.find_block(b"e"), Some((10, 20)));
    assert_eq!(i.find_block(b"z"), Some((10, 20)));
    let bytes = i.encode();
    assert_eq!(bytes[..4], [2, 0, 0, 0]);
    let j = IndexBlock::decode(&bytes).unwrap();
    assert_eq!(j.entries(), i.entries());
    assert_eq!(message(IndexBlock::decode(&bytes[..3])), "index too short");
    assert_eq!(message(IndexBlock::decode(&bytes[..6])), "index truncated");
    assert_eq!(message(IndexBlock::decode(&bytes[..bytes.len() - 1])), "index entry truncated");
}

#[test]
fn table_file_gives_back_its_records() {
    let mut b = SsTableBuilder::new(64, 10);
    for i in 0..50u64 {
        b.add(&put(&format!("k{i:02}"), 100 + i), format!("v{i}").as_bytes());
    }
    let (file, meta, sync) = b.finish(FsyncMode::Batch);
    assert!(sync);
    assert_eq!(meta.smallest, put("k00", 100));
    assert_eq!(meta.largest, put("k49", 149));
    assert_eq!(meta.file_size, file.len() as u64);
    let at = Footer::locate(file.len() as u64).unwrap() as usize;
    assert_eq!(at, file.len() - FOOTER_SIZE);
    assert_eq!(file[at..at + 4], SST_MAGIC.to_le_bytes());
    let f = Footer::decode(&file[at..]).unwrap();
    assert_eq!(f.bloom_off + f.bloom_len, at as u64);
    assert_eq!(f.index_off + f.index_len, f.bloom_off);
    let part = |off: u64, len: u64| &file[off as usize..(off + len) as usize];
    let t = SsTable::open(
        3,
        b"k00".to_vec(),
        b"k49".to_vec(),
        meta.file_size,
        part(f.index_off, f.index_len),
        part(f.bloom_off, f.bloom_len),
    )
    .unwrap();
    let reads = t.block_reads();
    assert!(reads.len() > 10);
    let blocks: Vec<Arc<Block>> = reads
        .iter()
        .map(|r| Arc::new(Block::from_raw(part(r.offset, r.len as u64).to_vec())))
        .collect();
    let all = SsTable::iter_all(&blocks);
    assert_eq!(all.len(), 50);
    assert_eq!(all[17], (put("k17", 117), b"v17".to_vec()));
    assert!(t.may_contain(b"k20"));
    assert!(!t.may_contain(b"a"));
    assert!(!t.may_contain(b"z"));
    // One block is enough to find a key that is there.
    let mut l = t.get(b"k20", u64::MAX);
    let r = l.pending().unwrap();
    l.supply(&Block::from_raw(part(r.offset, r.len as u64).to_vec()));
    assert_eq!(l.pending(), None);
    assert_eq!(l.finish().unwrap().value, b"v20");
    assert!(t.get(b"a", u64::MAX).pending().is_none());
}

#[test]
fn open_reports_damaged_parts() {
    let index = IndexBlock::new().encode();
    let bloom = BloomFilter::build(&[], 10).encode();
    let open = |i: &[u8], b: &[u8]| SsTable::open(1, Vec::new(), Vec::new(), 0, i, b);
    assert_eq!(message(open(&[], &bloom)), "index too short");
    assert_eq!(message(open(&index, &[])), "bloom too short");
    assert!(open(&index, &bloom).is_ok());
    assert_eq!(message(Footer::locate(43)), "sst too small");
    assert_eq!(message(Footer::decode(&[0; FOOTER_SIZE])), "sst bad magic");
}

#[test]
fn memtable_keeps_every_version() {
    let mut m = MemTable::new();
    assert!(m.is_empty());
    m.put(put("b", 2), b"two".to_vec());
    m.put(put("a", 1), b"one".to_vec());
    m.put(put("b", 3), b"three".to_vec());
    m.put(del("c", 4), Vec::new());
    assert_eq!(m.len(), 4);
    assert_eq!(m.approx_bytes(), 4 * (1 + 16) + 3 + 3 + 5);
    let order: Vec<_> = m.iter().iter().map(|(k, _)| (k.user_key.clone(), k.seq)).collect();
    assert_eq!(
        order,
        vec![(b"a".to_vec(), 1), (b"b".to_vec(), 3), (b"b".to_vec(), 2), (b"c".to_vec(), 4)]
    );
    // The same key again replaces the value.
    m.put(put("a", 1), b"uno".to_vec());
    assert_eq!(m.len(), 4);
    assert_eq!(m.get(b"a", 9).unwrap().value, b"uno");
    let rows = m.range_from(Bound::Excluded(b"a"), 3).collect();
    assert_eq!(rows, vec![(put("b", 3), b"three".to_vec())]);
    let mut it = m.range_from(Bound::Included(b"b"), 2);
    assert_eq!(it.next(), Some((put("b", 2), b"two".to_vec())));
    assert_eq!(it.next(), None);
}

#[test]
fn merge_prefers_newer_sources() {
    let mut new = MemTable::new();
    new.put(put("a", 5), b"5".to_vec());
    new.put(del("b", 6), Vec::new());
    let old = vec![
        (put("a", 1), b"1".to_vec()),
        (put("b", 2), b"2".to_vec()),
        (put("c", 3), b"3".to_vec()),
    ];
    let mems = vec![&new];
    let rows = MergeIterator::from_mem_and_sst(&mems, vec![old.clone()], u64::MAX, false).collect();
    assert_eq!(
        rows,
        vec![
            (b"a".to_vec(), Some(b"5".to_vec())),
            (b"b".to_vec(), None),
            (b"c".to_vec(), Some(b"3".to_vec())),
        ]
    );
    let rows = MergeIterator::from_mem_and_sst(&mems, vec![old.clone()], 4, true).collect();
    assert_eq!(rows.len(), 3);
    assert_eq!(rows[1], (b"b".to_vec(), Some(b"2".to_vec())));
    let mut it = MergeIterator::from_sorted_streams(vec![old, Vec::new()], 1, true);
    assert_eq!(it.next(), Some((b"a".to_vec(), Some(b"1".to_vec()))));
    assert_eq!(it.next(), None);
}

#[test]
fn watermark_is_the_oldest_snapshot() {
    let mut t = SnapshotTracker::new();
    assert_eq!(t.watermark(), u64::MAX);
    for s in [7, 3, 3, 9] {
        assert_eq!(t.create_snapshot(s).seq, s);
    }
    assert_eq!(t.watermark(), 3);
    t.release(3);
    assert_eq!(t.watermark(), 3);
    t.release(3);
    assert_eq!(t.watermark(), 7);
    t.release(100);
    t.release(7);
    t.release(9);
    assert_eq!(t.watermark(), u64::MAX);
}

#[test]
fn cache_holds_so_many_blocks() {
    let block = |n: u8| Arc::new(Block::from_raw(vec![n]));
    let mut c = BlockCache::new(2);
    c.insert(1, 0, block(1));
    c.insert(1, 8, block(2));
    assert_eq!(c.get(1, 8).unwrap().raw(), [2]);
    c.insert(2, 0, block(3));
    assert_eq!(c.get(2, 0).unwrap().raw(), [3]);
    let left = [c.get(1, 0), c.get(1, 8)].iter().filter(|b| b.is_some()).count();
    assert_eq!(left, 1);
    assert!(c.get(8, 1).is_none());
}

#[test]
fn options_have_their_defaults() {
    let o = Options::default();
    assert_eq!((o.memtable_bytes, o.block_size, o.fsync), (4 << 20, 4096, FsyncMode::Batch));
    assert_eq!((o.l0_compaction_trigger, o.level_ratio, o.base_level_bytes), (4, 10, 10 << 20));
    assert_eq!((o.target_file_size, o.bloom_bits_per_key), (2 << 20, 10));
    assert_eq!((o.block_cache_capacity, o.max_levels), (64, 7));
    assert_eq!(FsyncMode::default(), FsyncMode::Batch);
}

#[test]
fn levels_put_tables_in_their_places() {
    let v = version(
        vec![
            (0, table(5, "a", "m", 10)),
            (0, table(2, "b", "z", 20)),
            (1, table(3, "n", "p", 30)),
            (1, table(4, "a", "c", 40)),
            (9, table(6, "a", "z", 50)),
        ],
        3,
    );
    assert_eq!(numbers(&v.all_tables()), vec![2, 5, 4, 3]);
    assert_eq!(v.l0_num_files(), 2);
    assert_eq!((v.level_bytes(0), v.level_bytes(1), v.level_bytes(2)), (30, 70, 0));
    assert_eq!(v.level_bytes(77), 0);
    // The filter of these tables holds no key, so that level 0 is passed over.
    assert_eq!(numbers(&v.get_sstables_for_key(b"b")), vec![4]);
    assert_eq!(numbers(&v.get_sstables_for_key(b"d")), Vec::<u64>::new());
    let none = Version::from_metas(&vec![meta(1, 0, "a", "b")], vec![None], 2);
    assert!(none.all_tables().is_empty());
    assert_eq!(Version::empty(3).l0_num_files(), 0);
}

#[test]
fn level_zero_is_compacted_as_a_whole() {
    let mut o = Options::for_tests();
    o.l0_compaction_trigger = 2;
    let v = version(
        vec![
            (0, table(1, "d", "g", 1)),
            (0, table(2, "f", "k", 1)),
            (1, table(3, "a", "c", 1)),
            (1, table(4, "cc", "d", 1)),
            (1, table(5, "i", "j", 1)),
            (1, table(6, "k", "n", 1)),
            (1, table(7, "o", "p", 1)),
        ],
        o.max_levels,
    );
    assert!(can_pick(&v, &o));
    let job = pick_compaction(&v, &o).unwrap();
    assert_eq!(job.level, 0);
    assert_eq!(numbers(&job.inputs_upper), vec![1, 2]);
    assert_eq!(numbers(&job.inputs_lower), vec![4, 5, 6]);
    let (lo, hi) = key_range(&job.inputs_upper).unwrap();
    assert_eq!((lo, hi), (b"d".to_vec(), b"k".to_vec()));
    assert!(key_range(&Vec::new()).is_none());
    assert_eq!(numbers(&overlapping(&v.levels[1], b"n", b"o")), vec![6, 7]);
}

#[test]
fn levels_are_compacted_above_their_limit() {
    let mut o = Options::for_tests();
    o.base_level_bytes = 100;
    o.level_ratio = 10;
    o.max_levels = 4;
    let level1 = |size: u64| vec![(1, table(1, "a", "c", size)), (1, table(2, "d", "f", 1))];
    assert!(pick_compaction(&version(level1(99), 4), &o).is_none());
    let mut ts = level1(100);
    ts.push((2, table(3, "b", "b", 1)));
    ts.push((2, table(4, "d", "d", 1)));
    let job = pick_compaction(&version(ts, 4), &o).unwrap();
    assert_eq!((job.level, numbers(&job.inputs_upper), numbers(&job.inputs_lower)), (1, vec![1], vec![3]));
    // Level 2 may hold ten times as much; the last level is never compacted.
    assert!(pick_compaction(&version(vec![(2, table(1, "a", "b", 1000))], 4), &o).is_none());
    let job = pick_compaction(&version(vec![(2, table(1, "a", "b", 1001))], 4), &o).unwrap();
    assert_eq!(job.level, 2);
    assert!(pick_compaction(&version(vec![(3, table(1, "a", "b", 1 << 40))], 4), &o).is_none());
    // Limits that overflow, and levels that are missing.
    o.level_ratio = usize::MAX;
    o.max_levels = 5;
    assert!(!can_pick(&version(Vec::new(), 5), &o));
    assert!(!can_pick(&version(vec![(1, table(1, "a", "b", 1000))], 2), &o));
    o.l0_compaction_trigger = 0;
    assert!(can_pick(&version(Vec::new(), 5), &o));
    assert!(!can_pick(&Version::empty(0), &o));
}

fn job(level: usize) -> CompactionJob {
    CompactionJob {
        level,
        inputs_upper: vec![Arc::new(table(1, "a", "c", 1))],
        inputs_lower: vec![Arc::new(table(2, "a", "d", 1))],
    }
}

#[test]
fn compaction_output_is_cut_into_files() {
    let mut o = Options::for_tests();
    o.target_file_size = 40;
    o.max_levels = 4;
    let upper = vec![(put("a", 9), b"new".to_vec()), (del("b", 8), Vec::new())];
    let lower = vec![
        (put("a", 1), b"old".to_vec()),
        (put("b", 2), b"old".to_vec()),
        (put("c", 3), b"1".to_vec()),
        (put("d", 4), b"2".to_vec()),
    ];
    let streams = vec![upper, lower];
    let j = job(0);
    assert!(has_room(&streams, 0, &o, 10, u64::MAX));
    assert!(!has_room(&streams, 0, &o, u64::MAX - 3, u64::MAX));
    let mut next = 10;
    let out = run_compaction(&j, streams.clone(), &o, &mut next, u64::MAX);
    // 20 + 17 bytes are not enough for a file, 18 more are.
    let shape: Vec<_> = out
        .new_metas
        .iter()
        .map(|m| (m.file_num, m.level, m.smallest.clone(), m.largest.clone()))
        .collect();
    assert_eq!(
        shape,
        vec![
            (10, 1, b"a".to_vec(), b"c".to_vec()),
            (11, 1, b"d".to_vec(), b"d".to_vec()),
        ]
    );
    assert_eq!(next, 12);
    assert_eq!(out.files.len(), 2);
    assert_eq!(out.edits.len(), 4);
    assert!(matches!(out.edits[2], ManifestEdit::DeleteFile { level: 0, file_num: 1 }));
    assert!(matches!(out.edits[3], ManifestEdit::DeleteFile { level: 1, file_num: 2 }));
    // Into the last level, a tombstone goes unless a snapshot is older.
    let mut next = 10;
    let out = run_compaction(&job(2), streams.clone(), &o, &mut next, 8);
    let all: Vec<_> = out.files.iter().map(|f| records(f)).collect();
    assert_eq!(
        all,
        vec![
            vec![("a".to_string(), 9), ("a".to_string(), 1)],
            vec![("c".to_string(), 3), ("d".to_string(), 4)],
        ]
    );
    let mut next = 10;
    let kept = run_compaction(&job(2), streams, &o, &mut next, 7);
    let all: Vec<_> = kept.files.iter().map(|f| records(f)).collect();
    assert_eq!(
        all,
        vec![
            vec![("a".to_string(), 9), ("a".to_string(), 1)],
            vec![("b".to_string(), 8), ("b".to_string(), 2), ("c".to_string(), 3)],
            vec![("d".to_string(), 4)],
        ]
    );
}

/// The user keys and sequence numbers in a table file.
fn records(file: &[u8]) -> Vec<(String, u64)> {
    let at = Footer::locate(file.len() as u64).unwrap() as usize;
    let f = Footer::decode(&file[at..at + FOOTER_SIZE]).unwrap();
    let (i, b) = (f.index_off as usize, f.bloom_off as usize);
    let t = SsTable::open(
        1,
        Vec::new(),
        Vec::new(),
        file.len() as u64,
        &file[i..i + f.index_len as usize],
        &file[b..b + f.bloom_len as usize],
    )
    .unwrap();
    let mut blocks = Vec::new();
    for r in t.block_reads() {
        let at = r.offset as usize;
        blocks.push(Arc::new(Block::from_raw(file[at..at + r.len as usize].to_vec())));
    }
    SsTable::iter_all(&blocks)
        .iter()
        .map(|(k, _)| (String::from_utf8(k.user_key.clone()).unwrap(), k.seq))
        .collect()
}

#[test]
fn compaction_keeps_what_the_oldest_snapshot_reads() {
    let o = Options::for_tests();
    let streams = vec![
        vec![(put("a", 7), b"new".to_vec()), (put("a", 5), b"mid".to_vec())],
        vec![(put("a", 5), b"mid".to_vec()), (put("a", 3), b"old".to_vec()), (put("a", 2), b"gone".to_vec())],
    ];
    let run = |watermark: u64| {
        let mut next = 5;
        let out = run_compaction(&job(0), streams.clone(), &o, &mut next, watermark);
        assert_eq!(out.files.len(), 1);
        records(&out.files[0]).iter().map(|r| r.1).collect::<Vec<u64>>()
    };
    assert_eq!(run(u64::MAX), vec![7]);
    assert_eq!(run(7), vec![7]);
    assert_eq!(run(6), vec![7, 5]);
    assert_eq!(run(5), vec![7, 5]);
    assert_eq!(run(4), vec![7, 5, 3]);
    assert_eq!(run(3), vec![7, 5, 3]);
    assert_eq!(run(0), vec![7, 5, 3, 2]);
}

#[test]
fn intact_part_of_a_log_ends_with_its_last_whole_record() {
    let w = Wal::create(FsyncMode::Always);
    let mut log = w.append(&put("a", 1), b"x");
    let first = log.len();
    log.extend_from_slice(&w.append(&put("b", 2), b"y"));
    assert_eq!(Wal::intact_len(&log), log.len());
    for cut in first..log.len() {
        assert_eq!(Wal::intact_len(&log[..cut]), first);
    }
    for cut in 0..first {
        assert_eq!(Wal::intact_len(&log[..cut]), 0);
    }
}

#[test]
fn compaction_of_nothing_but_old_tombstones_gives_no_file() {
    let o = Options::for_tests();
    let mut next = 5;
    let streams = vec![vec![(del("a", 1), Vec::new())], Vec::new()];
    let out = run_compaction(&job(o.max_levels - 2), streams, &o, &mut next, u64::MAX);
    assert!(out.new_metas.is_empty() && out.files.is_empty());
    assert_eq!(out.edits.len(), 2);
    assert_eq!(next, 5);
}

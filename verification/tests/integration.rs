use jadedb::compact::{read_inputs, tables_to_merge, CompactionJob};
use jadedb::db::{finish_get, Db, DbStats, FlushJob, FlushStep, ReadStep, WriteStep};
use jadedb::key::ValueKind;
use jadedb::manifest::Manifest;
use jadedb::memtable::Bound;
use jadedb::sstable::block::Block;
use jadedb::sstable::builder::FOOTER_SIZE;
use jadedb::sstable::reader::{BlockCache, BlockRead, Footer, SsTable};
use jadedb::text::table_file_name;
use jadedb::wal::Wal;
use jadedb::{Error, FsyncMode, Options, Result, Snapshot};
use std::collections::HashMap;
use std::sync::Arc;

/// A directory in memory.
#[derive(Clone, Default)]
struct Dir {
    log: Option<Vec<u8>>,
    manifest: Option<Vec<u8>>,
    tables: HashMap<String, Vec<u8>>,
}

impl Dir {
    fn open_table(&self, file_num: u64, smallest: &[u8], largest: &[u8]) -> Result<Option<SsTable>> {
        let bytes = match self.tables.get(&table_file_name(file_num)) {
            Some(b) => b,
            None => return Ok(None),
        };
        let at = Footer::locate(bytes.len() as u64)? as usize;
        let footer = Footer::decode(&bytes[at..at + FOOTER_SIZE])?;
        let (i, b) = (footer.index_off as usize, footer.bloom_off as usize);
        let sst = SsTable::open(
            file_num,
            smallest.to_vec(),
            largest.to_vec(),
            bytes.len() as u64,
            &bytes[i..i + footer.index_len as usize],
            &bytes[b..b + footer.bloom_len as usize],
        )?;
        assert!(sst.is_consistent());
        Ok(Some(sst))
    }
}

/// A database whose files are in memory, driven step by step.
struct Store {
    db: Db,
    dir: Dir,
    cache: BlockCache,
}

impl Store {
    fn open(dir: Dir, opts: Options) -> Result<Store> {
        let mut dir = dir;
        let recovered = match &mut dir.manifest {
            Some(bytes) => {
                let (s, len) = Manifest::reopen(bytes).expect("readable manifest")?;
                bytes.truncate(len);
                s
            }
            None => Manifest::recover(&[])?,
        };
        let mut opened = Vec::new();
        for m in &recovered.files {
            opened.push(dir.open_table(m.file_num, &m.smallest, &m.largest)?);
        }
        let mut log = dir.log.clone().unwrap_or_default();
        let (db, bytes) = Db::open(opts, recovered, opened, &log, dir.manifest.is_some())?;
        log.truncate(Wal::intact_len(&log));
        dir.log = Some(log);
        dir.manifest.get_or_insert_with(Vec::new).extend_from_slice(&bytes);
        Ok(Store { db, dir, cache: BlockCache::new(opts.block_cache_capacity) })
    }

    fn reopen(self, opts: Options) -> Store {
        Store::open(self.dir, opts).unwrap()
    }

    fn put(&mut self, key: &[u8], value: &[u8]) -> Result<()> {
        assert!(self.db.can_write());
        let step = self.db.put(key, value)?;
        self.finish_write(step, key, value, ValueKind::Put)
    }

    fn delete(&mut self, key: &[u8]) -> Result<()> {
        assert!(self.db.can_write());
        let step = self.db.delete(key)?;
        self.finish_write(step, key, b"", ValueKind::Delete)
    }

    fn finish_write(&mut self, first: WriteStep, key: &[u8], value: &[u8], kind: ValueKind) -> Result<()> {
        let mut step = first;
        loop {
            match step {
                WriteStep::Stall => {
                    self.background();
                    step = self.db.write(key, value, kind)?;
                }
                WriteStep::Append(p) => {
                    self.dir.log.as_mut().unwrap().extend_from_slice(p.frame());
                    let mut logged = self.db.log_written(p);
                    if logged.sync_due() {
                        logged = self.db.log_synced(logged);
                    }
                    if self.db.apply_write(logged) {
                        self.sync();
                        self.db.freeze();
                    }
                    return Ok(());
                }
            }
        }
    }

    fn sync(&mut self) {
        if self.db.sync_due() {
            self.db.sync();
        }
    }

    fn background(&mut self) {
        while let Some(job) = self.next_flush() {
            self.write_table(job);
        }
        if let Some(job) = self.db.maybe_compact() {
            self.run(job);
        }
    }

    fn next_flush(&mut self) -> Option<FlushJob> {
        assert!(self.db.can_flush());
        self.db.flush_imms()
    }

    fn write_table(&mut self, job: FlushJob) {
        let mut job = job;
        self.dir.tables.insert(table_file_name(job.describe().file_num), job.file().to_vec());
        assert_eq!(job.sync_due(), self.db.table_sync_due());
        if job.sync_due() {
            job = job.synced();
        }
        assert!(!job.sync_due());
        assert!(self.db.is_flushing(job.describe()));
        let p = self.db.table_written(job);
        self.dir.manifest.as_mut().unwrap().extend_from_slice(p.edits());
        let mut l = self.db.edits_logged(p);
        assert_eq!(l.sync_due(), self.db.manifest_sync_due());
        if l.sync_due() {
            l = self.db.edits_synced(l);
        }
        let m = l.describe();
        let sst = self.dir.open_table(m.file_num, &m.smallest, &m.largest).unwrap().unwrap();
        assert_eq!(sst.file_size, m.file_size);
        assert!(self.db.can_install_flush(&l, &sst));
        if let Some(spent) = self.db.install_flush(l, sst) {
            assert!(self.db.can_replace_log(&spent));
            self.dir.log = Some(Vec::new());
            self.db.log_replaced(spent);
        }
    }

    fn flush(&mut self) {
        loop {
            match self.db.flush() {
                FlushStep::SyncLog => {
                    self.sync();
                    self.db.freeze();
                }
                FlushStep::Write(job) => self.write_table(job),
                FlushStep::Done => return,
            }
        }
    }

    fn compact(&mut self) -> usize {
        self.flush();
        let mut rounds = 0;
        loop {
            assert!(self.db.can_pick());
            match self.db.compact(rounds) {
                Some(job) => self.run(job),
                None => return rounds,
            }
            rounds += 1;
        }
    }

    fn run(&mut self, job: CompactionJob) {
        let mut inputs = Vec::new();
        for t in tables_to_merge(&job) {
            inputs.push(self.blocks(&t));
        }
        let streams = read_inputs(&inputs);
        assert!(self.db.can_merge(&job, &streams));
        let mut p = self.db.merge_tables(&job, streams);
        for (m, f) in p.new_metas().iter().zip(p.new_files()) {
            assert_eq!(m.file_size, f.len() as u64);
            self.dir.tables.insert(table_file_name(m.file_num), f.clone());
        }
        assert_eq!(p.sync_due(), self.db.table_sync_due());
        if p.sync_due() {
            p = p.synced();
        }
        assert!(self.db.is_current(&p));
        let w = self.db.outputs_written(p);
        self.dir.manifest.as_mut().unwrap().extend_from_slice(w.log_bytes());
        let mut l = self.db.compaction_logged(w);
        assert_eq!(l.sync_due(), self.db.manifest_sync_due());
        if l.sync_due() {
            l = self.db.compaction_synced(l);
        }
        assert!(self.db.can_list_outputs(&l));
        let c = self.db.outputs_logged(l);
        let mut opened = Vec::new();
        for m in c.to_open() {
            opened.push(self.dir.open_table(m.file_num, &m.smallest, &m.largest).unwrap());
        }
        assert!(self.db.can_install_compaction(&c, &opened));
        for n in self.db.install_compaction(c, opened) {
            self.dir.tables.remove(&table_file_name(n));
        }
    }

    fn read_block(&mut self, r: BlockRead) -> Arc<Block> {
        if let Some(b) = self.cache.get(r.file_num, r.offset) {
            return b;
        }
        let file = &self.dir.tables[&table_file_name(r.file_num)];
        let at = r.offset as usize;
        let block = Arc::new(Block::from_raw(file[at..at + r.len as usize].to_vec()));
        self.cache.insert(r.file_num, r.offset, block.clone());
        block
    }

    fn blocks(&mut self, t: &SsTable) -> Vec<Arc<Block>> {
        let mut out = Vec::new();
        for r in t.block_reads() {
            out.push(self.read_block(r));
        }
        out
    }

    fn finish_read(&mut self, step: ReadStep) -> Option<Vec<u8>> {
        match step {
            ReadStep::Done(v) => v,
            ReadStep::Tables(mut l) => {
                while let Some(r) = l.pending() {
                    let block = self.read_block(r);
                    l.supply(&block);
                }
                finish_get(l)
            }
        }
    }

    fn get(&mut self, key: &[u8]) -> Result<Option<Vec<u8>>> {
        let step = self.db.get(key)?;
        Ok(self.finish_read(step))
    }

    fn get_snapshot(&mut self, snap: &Snapshot, key: &[u8]) -> Result<Option<Vec<u8>>> {
        let step = self.db.get_snapshot(snap, key)?;
        Ok(self.finish_read(step))
    }

    fn scan(&mut self, start: Bound<'_>) -> Vec<(Vec<u8>, Vec<u8>)> {
        let mut blocks = Vec::new();
        for t in self.db.scan_tables() {
            blocks.push(self.blocks(&t));
        }
        self.db.scan(start, &blocks)
    }

    fn scan_with_seq(&mut self, start: Bound<'_>, max_seq: u64) -> Vec<(Vec<u8>, Vec<u8>)> {
        let mut blocks = Vec::new();
        for t in self.db.scan_tables() {
            blocks.push(self.blocks(&t));
        }
        self.db.scan_with_seq(start, max_seq, &blocks)
    }

    fn stats(&self) -> DbStats {
        self.db.stats()
    }
}

fn store() -> Store {
    Store::open(Dir::default(), Options::for_tests()).unwrap()
}

fn keys(rows: &[(Vec<u8>, Vec<u8>)]) -> Vec<&[u8]> {
    rows.iter().map(|(k, _)| k.as_slice()).collect()
}

#[test]
fn memtable_put_get_delete_via_db() {
    let mut db = store();
    db.put(b"a", b"1").unwrap();
    db.put(b"b", b"2").unwrap();
    assert_eq!(db.get(b"a").unwrap().as_deref(), Some(b"1".as_ref()));
    db.delete(b"a").unwrap();
    assert_eq!(db.get(b"a").unwrap(), None);
    assert_eq!(db.get(b"b").unwrap().as_deref(), Some(b"2".as_ref()));
}

#[test]
fn wal_recovery_after_reopen() {
    let dir = {
        let mut db = store();
        db.put(b"x", b"alive").unwrap();
        db.sync();
        db.dir
    };
    let mut db = Store::open(dir, Options::for_tests()).unwrap();
    assert_eq!(db.get(b"x").unwrap().as_deref(), Some(b"alive".as_ref()));
}

#[test]
fn flush_then_get_from_sstable() {
    let mut db = store();
    for i in 0..100 {
        db.put(format!("k{i:04}").as_bytes(), b"v").unwrap();
    }
    db.flush();
    assert_eq!(db.get(b"k0000").unwrap().as_deref(), Some(b"v".as_ref()));
    assert_eq!(db.get(b"missing").unwrap(), None);
}

#[test]
fn scan_range() {
    let mut db = store();
    for k in [b"a" as &[u8], b"b", b"c", b"d"] {
        db.put(k, k).unwrap();
    }
    db.flush();
    let rows = db.scan(Bound::Included(b"b"));
    assert_eq!(keys(&rows), vec![b"b".as_ref(), b"c", b"d"]);
}

#[test]
fn tombstone_hides_older_value_across_sst() {
    let mut db = store();
    db.put(b"t", b"old").unwrap();
    db.flush();
    db.delete(b"t").unwrap();
    db.flush();
    assert_eq!(db.get(b"t").unwrap(), None);
}

#[test]
fn compaction_runs() {
    let mut opts = Options::for_tests();
    opts.l0_compaction_trigger = 2;
    opts.memtable_bytes = 8 * 1024;
    let mut db = Store::open(Dir::default(), opts).unwrap();
    for i in 0..500 {
        db.put(format!("key-{i:05}").as_bytes(), b"vvvvvvvv").unwrap();
    }
    db.compact();
    let stats = db.stats();
    assert!(stats.flush_count >= 1);
    assert_eq!(db.get(b"key-00000").unwrap().as_deref(), Some(b"vvvvvvvv".as_ref()));
}

#[test]
fn snapshot_mvcc_read() {
    let mut db = store();
    db.put(b"s", b"v1").unwrap();
    let snap = db.db.snapshot().unwrap();
    db.put(b"s", b"v2").unwrap();
    assert_eq!(db.get(b"s").unwrap().as_deref(), Some(b"v2".as_ref()));
    assert_eq!(
        db.get_snapshot(&snap, b"s").unwrap().as_deref(),
        Some(b"v1".as_ref())
    );
}

#[test]
fn orphan_sst_ignored_without_manifest() {
    let mut dir = {
        let mut db = store();
        db.put(b"k", b"v").unwrap();
        db.flush();
        db.dir
    };
    dir.tables.insert("999999.sst".to_string(), b"garbage".to_vec());
    let mut db = Store::open(dir, Options::for_tests()).unwrap();
    assert_eq!(db.get(b"k").unwrap().as_deref(), Some(b"v".as_ref()));
}

#[test]
fn closed_database_refuses_requests() {
    let mut db = store();
    db.put(b"k", b"v").unwrap();
    db.sync();
    db.db.close();
    assert!(matches!(db.put(b"k", b"w"), Err(Error::Closed)));
    assert!(matches!(db.delete(b"k"), Err(Error::Closed)));
    assert!(matches!(db.get(b"k"), Err(Error::Closed)));
    assert!(matches!(db.db.snapshot(), Err(Error::Closed)));
    // A scan does not ask whether the database is closed.
    assert_eq!(db.scan(Bound::Unbounded).len(), 1);
    // A refused write is counted as user bytes all the same.
    assert_eq!(db.stats().user_bytes, 2 + 2 + 1);
}

#[test]
fn crash_before_the_manifest_knows_the_table() {
    let mut db = store();
    db.put(b"a", b"1").unwrap();
    db.put(b"b", b"2").unwrap();
    db.delete(b"b").unwrap();
    assert!(matches!(db.db.flush(), FlushStep::SyncLog));
    db.sync();
    db.db.freeze();
    match db.db.flush() {
        FlushStep::Write(job) => {
            // Half of the file is on disk when the process dies.
            let half = job.file()[..job.file().len() / 2].to_vec();
            db.dir.tables.insert(table_file_name(job.describe().file_num), half);
        }
        _ => panic!("a table to be written"),
    }
    let mut db = db.reopen(Options::for_tests());
    assert_eq!(db.get(b"a").unwrap().as_deref(), Some(b"1".as_ref()));
    assert_eq!(db.get(b"b").unwrap(), None);
    // The number of the orphan is used again.
    db.flush();
    assert_eq!(db.stats().l0_files, 1);
    assert_eq!(db.get(b"a").unwrap().as_deref(), Some(b"1".as_ref()));
}

#[test]
fn crash_between_manifest_and_log() {
    let mut db = store();
    db.put(b"a", b"1").unwrap();
    db.put(b"b", b"2").unwrap();
    let log = db.dir.log.clone();
    db.flush();
    assert_eq!(db.dir.log, Some(Vec::new()));
    // The log of before the flush is still there.
    db.dir.log = log;
    let mut db = db.reopen(Options::for_tests());
    assert_eq!(db.get(b"a").unwrap().as_deref(), Some(b"1".as_ref()));
    assert_eq!(db.get(b"b").unwrap().as_deref(), Some(b"2".as_ref()));
    db.put(b"a", b"3").unwrap();
    assert_eq!(db.get(b"a").unwrap().as_deref(), Some(b"3".as_ref()));
    assert_eq!(db.scan(Bound::Unbounded).len(), 2);
}

#[test]
fn torn_manifest_of_a_flush_changes_no_read() {
    let mut db = store();
    db.put(b"a", b"1").unwrap();
    db.put(b"b", b"2").unwrap();
    db.delete(b"b").unwrap();
    let log = db.dir.log.clone();
    let before = db.dir.manifest.clone().unwrap().len();
    db.flush();
    let whole = db.dir.manifest.clone().unwrap();
    assert!(before < whole.len());
    let mut dir = db.dir;
    dir.log = log;
    for cut in before..whole.len() + 1 {
        dir.manifest = Some(whole[..cut].to_vec());
        let mut db = Store::open(dir.clone(), Options::for_tests()).unwrap();
        assert_eq!(db.get(b"a").unwrap().as_deref(), Some(b"1".as_ref()));
        assert_eq!(db.get(b"b").unwrap(), None);
        assert_eq!(db.scan(Bound::Unbounded).len(), 1);
        // Work goes on: no number is used twice, and nothing is lost at the next crash.
        db.put(b"c", b"3").unwrap();
        db.flush();
        db.put(b"d", b"4").unwrap();
        let mut db = db.reopen(Options::for_tests());
        let mut nums: Vec<u64> = db.db.scan_tables().iter().map(|t| t.file_num).collect();
        nums.sort();
        nums.dedup();
        assert_eq!(nums.len(), db.db.scan_tables().len());
        let rows = db.scan(Bound::Unbounded);
        assert_eq!(keys(&rows), vec![b"a".as_ref(), b"c", b"d"]);
    }
}

#[test]
fn torn_log_loses_only_the_last_write() {
    let mut db = store();
    db.put(b"a", b"1").unwrap();
    db.put(b"b", b"2").unwrap();
    let whole = db.dir.log.clone().unwrap();
    let mut dir = db.dir;
    for cut in 1..20 {
        dir.log = Some(whole[..whole.len() - cut].to_vec());
        let mut db = Store::open(dir.clone(), Options::for_tests()).unwrap();
        assert_eq!(db.get(b"a").unwrap().as_deref(), Some(b"1".as_ref()));
        assert_eq!(db.get(b"b").unwrap(), None);
    }
}

#[test]
fn write_after_a_torn_log_is_not_lost() {
    let mut db = store();
    db.put(b"a", b"1").unwrap();
    let first = db.dir.log.clone().unwrap().len();
    db.put(b"b", b"2").unwrap();
    let whole = db.dir.log.clone().unwrap();
    let dir = db.dir;
    for cut in first..whole.len() {
        let mut dir = dir.clone();
        dir.log = Some(whole[..cut].to_vec());
        let mut db = Store::open(dir, Options::for_tests()).unwrap();
        db.put(b"k", b"v").unwrap();
        let mut db = db.reopen(Options::for_tests());
        assert_eq!(db.get(b"a").unwrap().as_deref(), Some(b"1".as_ref()));
        assert_eq!(db.get(b"b").unwrap(), None);
        assert_eq!(db.get(b"k").unwrap().as_deref(), Some(b"v".as_ref()));
    }
    // Nothing but a torn record.
    let mut dir = Dir::default();
    dir.log = Some(vec![23]);
    let mut db = Store::open(dir, Options::for_tests()).unwrap();
    db.put(b"k", b"v").unwrap();
    let mut db = db.reopen(Options::for_tests());
    assert_eq!(db.get(b"k").unwrap().as_deref(), Some(b"v".as_ref()));
}

#[test]
fn damaged_files_are_reported() {
    let mut db = store();
    db.put(b"a", b"1").unwrap();
    let mut dir = db.dir.clone();
    let n = dir.log.as_ref().unwrap().len();
    dir.log.as_mut().unwrap()[n - 1] ^= 1;
    match Store::open(dir, Options::for_tests()) {
        Err(Error::Corruption(m)) => assert_eq!(m, "wal checksum mismatch"),
        _ => panic!("a corruption"),
    }
    let mut dir = db.dir.clone();
    let n = dir.manifest.as_ref().unwrap().len();
    dir.manifest.as_mut().unwrap()[n - 1] ^= 1;
    match Store::open(dir, Options::for_tests()) {
        Err(Error::Corruption(m)) => assert_eq!(m, "manifest checksum"),
        _ => panic!("a corruption"),
    }
    db.flush();
    let name = table_file_name(1);
    let mut dir = db.dir.clone();
    dir.tables.insert(name.clone(), vec![0; 10]);
    match Store::open(dir, Options::for_tests()) {
        Err(Error::Corruption(m)) => assert_eq!(m, "sst too small"),
        _ => panic!("a corruption"),
    }
    let mut dir = db.dir.clone();
    dir.tables.insert(name, vec![0; 100]);
    match Store::open(dir, Options::for_tests()) {
        Err(Error::Corruption(m)) => assert_eq!(m, "sst bad magic"),
        _ => panic!("a corruption"),
    }
}

#[test]
fn missing_table_is_skipped() {
    let mut db = store();
    db.put(b"a", b"1").unwrap();
    db.flush();
    db.put(b"b", b"2").unwrap();
    db.flush();
    db.dir.tables.remove(&table_file_name(1));
    let mut db = db.reopen(Options::for_tests());
    assert_eq!(db.stats().l0_files, 1);
    assert_eq!(db.get(b"a").unwrap(), None);
    assert_eq!(db.get(b"b").unwrap().as_deref(), Some(b"2".as_ref()));
}

#[test]
fn scan_merges_all_sources_and_honours_its_start() {
    let mut db = store();
    db.put(b"a", b"old").unwrap();
    db.put(b"b", b"1").unwrap();
    db.put(b"c", b"1").unwrap();
    db.flush();
    db.put(b"a", b"new").unwrap();
    db.delete(b"b").unwrap();
    db.flush();
    db.put(b"d", b"2").unwrap();
    let seq = db.db.snapshot().unwrap().seq;
    db.put(b"c", b"3").unwrap();
    let all = vec![
        (b"a".to_vec(), b"new".to_vec()),
        (b"c".to_vec(), b"3".to_vec()),
        (b"d".to_vec(), b"2".to_vec()),
    ];
    assert_eq!(db.scan(Bound::Unbounded), all);
    assert_eq!(db.scan(Bound::Included(b"c")), all[1..].to_vec());
    assert_eq!(db.scan(Bound::Excluded(b"c")), all[2..].to_vec());
    assert_eq!(db.scan(Bound::Included(b"b")), all[1..].to_vec());
    let before = db.scan_with_seq(Bound::Unbounded, seq);
    assert_eq!(before[1], (b"c".to_vec(), b"1".to_vec()));
    let first = db.scan_with_seq(Bound::Unbounded, 3);
    assert_eq!(keys(&first), vec![b"a".as_ref(), b"b", b"c"]);
    assert_eq!(first[0].1, b"old");
    for (k, v) in db.scan(Bound::Unbounded) {
        assert_eq!(db.get(&k).unwrap(), Some(v));
    }
}

#[test]
fn writers_stall_until_the_background_catches_up() {
    let mut opts = Options::for_tests();
    opts.memtable_bytes = 1;
    let mut db = Store::open(Dir::default(), opts).unwrap();
    // Every write fills the memtable; two may wait.
    db.put(b"a", b"1").unwrap();
    db.put(b"b", b"2").unwrap();
    assert_eq!(db.stats().stall_count, 0);
    assert!(matches!(db.db.put(b"c", b"3"), Ok(WriteStep::Stall)));
    assert!(matches!(db.db.write(b"c", b"3", ValueKind::Put), Ok(WriteStep::Stall)));
    assert_eq!(db.stats().stall_count, 2);
    db.background();
    match db.db.write(b"c", b"3", ValueKind::Put).unwrap() {
        WriteStep::Append(p) => {
            let logged = db.db.log_written(p);
            assert!(db.db.apply_write(logged));
        }
        WriteStep::Stall => panic!("room to write"),
    }
    assert_eq!(db.get(b"c").unwrap().as_deref(), Some(b"3".as_ref()));
    assert_eq!(db.stats().flush_count, 2);
    assert_eq!(db.stats().user_bytes, 6);
}

#[test]
fn level_zero_stalls_at_twice_its_trigger() {
    let mut opts = Options::for_tests();
    opts.l0_compaction_trigger = 1;
    let mut db = Store::open(Dir::default(), opts).unwrap();
    db.put(b"a", b"1").unwrap();
    db.flush();
    db.put(b"b", b"1").unwrap();
    db.flush();
    assert_eq!(db.stats().l0_files, 2);
    assert!(matches!(db.db.put(b"c", b"3"), Ok(WriteStep::Stall)));
}

#[test]
fn compaction_keeps_the_newest_versions() {
    let mut opts = Options::for_tests();
    opts.l0_compaction_trigger = 2;
    opts.target_file_size = 400;
    let mut db = Store::open(Dir::default(), opts).unwrap();
    let mut expected: HashMap<Vec<u8>, Option<Vec<u8>>> = HashMap::new();
    for round in 0..12u32 {
        for i in 0..40u32 {
            let k = format!("k{:03}", (i * 7 + round * 3) % 50).into_bytes();
            if (i + round) % 5 == 0 {
                db.delete(&k).unwrap();
                expected.insert(k, None);
            } else {
                let v = format!("v{round}-{i}").into_bytes();
                db.put(&k, &v).unwrap();
                expected.insert(k, Some(v));
            }
        }
        db.flush();
        if round % 3 == 2 {
            assert!(db.compact() >= 1);
        }
        for (k, v) in &expected {
            assert_eq!(&db.get(k).unwrap(), v);
        }
    }
    assert!(db.stats().compact_count >= 4);
    let live = expected.values().filter(|v| v.is_some()).count();
    assert_eq!(db.scan(Bound::Unbounded).len(), live);
    // What the manifest records is what is there.
    let mut db = db.reopen(opts);
    for (k, v) in &expected {
        assert_eq!(&db.get(k).unwrap(), v);
    }
    assert_eq!(db.scan(Bound::Unbounded).len(), live);
}

#[test]
fn compaction_into_the_last_level_drops_tombstones() {
    let mut opts = Options::for_tests();
    opts.l0_compaction_trigger = 2;
    opts.max_levels = 2;
    let mut db = Store::open(Dir::default(), opts).unwrap();
    db.put(b"a", b"1").unwrap();
    db.put(b"b", b"1").unwrap();
    db.flush();
    db.delete(b"a").unwrap();
    db.flush();
    assert_eq!(db.compact(), 1);
    assert_eq!(db.get(b"a").unwrap(), None);
    let tables = db.db.scan_tables();
    assert_eq!(tables.len(), 1);
    assert_eq!(tables[0].smallest, b"b");
    assert_eq!(tables[0].largest, b"b");
}

#[test]
fn snapshot_holds_back_tombstones() {
    let mut opts = Options::for_tests();
    opts.l0_compaction_trigger = 2;
    opts.max_levels = 2;
    let mut db = Store::open(Dir::default(), opts).unwrap();
    db.put(b"a", b"1").unwrap();
    db.flush();
    let snap = db.db.snapshot().unwrap();
    assert_eq!(db.db.watermark(), 1);
    db.delete(b"a").unwrap();
    db.flush();
    assert_eq!(db.compact(), 1);
    assert_eq!(db.db.scan_tables().len(), 1);
    assert_eq!(db.get(b"a").unwrap(), None);
    assert_eq!(db.get_snapshot(&snap, b"a").unwrap().as_deref(), Some(b"1".as_ref()));
    db.db.release_snapshot(snap);
    assert_eq!(db.db.watermark(), u64::MAX);
}

#[test]
fn snapshots_read_the_same_after_compaction() {
    let mut opts = Options::for_tests();
    opts.l0_compaction_trigger = 2;
    opts.max_levels = 3;
    opts.base_level_bytes = 200;
    opts.level_ratio = 2;
    opts.target_file_size = 60;
    let mut db = Store::open(Dir::default(), opts).unwrap();
    let mut snaps: Vec<(Snapshot, Vec<(Vec<u8>, Vec<u8>)>)> = Vec::new();
    for round in 0..8u32 {
        for i in 0..6u32 {
            if (i + round) % 5 == 0 {
                db.delete(format!("k{i}").as_bytes()).unwrap();
            } else {
                db.put(format!("k{i}").as_bytes(), format!("v{round}").as_bytes()).unwrap();
            }
        }
        if round % 2 == 0 {
            let rows = db.scan(Bound::Unbounded);
            snaps.push((db.db.snapshot().unwrap(), rows));
        }
        db.flush();
        db.compact();
        for (snap, rows) in &snaps {
            for i in 0..6u32 {
                let k = format!("k{i}").into_bytes();
                let v = rows.iter().find(|r| r.0 == k).map(|r| r.1.clone());
                assert_eq!(db.get_snapshot(snap, &k).unwrap(), v);
            }
            assert_eq!(&db.scan_with_seq(Bound::Unbounded, snap.seq), rows);
        }
    }
    assert!(db.stats().compact_count >= 4);
    // Without snapshots only the newest versions are left.
    let rows = db.scan(Bound::Unbounded);
    for (snap, _) in snaps {
        db.db.release_snapshot(snap);
    }
    for _ in 0..2 {
        for i in 0..6u32 {
            db.put(format!("k{i}").as_bytes(), b"last").unwrap();
        }
        db.flush();
    }
    assert!(rows.len() <= 6);
    db.compact();
    let all = db.scan(Bound::Unbounded);
    assert_eq!(all.len(), 6);
    assert!(all.iter().all(|r| r.1 == b"last"));
}

#[test]
fn levels_below_zero_do_not_overlap() {
    let mut opts = Options::for_tests();
    opts.l0_compaction_trigger = 2;
    opts.base_level_bytes = 2000;
    opts.level_ratio = 2;
    opts.target_file_size = 300;
    opts.max_levels = 4;
    let mut db = Store::open(Dir::default(), opts).unwrap();
    for round in 0..10u32 {
        for i in 0..60u32 {
            let k = format!("k{:03}", (i * 11 + round * 17) % 200);
            db.put(k.as_bytes(), format!("{round}").as_bytes()).unwrap();
        }
        db.flush();
        db.compact();
    }
    assert!(db.stats().compact_count > 10);
    let recovered = Manifest::reopen(db.dir.manifest.as_ref().unwrap()).unwrap().unwrap().0;
    for a in &recovered.files {
        for b in &recovered.files {
            if a.level == b.level && a.level > 0 && a.file_num != b.file_num {
                assert!(a.largest < b.smallest || b.largest < a.smallest);
            }
        }
    }
    assert!(recovered.files.iter().any(|f| f.level >= 2));
    let n = db.scan(Bound::Unbounded).len();
    let mut db = db.reopen(opts);
    assert_eq!(db.scan(Bound::Unbounded).len(), n);
}

#[test]
fn fsync_policy_decides_when_the_log_is_synced() {
    for (mode, due) in [(FsyncMode::Always, true), (FsyncMode::Batch, false), (FsyncMode::Never, false)] {
        let mut opts = Options::for_tests();
        opts.fsync = mode;
        let mut db = Store::open(Dir::default(), opts).unwrap();
        match db.db.put(b"a", b"1").unwrap() {
            WriteStep::Append(p) => assert_eq!(db.db.log_written(p).sync_due(), due),
            WriteStep::Stall => panic!("room to write"),
        }
        assert_eq!(db.db.sync_due(), mode != FsyncMode::Never);
    }
}

#[test]
fn stats_count_bytes() {
    let mut db = store();
    db.put(b"ab", b"xyz").unwrap();
    db.delete(b"ab").unwrap();
    db.flush();
    let s = db.stats();
    assert_eq!(s.user_bytes, 7);
    assert_eq!(s.disk_bytes_written, db.dir.tables[&table_file_name(1)].len() as u64);
    assert_eq!((s.flush_count, s.compact_count, s.stall_count, s.l0_files), (1, 0, 0, 1));
}

#[test]
fn new_manifest_starts_with_two_edits() {
    let db = store();
    let s = Manifest::reopen(db.dir.manifest.as_ref().unwrap()).unwrap().unwrap().0;
    assert_eq!((s.files.len(), s.next_file_num, s.last_seq), (0, 1, 0));
}

#[test]
fn empty_memtables_are_not_flushed() {
    let mut db = store();
    db.db.freeze();
    db.put(b"a", b"1").unwrap();
    db.db.freeze();
    db.db.freeze();
    db.flush();
    let s = db.stats();
    assert_eq!((s.flush_count, s.l0_files), (1, 1));
    assert_eq!(db.get(b"a").unwrap().as_deref(), Some(b"1".as_ref()));
}

#[test]
fn write_that_cannot_be_logged_uses_up_its_number() {
    let mut db = store();
    assert!(matches!(db.db.put(b"a", b"lost"), Ok(WriteStep::Append(_))));
    db.put(b"b", b"2").unwrap();
    assert_eq!(db.get(b"a").unwrap(), None);
    assert_eq!(db.db.snapshot().unwrap().seq, 2);
    let mut db = db.reopen(Options::for_tests());
    assert_eq!(db.get(b"a").unwrap(), None);
    assert_eq!(db.get(b"b").unwrap().as_deref(), Some(b"2".as_ref()));
    assert_eq!(db.db.snapshot().unwrap().seq, 2);
}

#[test]
fn crash_in_the_middle_of_a_compaction() {
    let mut opts = Options::for_tests();
    opts.l0_compaction_trigger = 3;
    let mut db = Store::open(Dir::default(), opts).unwrap();
    for round in 0..3u32 {
        for i in 0..10u32 {
            db.put(format!("k{i}").as_bytes(), format!("{round}").as_bytes()).unwrap();
        }
        db.delete(b"k3").unwrap();
        db.flush();
    }
    let before = db.dir.clone();
    assert_eq!(db.compact(), 1);
    // The new tables are there, but the manifest does not know them yet.
    let mut dir = db.dir.clone();
    dir.manifest = before.manifest.clone();
    for (name, bytes) in &before.tables {
        dir.tables.insert(name.clone(), bytes.clone());
    }
    // The manifest knows them, but the old tables are still there.
    let mut late = db.dir.clone();
    for (name, bytes) in &before.tables {
        late.tables.insert(name.clone(), bytes.clone());
    }
    for dir in [before.clone(), dir, late.clone()] {
        let mut db = Store::open(dir, opts).unwrap();
        assert_eq!(db.get(b"k3").unwrap(), None);
        assert_eq!(db.get(b"k4").unwrap().as_deref(), Some(b"2".as_ref()));
        assert_eq!(db.scan(Bound::Unbounded).len(), 9);
    }
    // The manifest breaks off anywhere among the edits of the compaction.
    let start = before.manifest.unwrap().len();
    let whole = late.manifest.clone().unwrap();
    for cut in start..whole.len() + 1 {
        let mut dir = late.clone();
        dir.manifest = Some(whole[..cut].to_vec());
        let mut db = Store::open(dir, opts).unwrap();
        let l0 = db.stats().l0_files;
        assert_eq!(l0, if cut < whole.len() { 3 } else { 0 });
        assert_eq!(db.get(b"k3").unwrap(), None);
        assert_eq!(db.get(b"k4").unwrap().as_deref(), Some(b"2".as_ref()));
        assert_eq!(db.scan(Bound::Unbounded).len(), 9);
        // Work goes on.
        db.put(b"k3", b"back").unwrap();
        db.compact();
        let mut db = db.reopen(opts);
        assert_eq!(db.get(b"k3").unwrap().as_deref(), Some(b"back".as_ref()));
        assert_eq!(db.get(b"k4").unwrap().as_deref(), Some(b"2".as_ref()));
        assert_eq!(db.scan(Bound::Unbounded).len(), 10);
    }
}

#[test]
fn fsync_policy_decides_whether_tables_are_synced() {
    for (fsync, due) in [(FsyncMode::Always, true), (FsyncMode::Batch, true), (FsyncMode::Never, false)] {
        let mut opts = Options::for_tests();
        opts.fsync = fsync;
        let mut db = Store::open(Dir::default(), opts).unwrap();
        assert_eq!(db.db.table_sync_due(), due);
        db.put(b"a", b"1").unwrap();
        db.db.freeze();
        let job = db.next_flush().unwrap();
        assert_eq!(job.sync_due(), due);
        db.write_table(job);
        assert_eq!(db.get(b"a").unwrap().as_deref(), Some(b"1".as_ref()));
    }
}

#[test]
fn flush_ends_only_with_the_table_of_its_memtable() {
    let mut db = store();
    db.put(b"a", b"1").unwrap();
    db.db.freeze();
    db.put(b"b", b"2").unwrap();
    db.db.freeze();
    let stale = db.next_flush().unwrap();
    // The first attempt is given up; the second has another number.
    let job = db.next_flush().unwrap();
    assert!(!db.db.is_flushing(stale.describe()));
    assert!(db.db.is_flushing(job.describe()));
    assert_eq!((stale.describe().file_num, job.describe().file_num), (1, 2));
    db.dir.tables.insert(table_file_name(1), stale.file().to_vec());
    db.dir.tables.insert(table_file_name(2), job.file().to_vec());
    let job = if job.sync_due() { job.synced() } else { job };
    let p = db.db.table_written(job);
    let l = db.db.edits_logged(p);
    let l = if l.sync_due() { db.db.edits_synced(l) } else { l };
    let other = db.dir.open_table(1, b"a", b"a").unwrap().unwrap();
    assert!(!db.db.can_install_flush(&l, &other));
    let other = db.dir.open_table(2, b"a", b"z").unwrap().unwrap();
    assert!(!db.db.can_install_flush(&l, &other));
    let right = db.dir.open_table(2, b"a", b"a").unwrap().unwrap();
    assert!(db.db.can_install_flush(&l, &right));
    // Another memtable waits, so the log is still needed.
    assert!(db.db.install_flush(l, right).is_none());
    assert_eq!(db.get(b"a").unwrap().as_deref(), Some(b"1".as_ref()));
}

#[test]
fn spent_log_is_not_replaced_after_another_write() {
    let mut db = store();
    db.put(b"a", b"1").unwrap();
    db.db.freeze();
    let job = db.next_flush().unwrap();
    db.dir.tables.insert(table_file_name(1), job.file().to_vec());
    let job = if job.sync_due() { job.synced() } else { job };
    let p = db.db.table_written(job);
    db.dir.manifest.as_mut().unwrap().extend_from_slice(p.edits());
    let l = db.db.edits_logged(p);
    let l = if l.sync_due() { db.db.edits_synced(l) } else { l };
    let sst = db.dir.open_table(1, b"a", b"a").unwrap().unwrap();
    let spent = db.db.install_flush(l, sst).unwrap();
    assert!(db.db.can_replace_log(&spent));
    db.put(b"b", b"2").unwrap();
    assert!(!db.db.can_replace_log(&spent));
}

#[test]
fn compaction_is_given_up_if_a_table_has_joined() {
    let mut opts = Options::for_tests();
    opts.l0_compaction_trigger = 2;
    let mut db = Store::open(Dir::default(), opts).unwrap();
    for v in [b"1", b"2"] {
        db.put(b"a", v).unwrap();
        db.flush();
    }
    let job = db.db.maybe_compact().unwrap();
    let mut inputs = Vec::new();
    for t in tables_to_merge(&job) {
        inputs.push(db.blocks(&t));
    }
    let p = db.db.merge_tables(&job, read_inputs(&inputs));
    assert!(db.db.is_current(&p));
    db.put(b"b", b"3").unwrap();
    assert!(db.db.is_current(&p));
    db.flush();
    assert!(!db.db.is_current(&p));
}

#[test]
fn fsync_policy_decides_whether_the_manifest_is_synced() {
    for (fsync, due) in [(FsyncMode::Always, true), (FsyncMode::Batch, true), (FsyncMode::Never, false)] {
        let mut opts = Options::for_tests();
        opts.fsync = fsync;
        let db = Store::open(Dir::default(), opts).unwrap();
        assert_eq!(db.db.manifest_sync_due(), due);
    }
}

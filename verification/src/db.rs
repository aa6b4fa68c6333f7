//! The database: what it decides, and what has to happen on disk in between.
//!
//! A `Db` holds the state of an open database and never touches a file. An operation that needs the
//! disk is a run of steps: a step says what is to be read or written, and the next one is taken
//! once that has happened. If it fails, the next step is not taken.

use crate::codec::{bytes_equal, copy_bytes};
use crate::compact;
use crate::compact::{can_pick, pick_compaction, run_compaction};
use crate::compact::{CompactionJob, CompactionOutput, JobView};
use crate::error;
use crate::error::{Error, Result};
use crate::frame;
use crate::iter;
use crate::iter::MergeIterator;
use crate::key;
use crate::key::{copy_record, InternalKey, KeyView, Record, ValueKind};
use crate::manifest;
use crate::manifest::{apply_edit, EditView, FileMeta, FileView, Manifest, ManifestEdit};
use crate::manifest::{RecoveredState, StateView};
use crate::memtable;
use crate::memtable::{is_at_or_after, Bound, MemTable};
use crate::model;
use crate::model::StartView;
use crate::options::{FsyncMode, Options};
use crate::snapshot;
use crate::snapshot::{Snapshot, SnapshotTracker};
use crate::sstable::block::Block;
use crate::sstable::bloom;
use crate::sstable::builder;
use crate::sstable::builder::SsTableBuilder;
use crate::sstable::reader::{is_visible, BlockRead, Disk, Lookup, SsTable, TableView};
use crate::tree;
use crate::version;
use crate::version::Version;
use crate::wal;
use crate::wal::{Wal, WalView};
use std::sync::Arc;
use vstd::prelude::*;

verus! {

/// The state of an open database.
pub struct DbView {
    pub opts: Options,
    /// The memtable that absorbs writes, and its size.
    pub mem: Seq<Record>,
    pub mem_bytes: usize,
    /// Memtables that wait to be flushed, oldest first.
    pub imms: Seq<Seq<Record>>,
    pub levels: Seq<Seq<TableView>>,
    pub wal: WalView,
    /// The durability policy of the manifest.
    pub manifest_fsync: FsyncMode,
    pub next_seq: u64,
    pub next_file_num: u64,
    /// The table that the oldest waiting memtable is being flushed to.
    pub flushing: Option<FileView>,
    pub snapshots: Seq<u64>,
    pub closed: bool,
    pub flush_count: u64,
    pub compact_count: u64,
    pub stall_count: u64,
    pub user_bytes: u64,
    pub disk_bytes_written: u64,
}

/// What memory holds, in the order in which a reader asks: the memtable, then those that wait to be
/// flushed, newest first.
pub open spec fn memory(v: DbView) -> Seq<Seq<Record>> {
    seq![v.mem] + v.imms.reverse()
}

/// All that the database holds, in the order in which a reader asks.
pub open spec fn sources(v: DbView, disk: Disk) -> Seq<Seq<Record>> {
    memory(v) + tree::table_sources(v.levels, disk)
}

/// What a run of memtables says.
pub open spec fn imms_view(s: Seq<Arc<MemTable>>) -> Seq<Seq<Record>> {
    Seq::new(s.len(), |i: int| s[i]@)
}

/// What an optional file description says.
pub open spec fn option_file_view(o: Option<FileMeta>) -> Option<FileView> {
    match o {
        Some(m) => Some(m@),
        None => None,
    }
}

/// An open database.
pub struct Db {
    opts: Options,
    mem: MemTable,
    imms: Vec<Arc<MemTable>>,
    version: Version,
    wal: Wal,
    next_seq: u64,
    next_file_num: u64,
    flushing: Option<FileMeta>,
    manifest: Manifest,
    snapshots: SnapshotTracker,
    closed: bool,
    flush_count: u64,
    compact_count: u64,
    stall_count: u64,
    user_bytes: u64,
    disk_bytes_written: u64,
}

impl View for Db {
    type V = DbView;

    closed spec fn view(&self) -> DbView {
        DbView {
            opts: self.opts,
            mem: self.mem@,
            mem_bytes: self.mem.size(),
            imms: imms_view(self.imms@),
            levels: self.version@,
            wal: self.wal@,
            manifest_fsync: self.manifest.fsync(),
            next_seq: self.next_seq,
            next_file_num: self.next_file_num,
            flushing: option_file_view(self.flushing),
            snapshots: self.snapshots@,
            closed: self.closed,
            flush_count: self.flush_count,
            compact_count: self.compact_count,
            stall_count: self.stall_count,
            user_bytes: self.user_bytes,
            disk_bytes_written: self.disk_bytes_written,
        }
    }
}

/// The writer has to wait: too many memtables wait to be flushed, or level 0 has too many tables.
pub open spec fn stalls(v: DbView) -> bool {
    v.imms.len() >= 2 || version::l0_count(v.levels) >= v.opts.l0_compaction_trigger * 2
}

/// The counters that an attempt to write touches have room.
pub open spec fn writable(v: DbView) -> bool {
    v.closed || if v.imms.len() >= 2 {
        v.stall_count < u64::MAX
    } else {
        v.opts.l0_compaction_trigger * 2 <= usize::MAX && if stalls(v) {
            v.stall_count < u64::MAX
        } else {
            v.next_seq < u64::MAX
        }
    }
}

/// The state with a key and a value of the given lengths counted as written by the user.
pub open spec fn counted(v: DbView, key_len: nat, value_len: nat) -> DbView {
    DbView {
        user_bytes: v.user_bytes.wrapping_add(key_len as u64).wrapping_add(value_len as u64),
        ..v
    }
}

/// The record that the next write makes.
pub open spec fn next_record(
    v: DbView,
    user_key: Seq<u8>,
    value: Seq<u8>,
    kind: ValueKind,
) -> Record {
    (KeyView { user_key, seq: (v.next_seq + 1) as u64, kind }, value)
}

/// The size of the memtable with one more record.
pub open spec fn grown(mem_bytes: usize, r: Record) -> usize {
    mem_bytes.wrapping_add(r.0.user_key.len() as usize).wrapping_add(
        r.1.len() as usize,
    ).wrapping_add(16)
}

/// The state with one more record in the memtable.
pub open spec fn applied(v: DbView, r: Record) -> DbView {
    DbView {
        mem: model::with_record(v.mem, r.0, r.1),
        mem_bytes: grown(v.mem_bytes, r),
        ..v
    }
}

/// The state with the memtable set aside to be flushed and an empty one in its place.
pub open spec fn frozen(v: DbView) -> DbView {
    DbView { mem: Seq::empty(), mem_bytes: 0, imms: v.imms.push(v.mem), ..v }
}

/// A write that has its place in the order of writes and is still to be logged.
pub struct PendingWrite {
    key: InternalKey,
    value: Vec<u8>,
    frame: Vec<u8>,
}

impl PendingWrite {
    /// The record that is written.
    pub closed spec fn record(&self) -> Record {
        (self.key@, self.value@)
    }

    /// The bytes for the log.
    pub closed spec fn bytes(&self) -> Seq<u8> {
        self.frame@
    }

    /// The bytes to be written at the end of the log, behind its whole records.
    pub fn frame(&self) -> (b: &[u8])
        ensures
            b@ == self.bytes(),
    {
        self.frame.as_slice()
    }
}

/// A write whose bytes are in the log.
pub struct LoggedWrite {
    key: InternalKey,
    value: Vec<u8>,
    sync: bool,
}

impl LoggedWrite {
    /// The record that is written.
    pub closed spec fn record(&self) -> Record {
        (self.key@, self.value@)
    }

    /// The log has to be synced before the write counts.
    pub closed spec fn needs_sync(&self) -> bool {
        self.sync
    }

    /// Whether the log has to be synced before the write counts.
    pub fn sync_due(&self) -> (r: bool)
        ensures
            r == self.needs_sync(),
    {
        self.sync
    }
}

/// What has to happen for a write to go on.
pub enum WriteStep {
    /// Flush and compaction have to catch up; then try again.
    Stall,
    /// The frame has to be written to the log.
    Append(PendingWrite),
}

/// What an attempt to write comes to.
pub open spec fn write_step_is(
    r: Result<WriteStep>,
    before: DbView,
    after: DbView,
    user_key: Seq<u8>,
    value: Seq<u8>,
    kind: ValueKind,
) -> bool {
    match r {
        Err(e) => e is Closed && before.closed && after == before,
        Ok(WriteStep::Stall) => !before.closed && stalls(before) && after == (DbView {
            stall_count: (before.stall_count + 1) as u64,
            ..before
        }),
        Ok(WriteStep::Append(p)) => {
            let rec = next_record(before, user_key, value, kind);
            &&& !before.closed
            &&& !stalls(before)
            &&& after == (DbView { next_seq: (before.next_seq + 1) as u64, ..before })
            &&& p.record() == rec
            &&& p.bytes() == frame::frame_bytes(wal::record_bytes(rec))
        },
    }
}

impl Db {
    /// The memtables are sorted, the tables can be probed, the bookkeeping of the log is in order,
    /// and a table that is being flushed is that of the oldest waiting memtable.
    pub closed spec fn wf(&self) -> bool {
        &&& self.mem.wf()
        &&& forall|i: int| 0 <= i < self.imms@.len() ==> (#[trigger] self.imms@[i]).wf()
        &&& self.version.wf()
        &&& self.wal.wf()
        &&& self.flushing matches Some(m) ==> {
            &&& self.imms@.len() > 0
            &&& self.imms@[0]@.len() > 0
            &&& m@ == flush_meta(self.imms@[0]@, self.opts, m.file_num)
        }
    }

    /// Starts to write a value. Once a `Stall` has been waited out, `write` tries again.
    pub fn put(&mut self, key: &[u8], value: &[u8]) -> (r: Result<WriteStep>)
        requires
            old(self).wf(),
            writable(old(self)@),
        ensures
            final(self).wf(),
            write_step_is(
                r,
                counted(old(self)@, key@.len(), value@.len()),
                final(self)@,
                key@,
                value@,
                ValueKind::Put,
            ),
    {
        self.count_user_bytes(key, value);
        self.write(key, value, ValueKind::Put)
    }

    /// Starts to write a tombstone. Once a `Stall` has been waited out, `write` tries again.
    pub fn delete(&mut self, key: &[u8]) -> (r: Result<WriteStep>)
        requires
            old(self).wf(),
            writable(old(self)@),
        ensures
            final(self).wf(),
            write_step_is(
                r,
                counted(old(self)@, key@.len(), 0),
                final(self)@,
                key@,
                Seq::empty(),
                ValueKind::Delete,
            ),
    {
        let none: Vec<u8> = Vec::new();
        self.count_user_bytes(key, none.as_slice());
        self.write(key, none.as_slice(), ValueKind::Delete)
    }

    fn count_user_bytes(&mut self, key: &[u8], value: &[u8])
        requires
            old(self).wf(),
        ensures
            final(self).wf(),
            final(self)@ == counted(old(self)@, key@.len(), value@.len()),
    {
        self.user_bytes = self.user_bytes.wrapping_add(key.len() as u64).wrapping_add(
            value.len() as u64,
        );
    }

    /// Whether the counters that an attempt to write touches have room.
    pub fn can_write(&self) -> (r: bool)
        ensures
            r == writable(self@),
    {
        if self.closed {
            true
        } else if self.imms.len() >= 2 {
            self.stall_count < u64::MAX
        } else {
            match self.opts.l0_compaction_trigger.checked_mul(2) {
                None => false,
                Some(limit) => if self.version.l0_num_files() >= limit {
                    self.stall_count < u64::MAX
                } else {
                    self.next_seq < u64::MAX
                },
            }
        }
    }

    /// Tries to give a write its place in the order of writes.
    pub fn write(&mut self, key: &[u8], value: &[u8], kind: ValueKind) -> (r: Result<WriteStep>)
        requires
            old(self).wf(),
            writable(old(self)@),
        ensures
            final(self).wf(),
            write_step_is(r, old(self)@, final(self)@, key@, value@, kind),
    {
        if self.closed {
            return Err(Error::Closed);
        }
        if self.imms.len() >= 2 || self.version.l0_num_files() >= self.opts.l0_compaction_trigger
            * 2 {
            self.stall_count = self.stall_count + 1;
            return Ok(WriteStep::Stall);
        }
        self.next_seq = self.next_seq + 1;
        let ik = InternalKey {
            user_key: vstd::slice::slice_to_vec(key),
            seq: self.next_seq,
            kind,
        };
        let frame = self.wal.append(&ik, value);
        let value = vstd::slice::slice_to_vec(value);
        Ok(WriteStep::Append(PendingWrite { key: ik, value, frame }))
    }

    /// The bytes of the write are in the log.
    pub fn log_written(&mut self, p: PendingWrite) -> (l: LoggedWrite)
        requires
            old(self).wf(),
        ensures
            final(self).wf(),
            final(self)@ == (DbView {
                wal: wal::after_append(old(self)@.wal, p.bytes().len()),
                ..old(self)@
            }),
            l.record() == p.record(),
            l.needs_sync() == wal::append_sync_due(final(self)@.wal),
    {
        let n: usize = p.frame.len();
        let sync: bool = self.wal.appended(n);
        LoggedWrite { key: p.key, value: p.value, sync }
    }

    /// The sync that the write asked for has succeeded.
    pub fn log_synced(&mut self, l: LoggedWrite) -> (r: LoggedWrite)
        requires
            old(self).wf(),
            l.needs_sync(),
        ensures
            final(self).wf(),
            final(self)@ == (DbView {
                wal: wal::after_append_sync(old(self)@.wal),
                ..old(self)@
            }),
            r.record() == l.record(),
            !r.needs_sync(),
    {
        self.wal.append_synced();
        LoggedWrite { key: l.key, value: l.value, sync: false }
    }

    /// Makes a logged write visible. Says whether the memtable is full: then the log is to be
    /// synced, and `freeze` follows.
    pub fn apply_write(&mut self, l: LoggedWrite) -> (full: bool)
        requires
            old(self).wf(),
            !l.needs_sync(),
        ensures
            final(self).wf(),
            final(self)@ == applied(old(self)@, l.record()),
            full == (final(self)@.mem_bytes >= final(self)@.opts.memtable_bytes),
    {
        self.mem.put(l.key, l.value);
        self.mem.approx_bytes() >= self.opts.memtable_bytes
    }

    /// Sets the memtable aside to be flushed. The log has been synced before.
    pub fn freeze(&mut self)
        requires
            old(self).wf(),
        ensures
            final(self).wf(),
            final(self)@ == frozen(old(self)@),
    {
        let ghost before = *self;
        let mut full = MemTable::new();
        core::mem::swap(&mut full, &mut self.mem);
        self.imms.push(Arc::new(full));
        proof {
            assert(self@.imms =~= before@.imms.push(before@.mem));
            assert forall|i: int| 0 <= i < self.imms@.len() implies (
            #[trigger] self.imms@[i]).wf() by {
                if i < before.imms@.len() {
                    assert(self.imms@[i] == before.imms@[i]);
                }
            }
        }
    }

    /// Whether a request to sync asks for an fsync of the log at all.
    pub fn sync_due(&self) -> (r: bool)
        ensures
            r == (self@.wal.fsync != crate::options::FsyncMode::Never),
    {
        self.wal.sync_due()
    }

    /// The log has been synced on request.
    pub fn sync(&mut self)
        requires
            old(self).wf(),
        ensures
            final(self).wf(),
            final(self)@ == (DbView { wal: wal::after_sync(old(self)@.wal), ..old(self)@ }),
    {
        self.wal.sync();
    }
}

/// What a read comes to.
pub enum ReadStep {
    /// Memory decides.
    Done(Option<Vec<u8>>),
    /// The tables have to be asked, block by block.
    Tables(Lookup),
}

impl ReadStep {
    /// What the reader will be told in the end, on a disk that gives `disk`.
    pub open spec fn outcome(&self, disk: Disk) -> Option<Seq<u8>> {
        match *self {
            ReadStep::Done(v) => memtable::option_view(v),
            ReadStep::Tables(l) => model::answer(l.outcome(disk)),
        }
    }
}

/// What a read comes to: an error once the database is closed; else what memory says; else a lookup
/// through the tables that may hold the key.
pub open spec fn read_step_is(
    r: Result<ReadStep>,
    v: DbView,
    user_key: Seq<u8>,
    max_seq: u64,
) -> bool {
    let found = model::read(memory(v), user_key, max_seq);
    match r {
        Err(e) => e is Closed && v.closed,
        Ok(ReadStep::Done(a)) => {
            &&& !v.closed
            &&& found is Some
            &&& memtable::option_view(a) == model::answer(found)
        },
        Ok(ReadStep::Tables(l)) => {
            &&& !v.closed
            &&& found is None
            &&& l.user_key() == user_key
            &&& l.max_seq() == max_seq
            &&& l.found() is None
            &&& l.reads() == version::tables_reads(
                version::candidates(v.levels, user_key),
                user_key,
            )
        },
    }
}

/// A read is told what the first source that holds a version of the key says.
pub proof fn law_read_outcome(
    v: DbView,
    step: ReadStep,
    user_key: Seq<u8>,
    max_seq: u64,
    disk: Disk,
)
    requires
        read_step_is(Ok(step), v, user_key, max_seq),
        tree::levels_ok(v.levels, disk),
    ensures
        step.outcome(disk) == model::answer(model::read(sources(v, disk), user_key, max_seq)),
{
    tree::lemma_read_concat(
        memory(v),
        tree::table_sources(v.levels, disk),
        user_key,
        max_seq,
    );
    tree::law_levels_lookup(v.levels, disk, user_key, max_seq);
}

/// What a reader is told of the version that a lookup has found.
pub fn finish_get(l: Lookup) -> (r: Option<Vec<u8>>)
    ensures
        memtable::option_view(r) == model::answer(l.found()),
{
    match l.finish() {
        Some(e) => is_visible(&e),
        None => None,
    }
}

impl Db {
    /// Starts to read a key.
    pub fn get(&self, key: &[u8]) -> (r: Result<ReadStep>)
        requires
            self.wf(),
        ensures
            read_step_is(r, self@, key@, u64::MAX),
    {
        self.get_with_seq(key, u64::MAX)
    }

    /// Starts to read a key as of a sequence number.
    pub fn get_with_seq(&self, key: &[u8], max_seq: u64) -> (r: Result<ReadStep>)
        requires
            self.wf(),
        ensures
            read_step_is(r, self@, key@, max_seq),
    {
        if self.closed {
            return Err(Error::Closed);
        }
        let ghost imms = self@.imms;
        let ghost all = memory(self@);
        proof {
            assert(all[0] == self@.mem);
            assert(all.skip(1) =~= imms.reverse());
        }
        if let Some(e) = self.mem.get(key, max_seq) {
            return Ok(ReadStep::Done(is_visible(&e)));
        }
        let mut i: usize = self.imms.len();
        assert(imms.take(i as int) =~= imms);
        while i > 0
            invariant
                self.wf(),
                !self@.closed,
                imms == self@.imms,
                i <= self.imms@.len(),
                imms.len() == self.imms@.len(),
                model::read(memory(self@), key@, max_seq) == model::read(
                    imms.take(i as int).reverse(),
                    key@,
                    max_seq,
                ),
            decreases i,
        {
            proof {
                let s = imms.take(i as int).reverse();
                assert(s[0] == self.imms@[i - 1]@);
                assert(s.skip(1) =~= imms.take(i - 1).reverse());
            }
            if let Some(e) = self.imms[i - 1].get(key, max_seq) {
                return Ok(ReadStep::Done(is_visible(&e)));
            }
            i = i - 1;
        }
        let tables = self.version.get_sstables_for_key(key);
        let ghost cs = version::tables_view(tables@);
        let mut reads: Vec<BlockRead> = Vec::new();
        let n: usize = tables.len();
        let mut j: usize = 0;
        proof {
            assert(cs.take(0) =~= Seq::<TableView>::empty());
            assert(reads@ =~= version::tables_reads(cs.take(0), key@));
        }
        while j < n
            invariant
                n == tables@.len(),
                cs == version::tables_view(tables@),
                forall|a: int| 0 <= a < n ==> (#[trigger] tables@[a]).wf(),
                j <= n,
                reads@ == version::tables_reads(cs.take(j as int), key@),
            decreases n - j,
        {
            assert(cs[j as int] == tables@[j as int]@);
            tables[j].push_lookup_reads(key, &mut reads);
            proof {
                assert(cs.take(j + 1).drop_last() =~= cs.take(j as int));
                assert(cs.take(j + 1).last() == cs[j as int]);
            }
            j = j + 1;
        }
        assert(cs.take(n as int) =~= cs);
        Ok(ReadStep::Tables(Lookup::new(key, max_seq, reads)))
    }

    /// Starts to read a key as of a snapshot.
    pub fn get_snapshot(&self, snap: &Snapshot, key: &[u8]) -> (r: Result<ReadStep>)
        requires
            self.wf(),
        ensures
            read_step_is(r, self@, key@, snap.seq),
    {
        self.get_with_seq(key, snap.seq)
    }

    /// Opens a snapshot of what has been written so far.
    pub fn snapshot(&mut self) -> (r: Result<Snapshot>)
        requires
            old(self).wf(),
        ensures
            final(self).wf(),
            match r {
                Err(e) => e is Closed && old(self)@.closed && final(self)@ == old(self)@,
                Ok(s) => {
                    &&& !old(self)@.closed
                    &&& s.seq == old(self)@.next_seq
                    &&& final(self)@ == (DbView {
                        snapshots: old(self)@.snapshots.push(s.seq),
                        ..old(self)@
                    })
                },
            },
    {
        if self.closed {
            return Err(Error::Closed);
        }
        let seq: u64 = self.next_seq;
        Ok(self.snapshots.create_snapshot(seq))
    }

    /// Closes a snapshot.
    pub fn release_snapshot(&mut self, snap: Snapshot)
        requires
            old(self).wf(),
        ensures
            final(self).wf(),
            final(self)@ == (DbView {
                snapshots: snapshot::released(old(self)@.snapshots, snap.seq),
                ..old(self)@
            }),
    {
        self.snapshots.release(snap.seq);
    }
}

/// What a scan takes of a memtable: of each user key the newest version that it sees.
pub open spec fn memory_run(s: Seq<Record>, start: StartView, max_seq: u64) -> Seq<Record> {
    model::firsts(model::select(s, start, max_seq), None)
}

/// What a scan takes of each source: memtables first, then the tables whose records are `tables`.
pub open spec fn scan_runs(
    v: DbView,
    tables: Seq<Seq<Record>>,
    start: StartView,
    max_seq: u64,
) -> Seq<Seq<Record>> {
    Seq::new(memory(v).len(), |i: int| memory_run(memory(v)[i], start, max_seq)) + Seq::new(
        tables.len(),
        |i: int| model::select(tables[i], start, max_seq),
    )
}

/// The rows that have a value.
pub open spec fn with_value(rows: Seq<(Seq<u8>, Option<Seq<u8>>)>) -> Seq<(Seq<u8>, Seq<u8>)>
    decreases rows.len(),
{
    if rows.len() == 0 {
        Seq::empty()
    } else {
        let p = with_value(rows.drop_last());
        match rows.last().1 {
            Some(v) => p.push((rows.last().0, v)),
            None => p,
        }
    }
}

/// What a scan comes to, if the tables hold the records of `tables`: of each user key the newest
/// version, unless that is a tombstone.
pub open spec fn scan_rows(
    v: DbView,
    tables: Seq<Seq<Record>>,
    start: StartView,
    max_seq: u64,
) -> Seq<(Seq<u8>, Seq<u8>)> {
    let runs = iter::visible_runs(scan_runs(v, tables, start, max_seq), max_seq);
    with_value(iter::told(iter::newest(runs), true))
}

/// What a run of rows with values says.
pub open spec fn pairs_view(s: Seq<(Vec<u8>, Vec<u8>)>) -> Seq<(Seq<u8>, Seq<u8>)> {
    Seq::new(s.len(), |i: int| (s[i].0@, s[i].1@))
}

/// The records of a run that a scan takes into account.
fn select_entries(
    entries: Vec<(InternalKey, Vec<u8>)>,
    start: &Bound<'_>,
    max_seq: u64,
) -> (out: Vec<(InternalKey, Vec<u8>)>)
    ensures
        key::records_view(out@) == model::select(
            key::records_view(entries@),
            memtable::start_view(*start),
            max_seq,
        ),
{
    let ghost all = key::records_view(entries@);
    let ghost sv = memtable::start_view(*start);
    let mut out: Vec<(InternalKey, Vec<u8>)> = Vec::new();
    let n: usize = entries.len();
    let mut i: usize = 0;
    assert(all.skip(0) =~= all);
    assert(key::records_view(out@) + model::select(all, sv, max_seq) =~= model::select(
        all,
        sv,
        max_seq,
    ));
    while i < n
        invariant
            n == entries@.len(),
            all == key::records_view(entries@),
            sv == memtable::start_view(*start),
            i <= n,
            model::select(all, sv, max_seq) == key::records_view(out@) + model::select(
                all.skip(i as int),
                sv,
                max_seq,
            ),
        decreases n - i,
    {
        let e = &entries[i];
        let ghost x = key::record_view(entries@[i as int]);
        proof {
            assert(all.skip(i as int)[0] == x);
            assert(all.skip(i as int).skip(1) =~= all.skip(i + 1));
        }
        if e.0.seq <= max_seq && is_at_or_after(start, e.0.user_key.as_slice()) {
            let ghost before = key::records_view(out@);
            let c = copy_record(e);
            out.push(c);
            proof {
                assert(key::records_view(out@) =~= before.push(x));
                let rest = model::select(all.skip(i + 1), sv, max_seq);
                assert(before + (seq![x] + rest) =~= before.push(x) + rest);
            }
        }
        i = i + 1;
    }
    assert(all.skip(n as int) =~= Seq::<Record>::empty());
    assert(key::records_view(out@) + Seq::<Record>::empty() =~= key::records_view(out@));
    out
}

impl Db {
    /// The tables that a scan reads, all blocks of each.
    pub fn scan_tables(&self) -> (out: Vec<Arc<SsTable>>)
        ensures
            version::tables_view(out@) == version::flat(self@.levels),
    {
        self.version.all_tables()
    }

    /// All keys from `start` on and their values. `blocks` holds the blocks of the tables that
    /// `scan_tables` names.
    pub fn scan(&self, start: Bound<'_>, blocks: &Vec<Vec<Arc<Block>>>) -> (rows: Vec<
        (Vec<u8>, Vec<u8>),
    >)
        ensures
            pairs_view(rows@) == scan_rows(
                self@,
                compact::inputs_view(blocks@),
                memtable::start_view(start),
                u64::MAX,
            ),
    {
        self.scan_with_seq(start, u64::MAX, blocks)
    }

    /// All keys from `start` on and their values, as of a sequence number. `blocks` holds the
    /// blocks of the tables that `scan_tables` names.
    pub fn scan_with_seq(
        &self,
        start: Bound<'_>,
        max_seq: u64,
        blocks: &Vec<Vec<Arc<Block>>>,
    ) -> (rows: Vec<(Vec<u8>, Vec<u8>)>)
        ensures
            pairs_view(rows@) == scan_rows(
                self@,
                compact::inputs_view(blocks@),
                memtable::start_view(start),
                max_seq,
            ),
    {
        let ghost sv = memtable::start_view(start);
        let ghost mems = memory(self@);
        let ghost tables = compact::inputs_view(blocks@);
        let ghost all = scan_runs(self@, tables, sv, max_seq);
        let mut streams: Vec<Vec<(InternalKey, Vec<u8>)>> = Vec::new();
        streams.push(self.mem.range_from(start, max_seq).collect());
        let n: usize = self.imms.len();
        let mut i: usize = 0;
        assert(iter::runs_view(streams@) =~= all.take(1));
        while i < n
            invariant
                n == self.imms@.len(),
                sv == memtable::start_view(start),
                mems == memory(self@),
                all == scan_runs(self@, tables, sv, max_seq),
                i <= n,
                iter::runs_view(streams@) == all.take(i + 1),
            decreases n - i,
        {
            let items = self.imms[n - 1 - i].range_from(start, max_seq).collect();
            let ghost before = iter::runs_view(streams@);
            streams.push(items);
            proof {
                assert(self@.imms[n - 1 - i] == self.imms@[n - 1 - i]@);
                assert(mems[i + 1] == self.imms@[n - 1 - i]@);
                assert(iter::runs_view(streams@) =~= before.push(all[i + 1]));
                assert(all.take(i + 2) =~= all.take(i + 1).push(all[i + 1]));
            }
            i = i + 1;
        }
        let m: usize = blocks.len();
        let mut j: usize = 0;
        while j < m
            invariant
                m == blocks@.len(),
                n == self.imms@.len(),
                sv == memtable::start_view(start),
                mems == memory(self@),
                tables == compact::inputs_view(blocks@),
                all == scan_runs(self@, tables, sv, max_seq),
                j <= m,
                iter::runs_view(streams@) == all.take(1 + n + j),
            decreases m - j,
        {
            let entries = SsTable::iter_all(&blocks[j]);
            let items = select_entries(entries, &start, max_seq);
            let ghost before = iter::runs_view(streams@);
            streams.push(items);
            proof {
                assert(all[1 + n + j] == model::select(tables[j as int], sv, max_seq));
                assert(iter::runs_view(streams@) =~= before.push(all[1 + n + j]));
                assert(all.take(1 + n + j + 1) =~= all.take(1 + n + j).push(all[1 + n + j]));
            }
            j = j + 1;
        }
        assert(all.take(1 + n + m) =~= all);
        let found = MergeIterator::from_sorted_streams(streams, max_seq, true).collect();
        let ghost rows_all = iter::rows_view(found@);
        let mut rows: Vec<(Vec<u8>, Vec<u8>)> = Vec::new();
        let k: usize = found.len();
        let mut a: usize = 0;
        assert(pairs_view(rows@) =~= with_value(rows_all.take(0)));
        while a < k
            invariant
                k == found@.len(),
                rows_all == iter::rows_view(found@),
                a <= k,
                pairs_view(rows@) == with_value(rows_all.take(a as int)),
            decreases k - a,
        {
            let row = &found[a];
            proof {
                assert(rows_all.take(a + 1).drop_last() =~= rows_all.take(a as int));
                assert(rows_all.take(a + 1).last() == iter::row_view(found@[a as int]));
            }
            if let Some(val) = &row.1 {
                let ghost before = pairs_view(rows@);
                rows.push((copy_bytes(&row.0), copy_bytes(val)));
                assert(pairs_view(rows@) =~= before.push((row.0@, val@)));
            }
            a = a + 1;
        }
        assert(rows_all.take(k as int) =~= rows_all);
        rows
    }
}

/// The memtables that wait to be flushed, without the empty ones in front.
pub open spec fn skip_empty(imms: Seq<Seq<Record>>) -> Seq<Seq<Record>>
    decreases imms.len(),
{
    if imms.len() > 0 && imms[0].len() == 0 {
        skip_empty(imms.skip(1))
    } else {
        imms
    }
}

/// The table of the next flush can be numbered, and its filter laid out.
pub open spec fn flushable(v: DbView) -> bool {
    let imms = skip_empty(v.imms);
    imms.len() > 0 ==> v.next_file_num < u64::MAX && bloom::filter_fits(
        imms[0].len(),
        v.opts.bloom_bits_per_key,
    )
}

/// What the manifest is told of the table that holds the records of `s`, on level 0.
pub open spec fn flush_meta(s: Seq<Record>, opts: Options, file_num: u64) -> FileView {
    FileView {
        file_num,
        level: 0,
        smallest: s[0].0.user_key,
        largest: s.last().0.user_key,
        file_size: builder::table_file(s, opts.block_size, opts.bloom_bits_per_key).len() as u64,
    }
}

/// The edits that make a flushed table part of the database.
pub open spec fn flush_edits(meta: FileView, v: DbView) -> Seq<EditView> {
    seq![
        EditView::AddFile(meta),
        EditView::SetNextFileNum(v.next_file_num),
        EditView::SetLastSeq(v.next_seq),
    ]
}

/// A table to be written: the file, and what the manifest is to be told of it.
#[derive(Debug)]
pub struct FlushJob {
    file: Vec<u8>,
    meta: FileMeta,
    sync: bool,
}

impl FlushJob {
    /// The bytes of the file.
    pub closed spec fn bytes(&self) -> Seq<u8> {
        self.file@
    }

    /// What the manifest is to be told of the table.
    pub closed spec fn meta(&self) -> FileView {
        self.meta@
    }

    /// The file has to be fsynced before the manifest may know of it.
    pub closed spec fn needs_sync(&self) -> bool {
        self.sync
    }

    /// The bytes of the file to be written.
    pub fn file(&self) -> (b: &[u8])
        ensures
            b@ == self.bytes(),
    {
        self.file.as_slice()
    }

    /// What the manifest is to be told of the table.
    pub fn describe(&self) -> (m: &FileMeta)
        ensures
            m@ == self.meta(),
    {
        &self.meta
    }

    /// Whether the file has to be fsynced before the manifest may know of it.
    pub fn sync_due(&self) -> (r: bool)
        ensures
            r == self.needs_sync(),
    {
        self.sync
    }

    /// The file has been written and fsynced.
    pub fn synced(self) -> (r: FlushJob)
        requires
            self.needs_sync(),
        ensures
            r.bytes() == self.bytes(),
            r.meta() == self.meta(),
            !r.needs_sync(),
    {
        FlushJob { file: self.file, meta: self.meta, sync: false }
    }
}

/// A table that is on disk and that the manifest is to be told of.
#[derive(Debug)]
pub struct PendingFlush {
    meta: FileMeta,
    edits: Vec<u8>,
}

impl PendingFlush {
    /// What the manifest is told of the table.
    pub closed spec fn meta(&self) -> FileView {
        self.meta@
    }

    /// The bytes for the manifest.
    pub closed spec fn bytes(&self) -> Seq<u8> {
        self.edits@
    }

    /// The bytes to be written at the end of the manifest.
    pub fn edits(&self) -> (b: &[u8])
        ensures
            b@ == self.bytes(),
    {
        self.edits.as_slice()
    }
}

/// A table that is on disk and that the manifest has been told of.
#[derive(Debug)]
pub struct LoggedFlush {
    meta: FileMeta,
    sync: bool,
}

impl LoggedFlush {
    /// What the manifest has been told of the table.
    pub closed spec fn meta(&self) -> FileView {
        self.meta@
    }

    /// The manifest has to be fsynced before the memtable may go.
    pub closed spec fn needs_sync(&self) -> bool {
        self.sync
    }

    /// What the manifest has been told of the table.
    pub fn describe(&self) -> (m: &FileMeta)
        ensures
            m@ == self.meta(),
    {
        &self.meta
    }

    /// Whether the manifest has to be fsynced before the memtable may go.
    pub fn sync_due(&self) -> (r: bool)
        ensures
            r == self.needs_sync(),
    {
        self.sync
    }
}

/// The log, at a moment when it holds nothing that is still needed.
#[derive(Debug)]
pub struct SpentLog {
    seq: u64,
}

impl SpentLog {
    /// The sequence number of the last write at that moment.
    pub closed spec fn seq(&self) -> u64 {
        self.seq
    }
}

/// What has to happen for a flush to go on.
#[derive(Debug)]
pub enum FlushStep {
    /// The log has to be synced; then `freeze` sets the memtable aside.
    SyncLog,
    /// The table has to be written and, where its job says so, fsynced, and its directory synced.
    Write(FlushJob),
    /// Nothing waits to be flushed.
    Done,
}

/// How the flush of the waiting memtables goes on: empty ones are left out, and the oldest of the
/// others becomes a table with the next file number.
pub open spec fn flush_starts(r: Option<FlushJob>, before: DbView, after: DbView) -> bool {
    let imms = skip_empty(before.imms);
    match r {
        None => imms.len() == 0 && after == (DbView { imms, ..before }),
        Some(job) => {
            &&& imms.len() > 0
            &&& after == (DbView {
                imms,
                next_file_num: (before.next_file_num + 1) as u64,
                flushing: Some(job.meta()),
                ..before
            })
            &&& job.bytes() == builder::table_file(
                imms[0],
                before.opts.block_size,
                before.opts.bloom_bits_per_key,
            )
            &&& job.meta() == flush_meta(imms[0], before.opts, before.next_file_num)
            &&& job.needs_sync() == (before.opts.fsync != FsyncMode::Never)
        },
    }
}

/// The table is the one that the manifest was told of.
pub open spec fn is_table_of_file(t: TableView, m: FileView) -> bool {
    &&& t.file_num == m.file_num
    &&& t.smallest == m.smallest
    &&& t.largest == m.largest
    &&& t.file_size == m.file_size
}

/// The flush of the table that the manifest was told of can be brought to its end with `t`: it is
/// the one under way, `t` is its table, level 0 exists, and the counter has room.
pub open spec fn flush_ends(v: DbView, m: FileView, t: TableView) -> bool {
    &&& v.flushing == Some(m)
    &&& is_table_of_file(t, m)
    &&& v.levels.len() > 0
    &&& v.flush_count < u64::MAX
}

/// The state with the oldest waiting memtable replaced by its table, the newest of level 0.
pub open spec fn flushed(v: DbView, t: TableView) -> DbView {
    DbView {
        imms: v.imms.skip(1),
        levels: v.levels.update(0, v.levels[0].push(t)),
        flushing: None,
        flush_count: (v.flush_count + 1) as u64,
        ..v
    }
}

impl Db {
    /// The next step of a flush: first the memtable is set aside, then the waiting memtables are
    /// written one by one.
    pub fn flush(&mut self) -> (r: FlushStep)
        requires
            old(self).wf(),
            old(self)@.mem.len() == 0 ==> flushable(old(self)@),
        ensures
            final(self).wf(),
            match r {
                FlushStep::SyncLog => old(self)@.mem.len() > 0 && final(self)@ == old(self)@,
                FlushStep::Write(job) => old(self)@.mem.len() == 0 && flush_starts(
                    Some(job),
                    old(self)@,
                    final(self)@,
                ),
                FlushStep::Done => old(self)@.mem.len() == 0 && flush_starts(
                    None,
                    old(self)@,
                    final(self)@,
                ),
            },
    {
        if !self.mem.is_empty() {
            return FlushStep::SyncLog;
        }
        match self.flush_imms() {
            Some(job) => FlushStep::Write(job),
            None => FlushStep::Done,
        }
    }

    /// Whether the table of the next flush can be numbered, and its filter laid out.
    pub fn can_flush(&self) -> (r: bool)
        ensures
            r == flushable(self@),
    {
        let ghost all = self@.imms;
        let n: usize = self.imms.len();
        let mut i: usize = 0;
        assert(all.skip(0) =~= all);
        while i < n
            invariant
                n == self.imms@.len(),
                all == self@.imms,
                i <= n,
                skip_empty(all) == skip_empty(all.skip(i as int)),
            decreases n - i,
        {
            proof {
                assert(all.skip(i as int)[0] == self.imms@[i as int]@);
                assert(all.skip(i as int).skip(1) =~= all.skip(i + 1));
            }
            let len: usize = self.imms[i].len();
            if len > 0 {
                let per_key: usize = if self.opts.bloom_bits_per_key == 0 {
                    1
                } else {
                    self.opts.bloom_bits_per_key
                };
                assert(len * per_key <= u64::MAX * u64::MAX) by (nonlinear_arith)
                    requires
                        len <= u64::MAX,
                        per_key <= u64::MAX,
                ;
                let bits: u128 = len as u128 * per_key as u128;
                return self.next_file_num < u64::MAX && bits + 7 <= usize::MAX as u128;
            }
            i = i + 1;
        }
        true
    }

    /// The next table to be written, if a memtable waits to be flushed.
    pub fn flush_imms(&mut self) -> (r: Option<FlushJob>)
        requires
            old(self).wf(),
            flushable(old(self)@),
        ensures
            final(self).wf(),
            flush_starts(r, old(self)@, final(self)@),
    {
        let ghost v = self@;
        let ghost imms = skip_empty(v.imms);
        while self.imms.len() > 0 && self.imms[0].is_empty()
            invariant
                self.wf(),
                imms == skip_empty(self@.imms),
                self@ == (DbView { imms: self@.imms, ..v }),
            decreases self.imms@.len(),
        {
            let ghost before = *self;
            self.imms.remove(0);
            proof {
                assert(before@.imms[0] == before.imms@[0]@);
                assert(self@.imms =~= before@.imms.skip(1));
                assert forall|i: int| 0 <= i < self.imms@.len() implies (
            #[trigger] self.imms@[i]).wf() by {
                    assert(self.imms@[i] == before.imms@[i + 1]);
                }
            }
        }
        if self.imms.len() == 0 {
            assert(imms =~= Seq::<Seq<Record>>::empty());
            assert(self@.imms =~= imms);
            return None;
        }
        assert(self@.imms[0] == self.imms@[0]@);
        let imm = self.imms[0].clone();
        let file_num: u64 = self.next_file_num;
        self.next_file_num = file_num + 1;
        let mut b = SsTableBuilder::new(self.opts.block_size, self.opts.bloom_bits_per_key);
        let entries = imm.iter();
        let ghost all = imms[0];
        let n: usize = entries.len();
        let mut i: usize = 0;
        assert(b@.records =~= all.take(0));
        while i < n
            invariant
                n == entries@.len(),
                all == key::records_view(entries@),
                b.wf(),
                b@ == (builder::BuilderView {
                    block_size: v.opts.block_size,
                    bits_per_key: v.opts.bloom_bits_per_key,
                    records: all.take(i as int),
                }),
                i <= n,
            decreases n - i,
        {
            let e = &entries[i];
            b.add(&e.0, e.1.as_slice());
            assert(all.take(i + 1) =~= all.take(i as int).push(all[i as int]));
            i = i + 1;
        }
        assert(all.take(n as int) =~= all);
        let (file, meta, sync) = b.finish(self.opts.fsync);
        let fm = FileMeta {
            file_num,
            level: 0,
            smallest: meta.smallest.user_key,
            largest: meta.largest.user_key,
            file_size: meta.file_size,
        };
        self.flushing = Some(fm.clone());
        Some(FlushJob { file, meta: fm, sync })
    }

    /// Whether a table file has to be fsynced once it is written, before the manifest may know of
    /// it.
    pub fn table_sync_due(&self) -> (r: bool)
        ensures
            r == (self@.opts.fsync != FsyncMode::Never),
    {
        self.opts.fsync != FsyncMode::Never
    }

    /// Whether the table of a job is the one that the oldest waiting memtable is being flushed to.
    pub fn is_flushing(&self, m: &FileMeta) -> (r: bool)
        ensures
            r == (self@.flushing == Some(m@)),
    {
        match &self.flushing {
            Some(f) => f.is_same(m),
            None => false,
        }
    }

    /// The file of the table has been written and fsynced, and the directory synced. Gives what is
    /// to be written at the end of the manifest.
    pub fn table_written(&mut self, job: FlushJob) -> (p: PendingFlush)
        requires
            old(self).wf(),
            !job.needs_sync(),
            old(self)@.flushing == Some(job.meta()),
        ensures
            final(self).wf(),
            final(self)@ == (DbView {
                disk_bytes_written: old(self)@.disk_bytes_written.wrapping_add(
                    job.meta().file_size,
                ),
                ..old(self)@
            }),
            p.meta() == job.meta(),
            p.bytes() == manifest::manifest_bytes(flush_edits(job.meta(), old(self)@)),
    {
        self.disk_bytes_written = self.disk_bytes_written.wrapping_add(job.meta.file_size);
        let mut edits: Vec<ManifestEdit> = Vec::new();
        edits.push(ManifestEdit::AddFile(job.meta.clone()));
        edits.push(ManifestEdit::SetNextFileNum(self.next_file_num));
        edits.push(ManifestEdit::SetLastSeq(self.next_seq));
        assert(manifest::edits_view(edits@) =~= flush_edits(job.meta@, old(self)@));
        PendingFlush { meta: job.meta, edits: self.manifest.log(edits.as_slice()) }
    }

    /// The edits of a flush are at the end of the manifest.
    pub fn edits_logged(&self, p: PendingFlush) -> (l: LoggedFlush)
        ensures
            l.meta() == p.meta(),
            l.needs_sync() == (self@.manifest_fsync != FsyncMode::Never),
    {
        LoggedFlush { meta: p.meta, sync: self.manifest.sync_due() }
    }

    /// The fsync of the manifest that a flush asked for has succeeded.
    pub fn edits_synced(&self, l: LoggedFlush) -> (r: LoggedFlush)
        requires
            l.needs_sync(),
        ensures
            r.meta() == l.meta(),
            !r.needs_sync(),
    {
        LoggedFlush { meta: l.meta, sync: false }
    }

    /// Whether what is written to the manifest has to be followed by an fsync of it.
    pub fn manifest_sync_due(&self) -> (r: bool)
        ensures
            r == (self@.manifest_fsync != FsyncMode::Never),
    {
        self.manifest.sync_due()
    }

    /// Whether `install_flush` can go on.
    pub fn can_install_flush(&self, l: &LoggedFlush, sst: &SsTable) -> (r: bool)
        ensures
            r == (!l.needs_sync() && flush_ends(self@, l.meta(), sst@)),
    {
        let m = &l.meta;
        !l.sync && self.is_flushing(m) && sst.file_num == m.file_num && bytes_equal(
            sst.smallest.as_slice(),
            m.smallest.as_slice(),
        ) && bytes_equal(sst.largest.as_slice(), m.largest.as_slice()) && sst.file_size
            == m.file_size && self.version.levels.len() > 0 && self.flush_count < u64::MAX
    }

    /// The manifest knows the table, and the table has been opened: it takes the place of the
    /// memtable that it was made from, the oldest that waits. If the log then holds nothing that is
    /// still needed, it is to be replaced by an empty one, and `log_replaced` follows.
    pub fn install_flush(&mut self, l: LoggedFlush, sst: SsTable) -> (spent: Option<SpentLog>)
        requires
            old(self).wf(),
            sst.wf(),
            !l.needs_sync(),
            flush_ends(old(self)@, l.meta(), sst@),
        ensures
            final(self).wf(),
            old(self)@.imms.len() > 0,
            old(self)@.imms[0].len() > 0,
            l.meta() == flush_meta(old(self)@.imms[0], old(self)@.opts, l.meta().file_num),
            final(self)@ == flushed(old(self)@, sst@),
            match spent {
                Some(k) => final(self)@.imms.len() == 0 && final(self)@.mem.len() == 0 && k.seq()
                    == final(self)@.next_seq,
                None => final(self)@.imms.len() > 0 || final(self)@.mem.len() > 0,
            },
    {
        let ghost before = *self;
        let ghost t = sst@;
        assert(before@.imms[0] == before.imms@[0]@);
        self.version.levels[0].push(Arc::new(sst));
        self.imms.remove(0);
        self.flushing = None;
        self.flush_count = self.flush_count + 1;
        proof {
            let was = before.version.levels@;
            let now = self.version.levels@;
            assert(version::tables_view(now[0]@) =~= version::tables_view(was[0]@).push(t));
            assert(self.version@ =~= before.version@.update(0, before.version@[0].push(t)));
            assert(self@.imms =~= before@.imms.skip(1));
            assert forall|i: int| 0 <= i < self.imms@.len() implies (
            #[trigger] self.imms@[i]).wf() by {
                assert(self.imms@[i] == before.imms@[i + 1]);
            }
            assert forall|l: int, i: int|
                0 <= l < self.version@.len() && 0 <= i < self.version@[l].len() implies bloom::in_bounds(
                (#[trigger] self.version@[l][i]).bloom,
            ) by {
                if l > 0 || i < before.version@[0].len() {
                    assert(self.version@[l][i] == before.version@[l][i]);
                }
            }
        }
        if self.imms.len() == 0 && self.mem.is_empty() {
            Some(SpentLog { seq: self.next_seq })
        } else {
            None
        }
    }

    /// Whether the log still holds nothing that is needed: nothing has been written since.
    pub fn can_replace_log(&self, spent: &SpentLog) -> (r: bool)
        ensures
            r == (spent.seq() == self@.next_seq && self@.imms.len() == 0 && self@.mem.len() == 0),
    {
        spent.seq == self.next_seq && self.imms.len() == 0 && self.mem.is_empty()
    }

    /// The log has been replaced by an empty one.
    pub fn log_replaced(&mut self, spent: SpentLog)
        requires
            old(self).wf(),
            spent.seq() == old(self)@.next_seq,
            old(self)@.imms.len() == 0,
            old(self)@.mem.len() == 0,
        ensures
            final(self).wf(),
            final(self)@ == (DbView {
                wal: WalView { fsync: old(self)@.opts.fsync, pending: 0 },
                ..old(self)@
            }),
    {
        self.wal = Wal::create(self.opts.fsync);
    }
}

/// What the manifest knows of a table on a level.
pub open spec fn file_of(t: TableView, level: int) -> FileView {
    FileView {
        file_num: t.file_num,
        level: level as u32,
        smallest: t.smallest,
        largest: t.largest,
        file_size: t.file_size,
    }
}

/// What the manifest knows of the tables of a level.
pub open spec fn files_of(s: Seq<TableView>, level: int) -> Seq<FileView> {
    Seq::new(s.len(), |i: int| file_of(s[i], level))
}

/// What the manifest knows of all tables, level by level.
pub open spec fn level_files(levels: Seq<Seq<TableView>>) -> Seq<FileView>
    decreases levels.len(),
{
    if levels.len() == 0 {
        Seq::empty()
    } else {
        level_files(levels.drop_last()) + files_of(levels.last(), levels.len() - 1)
    }
}

/// The files of the database once `edits` have been carried out.
pub open spec fn files_after(v: DbView, edits: Seq<EditView>) -> Seq<FileView> {
    manifest::apply_all(
        StateView {
            files: level_files(v.levels),
            next_file_num: v.next_file_num,
            last_seq: v.next_seq,
        },
        edits,
    ).files
}

/// Bytes in a run of files, added to a counter that wraps around.
pub open spec fn bytes_added(n: u64, files: Seq<FileView>) -> u64
    decreases files.len(),
{
    if files.len() == 0 {
        n
    } else {
        bytes_added(n, files.drop_last()).wrapping_add(files.last().file_size)
    }
}

/// The numbers of the files that edits delete.
pub open spec fn deleted_files(edits: Seq<EditView>) -> Seq<u64>
    decreases edits.len(),
{
    if edits.len() == 0 {
        Seq::empty()
    } else {
        let p = deleted_files(edits.drop_last());
        match edits.last() {
            EditView::DeleteFile { level: _, file_num } => p.push(file_num),
            _ => p,
        }
    }
}

/// The records of each file that a compaction puts out, if its tables hold the records of `runs`.
pub open spec fn merged_files(v: DbView, job: JobView, runs: Seq<Seq<Record>>) -> Seq<Seq<Record>> {
    compact::compacted(job.level, runs, v.opts, snapshot::watermark_of(v.snapshots))
}

/// What the manifest is told of the files that a compaction puts out.
pub open spec fn merged_metas(v: DbView, job: JobView, runs: Seq<Seq<Record>>) -> Seq<FileView> {
    compact::output_metas(merged_files(v, job, runs), v.opts, job.level, v.next_file_num)
}

/// The files that a compaction puts out can be numbered, and their filters laid out.
pub open spec fn mergeable(v: DbView, job: JobView, runs: Seq<Seq<Record>>) -> bool {
    job.level < u32::MAX && compact::outputs_fit(
        merged_files(v, job, runs),
        v.opts.bloom_bits_per_key,
        v.next_file_num,
    )
}

/// What changes whenever a table joins or leaves the database, or a file number is given out.
#[derive(Debug, Clone, Copy, PartialEq, Eq, Structural)]
pub struct Stamp {
    pub flush_count: u64,
    pub compact_count: u64,
    pub next_file_num: u64,
}

/// The stamp of a state.
pub open spec fn stamp_of(v: DbView) -> Stamp {
    Stamp {
        flush_count: v.flush_count,
        compact_count: v.compact_count,
        next_file_num: v.next_file_num,
    }
}

/// A compaction whose output is to be written.
#[derive(Debug)]
pub struct PendingCompaction {
    output: CompactionOutput,
    next_file_num: u64,
    stamp: Stamp,
}

impl PendingCompaction {
    /// What the manifest is to be told, but for the next file number.
    pub closed spec fn edits(&self) -> Seq<EditView> {
        manifest::edits_view(self.output.edits@)
    }

    /// What the manifest is to be told of the new files.
    pub closed spec fn metas(&self) -> Seq<FileView> {
        manifest::files_view(self.output.new_metas@)
    }

    /// The bytes of the new files.
    pub closed spec fn files(&self) -> Seq<Seq<u8>> {
        compact::bytes_view(self.output.files@)
    }

    /// The first file number that is free behind the new files.
    pub closed spec fn next_number(&self) -> u64 {
        self.next_file_num
    }

    /// The new files have to be fsynced before the manifest may know of them.
    pub closed spec fn needs_sync(&self) -> bool {
        self.output.sync
    }

    /// The state that the compaction was made from.
    pub closed spec fn stamp(&self) -> Stamp {
        self.stamp
    }

    /// What the manifest is to be told of the new files.
    pub fn new_metas(&self) -> (m: &Vec<FileMeta>)
        ensures
            manifest::files_view(m@) == self.metas(),
    {
        &self.output.new_metas
    }

    /// The bytes of the new files.
    pub fn new_files(&self) -> (f: &Vec<Vec<u8>>)
        ensures
            compact::bytes_view(f@) == self.files(),
    {
        &self.output.files
    }

    /// Whether the new files have to be fsynced before the manifest may know of them.
    pub fn sync_due(&self) -> (r: bool)
        ensures
            r == self.needs_sync(),
    {
        self.output.sync
    }

    /// The new files have been written and fsynced.
    pub fn synced(self) -> (r: PendingCompaction)
        requires
            self.needs_sync(),
        ensures
            r.edits() == self.edits(),
            r.metas() == self.metas(),
            r.files() == self.files(),
            r.next_number() == self.next_number(),
            r.stamp() == self.stamp(),
            !r.needs_sync(),
    {
        let mut p = self;
        p.output.sync = false;
        p
    }
}

/// A compaction whose files are on disk and that the manifest is to be told of.
#[derive(Debug)]
pub struct WrittenCompaction {
    edits: Vec<ManifestEdit>,
    bytes: Vec<u8>,
    next_file_num: u64,
    stamp: Stamp,
}

impl WrittenCompaction {
    /// What the manifest is told.
    pub closed spec fn edits(&self) -> Seq<EditView> {
        manifest::edits_view(self.edits@)
    }

    /// The bytes for the manifest.
    pub closed spec fn bytes(&self) -> Seq<u8> {
        self.bytes@
    }

    /// The first file number that is free behind the new files.
    pub closed spec fn next_number(&self) -> u64 {
        self.next_file_num
    }

    /// The state that the compaction was made from.
    pub closed spec fn stamp(&self) -> Stamp {
        self.stamp
    }

    /// The bytes to be written at the end of the manifest.
    pub fn log_bytes(&self) -> (b: &[u8])
        ensures
            b@ == self.bytes(),
    {
        self.bytes.as_slice()
    }
}

/// A compaction whose files are on disk and that the manifest has been told of.
#[derive(Debug)]
pub struct LoggedCompaction {
    edits: Vec<ManifestEdit>,
    next_file_num: u64,
    stamp: Stamp,
    sync: bool,
}

impl LoggedCompaction {
    /// What the manifest has been told.
    pub closed spec fn edits(&self) -> Seq<EditView> {
        manifest::edits_view(self.edits@)
    }

    /// The first file number that is free behind the new files.
    pub closed spec fn next_number(&self) -> u64 {
        self.next_file_num
    }

    /// The state that the compaction was made from.
    pub closed spec fn stamp(&self) -> Stamp {
        self.stamp
    }

    /// The manifest has to be fsynced before the inputs may go.
    pub closed spec fn needs_sync(&self) -> bool {
        self.sync
    }

    /// Whether the manifest has to be fsynced before the inputs may go.
    pub fn sync_due(&self) -> (r: bool)
        ensures
            r == self.needs_sync(),
    {
        self.sync
    }
}

/// A compaction that is in the manifest, and the files that now make up the database.
#[derive(Debug)]
pub struct CompactionFiles {
    edits: Vec<ManifestEdit>,
    files: Vec<FileMeta>,
    stamp: Stamp,
}

impl CompactionFiles {
    /// What the manifest has been told.
    pub closed spec fn edits(&self) -> Seq<EditView> {
        manifest::edits_view(self.edits@)
    }

    /// The files that now make up the database.
    pub closed spec fn files(&self) -> Seq<FileView> {
        manifest::files_view(self.files@)
    }

    /// The state that the files were listed in.
    pub closed spec fn stamp(&self) -> Stamp {
        self.stamp
    }

    /// The files that now make up the database, which are to be opened anew.
    pub fn to_open(&self) -> (f: &Vec<FileMeta>)
        ensures
            manifest::files_view(f@) == self.files(),
    {
        &self.files
    }
}

/// Each table that has been opened is the one of its file.
pub open spec fn opened_from(opened: Seq<Option<TableView>>, files: Seq<FileView>) -> bool {
    &&& opened.len() == files.len()
    &&& forall|i: int|
        0 <= i < opened.len() ==> ((#[trigger] opened[i]) matches Some(t) ==> t.file_num
            == files[i].file_num)
}

/// How many rounds of compaction one request asks for at most.
pub const COMPACT_ROUNDS: usize = 64;

/// What the manifest knows of all tables, level by level.
pub fn collect_file_metas(version: &Version) -> (out: Vec<FileMeta>)
    ensures
        manifest::files_view(out@) == level_files(version@),
{
    let mut out: Vec<FileMeta> = Vec::new();
    let ghost all = version@;
    let n: usize = version.levels.len();
    let mut l: usize = 0;
    assert(manifest::files_view(out@) =~= level_files(all.take(0)));
    while l < n
        invariant
            n == version.levels@.len(),
            all == version@,
            l <= n,
            manifest::files_view(out@) == level_files(all.take(l as int)),
        decreases n - l,
    {
        let tables = &version.levels[l];
        let ghost before = manifest::files_view(out@);
        let ghost fs = files_of(all[l as int], l as int);
        let k: usize = tables.len();
        let mut i: usize = 0;
        assert(before + fs.take(0) =~= before);
        while i < k
            invariant
                k == tables@.len(),
                l < n,
                all[l as int] == version::tables_view(tables@),
                fs == files_of(all[l as int], l as int),
                i <= k,
                manifest::files_view(out@) == before + fs.take(i as int),
            decreases k - i,
        {
            let t = &tables[i];
            let ghost cur = manifest::files_view(out@);
            let m = FileMeta {
                file_num: t.file_num,
                level: l as u32,
                smallest: copy_bytes(&t.smallest),
                largest: copy_bytes(&t.largest),
                file_size: t.file_size,
            };
            out.push(m);
            proof {
                assert(all[l as int][i as int] == t@);
                assert(m@ == fs[i as int]);
                assert(manifest::files_view(out@) =~= cur.push(fs[i as int]));
                assert(manifest::files_view(out@) =~= before + fs.take(i + 1));
            }
            i = i + 1;
        }
        proof {
            assert(fs.take(k as int) =~= fs);
            assert(all.take(l + 1).drop_last() =~= all.take(l as int));
            assert(all.take(l + 1).last() == all[l as int]);
        }
        l = l + 1;
    }
    assert(all.take(n as int) =~= all);
    out
}

impl Db {
    /// The next round of a request to compact, after `rounds` of them: the compaction that is due,
    /// until none is or the request has had all its rounds. The request starts with a flush.
    pub fn compact(&self, rounds: usize) -> (r: Option<CompactionJob>)
        requires
            rounds < COMPACT_ROUNDS ==> compact::pickable(self@.levels, self@.opts),
        ensures
            match r {
                Some(job) => rounds < COMPACT_ROUNDS && compact::job_for(self@.levels, self@.opts)
                    == Some(job@),
                None => rounds >= COMPACT_ROUNDS || compact::job_for(self@.levels, self@.opts)
                    is None,
            },
            r is Some <==> rounds < 64 && compact::job_for(self@.levels, self@.opts) is Some,
    {
        if rounds >= COMPACT_ROUNDS {
            None
        } else {
            self.maybe_compact()
        }
    }

    /// Whether the search for a compaction meets neither a missing level nor a limit that
    /// overflows.
    pub fn can_pick(&self) -> (r: bool)
        ensures
            r == compact::pickable(self@.levels, self@.opts),
    {
        can_pick(&self.version, &self.opts)
    }

    /// The compaction that is due, if any.
    pub fn maybe_compact(&self) -> (r: Option<CompactionJob>)
        requires
            compact::pickable(self@.levels, self@.opts),
        ensures
            match r {
                Some(job) => compact::job_for(self@.levels, self@.opts) == Some(job@),
                None => compact::job_for(self@.levels, self@.opts) is None,
            },
    {
        pick_compaction(&self.version, &self.opts)
    }

    /// The sequence number of the oldest open snapshot: what a newer version up to it hides may go.
    pub fn watermark(&self) -> (w: u64)
        ensures
            w == snapshot::watermark_of(self@.snapshots),
    {
        self.snapshots.watermark()
    }

    /// Whether there is room for whatever compaction of `streams` can put out.
    pub fn can_merge(&self, job: &CompactionJob, streams: &Vec<Vec<(InternalKey, Vec<u8>)>>) -> (r:
        bool)
        ensures
            r == (job.level < u32::MAX && self@.next_file_num + iter::total(
                iter::runs_view(streams@),
            ) <= u64::MAX && bloom::filter_fits(
                iter::total(iter::runs_view(streams@)),
                self@.opts.bloom_bits_per_key,
            )),
            r ==> mergeable(self@, job@, iter::runs_view(streams@)),
    {
        let w: u64 = self.snapshots.watermark();
        let room: bool = compact::has_room(streams, job.level, &self.opts, self.next_file_num, w);
        job.level < u32::MAX as usize && room
    }

    /// Merges the tables of a job. `streams` holds their entries, newer tables first.
    pub fn merge_tables(&self, job: &CompactionJob, streams: Vec<Vec<(InternalKey, Vec<u8>)>>) -> (p:
        PendingCompaction)
        requires
            streams@.len() == compact::job_tables(job@).len(),
            mergeable(self@, job@, iter::runs_view(streams@)),
        ensures
            ({
                let files = merged_files(self@, job@, iter::runs_view(streams@));
                let metas = merged_metas(self@, job@, iter::runs_view(streams@));
                &&& p.next_number() == self@.next_file_num + files.len()
                &&& p.metas() == metas
                &&& p.files() == compact::output_bytes(files, self@.opts)
                &&& p.edits() == compact::additions(metas) + compact::deletions(job@)
                &&& p.needs_sync() == (self@.opts.fsync != FsyncMode::Never)
                &&& p.stamp() == stamp_of(self@)
            }),
    {
        let w: u64 = self.snapshots.watermark();
        let mut next: u64 = self.next_file_num;
        let output = run_compaction(job, streams, &self.opts, &mut next, w);
        PendingCompaction { output, next_file_num: next, stamp: self.stamp() }
    }

    fn stamp(&self) -> (r: Stamp)
        ensures
            r == stamp_of(self@),
    {
        Stamp {
            flush_count: self.flush_count,
            compact_count: self.compact_count,
            next_file_num: self.next_file_num,
        }
    }

    /// Whether no table has joined or left the database, and no file number has been given out,
    /// since a compaction was made.
    pub fn is_current(&self, p: &PendingCompaction) -> (r: bool)
        ensures
            r == (p.stamp() == stamp_of(self@)),
    {
        p.stamp == self.stamp()
    }

    /// The files of a compaction have been written and fsynced, and the directory synced. Gives
    /// what is to be written at the end of the manifest.
    pub fn outputs_written(&mut self, p: PendingCompaction) -> (w: WrittenCompaction)
        requires
            old(self).wf(),
            !p.needs_sync(),
            p.stamp() == stamp_of(old(self)@),
        ensures
            final(self).wf(),
            final(self)@ == (DbView {
                disk_bytes_written: bytes_added(old(self)@.disk_bytes_written, p.metas()),
                ..old(self)@
            }),
            w.edits() == p.edits().push(EditView::SetNextFileNum(p.next_number())),
            w.bytes() == manifest::manifest_bytes(w.edits()),
            w.next_number() == p.next_number(),
            w.stamp() == p.stamp(),
    {
        let ghost all = manifest::files_view(p.output.new_metas@);
        let ghost start = self.disk_bytes_written;
        let n: usize = p.output.new_metas.len();
        let mut i: usize = 0;
        let mut sum: u64 = self.disk_bytes_written;
        assert(all.take(0) =~= Seq::<FileView>::empty());
        while i < n
            invariant
                n == p.output.new_metas@.len(),
                all == manifest::files_view(p.output.new_metas@),
                i <= n,
                sum == bytes_added(start, all.take(i as int)),
            decreases n - i,
        {
            proof {
                assert(all.take(i + 1).drop_last() =~= all.take(i as int));
                assert(all.take(i + 1).last() == p.output.new_metas@[i as int]@);
            }
            sum = sum.wrapping_add(p.output.new_metas[i].file_size);
            i = i + 1;
        }
        assert(all.take(n as int) =~= all);
        self.disk_bytes_written = sum;
        let next: u64 = p.next_file_num;
        let ghost before = p.edits();
        let mut edits = p.output.edits;
        edits.push(ManifestEdit::SetNextFileNum(next));
        assert(manifest::edits_view(edits@) =~= before.push(EditView::SetNextFileNum(next)));
        let bytes = self.manifest.log(edits.as_slice());
        WrittenCompaction { edits, bytes, next_file_num: next, stamp: p.stamp }
    }

    /// The edits of a compaction are at the end of the manifest.
    pub fn compaction_logged(&self, w: WrittenCompaction) -> (l: LoggedCompaction)
        ensures
            l.edits() == w.edits(),
            l.next_number() == w.next_number(),
            l.stamp() == w.stamp(),
            l.needs_sync() == (self@.manifest_fsync != FsyncMode::Never),
    {
        let sync: bool = self.manifest.sync_due();
        LoggedCompaction { edits: w.edits, next_file_num: w.next_file_num, stamp: w.stamp, sync }
    }

    /// The fsync of the manifest that a compaction asked for has succeeded.
    pub fn compaction_synced(&self, l: LoggedCompaction) -> (r: LoggedCompaction)
        requires
            l.needs_sync(),
        ensures
            r.edits() == l.edits(),
            r.next_number() == l.next_number(),
            r.stamp() == l.stamp(),
            !r.needs_sync(),
    {
        let mut r = l;
        r.sync = false;
        r
    }

    /// Whether `outputs_logged` can go on.
    pub fn can_list_outputs(&self, l: &LoggedCompaction) -> (r: bool)
        ensures
            r == (!l.needs_sync() && l.stamp() == stamp_of(self@)),
    {
        !l.sync && l.stamp == self.stamp()
    }

    /// The manifest has been written. Gives the files that now make up the database, which are to
    /// be opened anew.
    pub fn outputs_logged(&mut self, l: LoggedCompaction) -> (c: CompactionFiles)
        requires
            old(self).wf(),
            !l.needs_sync(),
            l.stamp() == stamp_of(old(self)@),
        ensures
            final(self).wf(),
            final(self)@ == (DbView { next_file_num: l.next_number(), ..old(self)@ }),
            c.edits() == l.edits(),
            c.files() == files_after(old(self)@, l.edits()),
            c.stamp() == stamp_of(final(self)@),
    {
        let mut state = RecoveredState {
            files: collect_file_metas(&self.version),
            next_file_num: self.next_file_num,
            last_seq: self.next_seq,
        };
        let ghost start = state@;
        let ghost all = manifest::edits_view(l.edits@);
        let n: usize = l.edits.len();
        let mut i: usize = 0;
        assert(all.take(0) =~= Seq::<EditView>::empty());
        while i < n
            invariant
                n == l.edits@.len(),
                all == manifest::edits_view(l.edits@),
                i <= n,
                state@ == manifest::apply_all(start, all.take(i as int)),
            decreases n - i,
        {
            let e = l.edits[i].clone();
            proof {
                assert(all.take(i + 1).drop_last() =~= all.take(i as int));
                assert(all.take(i + 1).last() == e@);
            }
            apply_edit(&mut state, e);
            i = i + 1;
        }
        assert(all.take(n as int) =~= all);
        self.next_file_num = l.next_file_num;
        CompactionFiles { edits: l.edits, files: state.files, stamp: self.stamp() }
    }

    /// The files that make up the database have been opened: `opened[i]` is the table of the file
    /// that `c` lists there, or `None` where that file does not exist. Gives the numbers of the
    /// files that are not needed any more.
    pub fn install_compaction(&mut self, c: CompactionFiles, opened: Vec<Option<SsTable>>) -> (
        obsolete: Vec<u64>)
        requires
            old(self).wf(),
            c.stamp() == stamp_of(old(self)@),
            opened_from(version::opened_view(opened@), c.files()),
            forall|i: int|
                0 <= i < opened@.len() ==> ((#[trigger] opened@[i]) matches Some(t) ==> t.wf()),
            old(self)@.compact_count < u64::MAX,
        ensures
            final(self).wf(),
            final(self)@ == (DbView {
                levels: version::levels_of(
                    c.files(),
                    version::opened_view(opened@),
                    old(self)@.opts.max_levels as nat,
                ),
                compact_count: (old(self)@.compact_count + 1) as u64,
                ..old(self)@
            }),
            obsolete@ == deleted_files(c.edits()),
    {
        assert(c.files().len() == c.files@.len());
        self.version = Version::from_metas(&c.files, opened, self.opts.max_levels);
        self.compact_count = self.compact_count + 1;
        let mut obsolete: Vec<u64> = Vec::new();
        let ghost all = manifest::edits_view(c.edits@);
        let n: usize = c.edits.len();
        let mut i: usize = 0;
        assert(all.take(0) =~= Seq::<EditView>::empty());
        while i < n
            invariant
                n == c.edits@.len(),
                all == manifest::edits_view(c.edits@),
                i <= n,
                obsolete@ == deleted_files(all.take(i as int)),
            decreases n - i,
        {
            let e = &c.edits[i];
            proof {
                assert(all.take(i + 1).drop_last() =~= all.take(i as int));
                assert(all.take(i + 1).last() == e@);
            }
            if let ManifestEdit::DeleteFile { level: _, file_num } = e {
                obsolete.push(*file_num);
            }
            i = i + 1;
        }
        assert(all.take(n as int) =~= all);
        obsolete
    }

    /// Whether `install_compaction` can go on.
    pub fn can_install_compaction(&self, c: &CompactionFiles, opened: &Vec<Option<SsTable>>) -> (r:
        bool)
        ensures
            r == (c.stamp() == stamp_of(self@) && opened_from(
                version::opened_view(opened@),
                c.files(),
            ) && self@.compact_count < u64::MAX),
    {
        let ghost os = version::opened_view(opened@);
        let ghost fs = c.files();
        assert(fs.len() == c.files@.len());
        let n: usize = opened.len();
        if n != c.files.len() {
            return false;
        }
        let mut i: usize = 0;
        while i < n
            invariant
                n == opened@.len(),
                n == c.files@.len(),
                os == version::opened_view(opened@),
                fs == c.files(),
                i <= n,
                forall|j: int|
                    0 <= j < i ==> ((#[trigger] os[j]) matches Some(t) ==> t.file_num
                        == fs[j].file_num),
            decreases n - i,
        {
            if let Some(t) = &opened[i] {
                assert(os[i as int] == Some(t@));
                assert(fs[i as int] == c.files@[i as int]@);
                if t.file_num != c.files[i].file_num {
                    return false;
                }
            }
            i = i + 1;
        }
        c.stamp == self.stamp() && self.compact_count < u64::MAX
    }
}

/// A memtable that took the given writes, one after the other.
pub open spec fn memtable_of(writes: Seq<Record>) -> Seq<Record>
    decreases writes.len(),
{
    if writes.len() == 0 {
        Seq::empty()
    } else {
        model::with_record(memtable_of(writes.drop_last()), writes.last().0, writes.last().1)
    }
}

/// The size of a memtable that took the given writes.
pub open spec fn memtable_bytes(writes: Seq<Record>) -> usize
    decreases writes.len(),
{
    if writes.len() == 0 {
        0
    } else {
        grown(memtable_bytes(writes.drop_last()), writes.last())
    }
}

/// The largest of a sequence number and those of the given writes.
pub open spec fn largest_seq(start: u64, writes: Seq<Record>) -> u64
    decreases writes.len(),
{
    if writes.len() == 0 {
        start
    } else {
        let m = largest_seq(start, writes.drop_last());
        if writes.last().0.seq > m {
            writes.last().0.seq
        } else {
            m
        }
    }
}

/// The least number from `n` on that is above those of all files; the largest there is if a file
/// has that one.
pub open spec fn free_number(n: u64, files: Seq<FileView>) -> u64
    decreases files.len(),
{
    if files.len() == 0 {
        n
    } else {
        let m = free_number(n, files.drop_last());
        let f = files.last().file_num;
        if f < m {
            m
        } else if f < u64::MAX {
            (f + 1) as u64
        } else {
            u64::MAX
        }
    }
}

/// A number above those of all files.
fn find_free_number(n: u64, files: &Vec<FileMeta>) -> (r: u64)
    ensures
        r == free_number(n, manifest::files_view(files@)),
{
    let ghost all = manifest::files_view(files@);
    let k: usize = files.len();
    let mut m: u64 = n;
    let mut i: usize = 0;
    assert(all.take(0) =~= Seq::<FileView>::empty());
    while i < k
        invariant
            k == files@.len(),
            all == manifest::files_view(files@),
            i <= k,
            m == free_number(n, all.take(i as int)),
        decreases k - i,
    {
        proof {
            assert(all.take(i + 1).drop_last() =~= all.take(i as int));
            assert(all.take(i + 1).last() == files@[i as int]@);
        }
        let f: u64 = files[i].file_num;
        if f >= m {
            m = f.saturating_add(1);
        }
        i = i + 1;
    }
    assert(all.take(k as int) =~= all);
    m
}

/// The state of a database that has just been opened: the manifest gave `state`, its files gave
/// the tables `opened`, and the log gave `writes`.
pub open spec fn opened_db(
    opts: Options,
    state: StateView,
    opened: Seq<Option<TableView>>,
    writes: Seq<Record>,
) -> DbView {
    DbView {
        opts,
        mem: memtable_of(writes),
        mem_bytes: memtable_bytes(writes),
        imms: Seq::empty(),
        levels: version::levels_of(state.files, opened, opts.max_levels as nat),
        wal: WalView { fsync: opts.fsync, pending: 0 },
        manifest_fsync: opts.fsync,
        next_seq: largest_seq(state.last_seq, writes),
        next_file_num: free_number(
            if state.next_file_num == 0 {
                1
            } else {
                state.next_file_num
            },
            state.files,
        ),
        flushing: None,
        snapshots: Seq::empty(),
        closed: false,
        flush_count: 0,
        compact_count: 0,
        stall_count: 0,
        user_bytes: 0,
        disk_bytes_written: 0,
    }
}

/// The first edits of a new manifest.
pub open spec fn first_edits(v: DbView) -> Seq<EditView> {
    seq![EditView::SetNextFileNum(v.next_file_num), EditView::SetLastSeq(v.next_seq)]
}

/// Figures about the work that the database has done.
#[derive(Debug, Clone, Copy)]
pub struct DbStats {
    pub flush_count: u64,
    pub compact_count: u64,
    pub stall_count: u64,
    pub l0_files: usize,
    pub user_bytes: u64,
    pub disk_bytes_written: u64,
}

impl Db {
    /// Opens a database from what its manifest gave, from the tables of its files (`opened[i]` is
    /// the table of `recovered.files[i]`, or `None` where that file does not exist), and from the
    /// bytes of its log. If there was no manifest, also gives the first bytes of one. Before anything
    /// is written to the log or the manifest, the log is to be cut to `Wal::intact_len`, and the
    /// manifest to the length that `Manifest::reopen` gave.
    pub fn open(
        opts: Options,
        recovered: RecoveredState,
        opened: Vec<Option<SsTable>>,
        log: &[u8],
        has_manifest: bool,
    ) -> (r: Result<(Self, Vec<u8>)>)
        requires
            opened@.len() == recovered@.files.len(),
            forall|i: int|
                0 <= i < opened@.len() ==> ((#[trigger] opened@[i]) matches Some(t) ==> t.wf()),
        ensures
            match r {
                Ok((db, bytes)) => {
                    &&& wal::recover_log(log@) matches Ok(writes)
                    &&& db.wf()
                    &&& db@ == opened_db(opts, recovered@, version::opened_view(opened@), writes)
                    &&& bytes@ == (if has_manifest {
                        Seq::empty()
                    } else {
                        manifest::manifest_bytes(first_edits(db@))
                    })
                },
                Err(e) => wal::recover_log(log@) is Err && error::is_corruption(
                    e,
                    wal::recover_log(log@)->Err_0,
                ),
            },
    {
        assert(recovered@.files.len() == recovered.files@.len());
        let version = Version::from_metas(&recovered.files, opened, opts.max_levels);
        let first: u64 = if recovered.next_file_num == 0 {
            1
        } else {
            recovered.next_file_num
        };
        let next_file_num: u64 = find_free_number(first, &recovered.files);
        let mut next_seq: u64 = recovered.last_seq;
        let entries = match Wal::recover(log) {
            Ok(v) => v,
            Err(e) => {
                return Err(e);
            },
        };
        let ghost writes = key::records_view(entries@);
        let mut mem = MemTable::new();
        let n: usize = entries.len();
        let mut i: usize = 0;
        assert(writes.take(0) =~= Seq::<Record>::empty());
        while i < n
            invariant
                n == entries@.len(),
                writes == key::records_view(entries@),
                i <= n,
                mem.wf(),
                mem@ == memtable_of(writes.take(i as int)),
                mem.size() == memtable_bytes(writes.take(i as int)),
                next_seq == largest_seq(recovered.last_seq, writes.take(i as int)),
            decreases n - i,
        {
            let (k, v) = copy_record(&entries[i]);
            proof {
                assert(writes.take(i + 1).drop_last() =~= writes.take(i as int));
                assert(writes.take(i + 1).last() == (k@, v@));
            }
            if k.seq > next_seq {
                next_seq = k.seq;
            }
            mem.put(k, v);
            i = i + 1;
        }
        assert(writes.take(n as int) =~= writes);
        let manifest = if has_manifest {
            Manifest::open(opts.fsync)
        } else {
            Manifest::create(opts.fsync)
        };
        let mut bytes: Vec<u8> = Vec::new();
        if !has_manifest {
            let mut edits: Vec<ManifestEdit> = Vec::new();
            edits.push(ManifestEdit::SetNextFileNum(next_file_num));
            edits.push(ManifestEdit::SetLastSeq(next_seq));
            bytes = manifest.log(edits.as_slice());
            assert(manifest::edits_view(edits@) =~= seq![
                EditView::SetNextFileNum(next_file_num),
                EditView::SetLastSeq(next_seq),
            ]);
        }
        let db = Self {
            opts,
            mem,
            imms: Vec::new(),
            version,
            wal: Wal::open_append(opts.fsync),
            next_seq,
            next_file_num,
            flushing: None,
            manifest,
            snapshots: SnapshotTracker::new(),
            closed: false,
            flush_count: 0,
            compact_count: 0,
            stall_count: 0,
            user_bytes: 0,
            disk_bytes_written: 0,
        };
        assert(db@.imms =~= Seq::<Seq<Record>>::empty());
        Ok((db, bytes))
    }

    pub fn stats(&self) -> (s: DbStats)
        ensures
            s.flush_count == self@.flush_count,
            s.compact_count == self@.compact_count,
            s.stall_count == self@.stall_count,
            s.l0_files == version::l0_count(self@.levels),
            s.user_bytes == self@.user_bytes,
            s.disk_bytes_written == self@.disk_bytes_written,
    {
        DbStats {
            flush_count: self.flush_count,
            compact_count: self.compact_count,
            stall_count: self.stall_count,
            l0_files: self.version.l0_num_files(),
            user_bytes: self.user_bytes,
            disk_bytes_written: self.disk_bytes_written,
        }
    }

    /// Refuses all further requests. The log has been synced before.
    pub fn close(&mut self)
        requires
            old(self).wf(),
        ensures
            final(self).wf(),
            final(self)@ == (DbView { closed: true, ..old(self)@ }),
    {
        self.closed = true;
    }
}

} // verus!

//! What the operations of an open database do, in terms of what they are given and what they give.

use crate::codec;
use crate::compact;
use crate::compact::{pick_compaction, run_compaction, CompactionJob, CompactionOutput, JobView};
use crate::db;
use crate::db::{CompactionFiles, Db, DbStats, DbView, FlushJob, FlushStep, LoggedCompaction};
use crate::db::{LoggedFlush, LoggedWrite, PendingCompaction, PendingFlush, PendingWrite, ReadStep};
use crate::db::{SpentLog, WriteStep, WrittenCompaction};
use crate::error::Result;
use crate::frame;
use crate::iter;
use crate::key::{InternalKey, Record, ValueKind};
use crate::laws::answers;
use crate::laws::coherence;
use crate::laws::filters;
use crate::laws::jobs;
use crate::laws::merging;
use crate::laws::opening;
use crate::laws::outputs;
use crate::laws::pacing;
use crate::laws::scans;
use crate::laws::soundness;
use crate::laws::writes;
use crate::manifest;
use crate::manifest::{EditView, FileMeta, RecoveredState};
use crate::memtable;
use crate::memtable::Bound;
use crate::model;
use crate::options::{FsyncMode, Options};
use crate::snapshot;
use crate::snapshot::Snapshot;
use crate::sstable::block::Block;
use crate::sstable::builder;
use crate::sstable::contents;
use crate::sstable::reader::{Disk, SsTable, TableView};
use crate::tree;
use crate::version;
use crate::version::Version;
use crate::wal;
use crate::wal::{Wal, WalView};
use std::sync::Arc;
use vstd::prelude::*;

verus! {

/// A write is taken in.
pub open spec fn taken(r: Result<WriteStep>) -> bool {
    r matches Ok(WriteStep::Append(_))
}

/// The record of a write, and the frame that is logged for it.
pub open spec fn logs(p: PendingWrite, user_key: Seq<u8>, seq: int, kind: ValueKind, value: Seq<u8>) -> bool {
    &&& p.record().0.user_key == user_key
    &&& p.record().0.seq == seq
    &&& p.record().0.kind == kind
    &&& p.record().1 == value
    &&& p.bytes() == frame::frame_bytes(wal::record_bytes(p.record()))
}

/// Nothing but fewer than two waiting memtables and fewer than twice the tables that make a
/// compaction due are needed for an open database to take a write in.
pub open spec fn has_room(v: DbView) -> bool {
    !v.closed && v.imms.len() < 2 && pacing::level0_below(v, 2 * v.opts.l0_compaction_trigger)
}

/// What `put` does.
pub proof fn law_put(d: &mut Db, key: &[u8], value: &[u8], r: Result<WriteStep>)
    requires
        call_ensures(Db::put, (d, key, value), r),
        old(d)@.next_seq < u64::MAX,
        old(d)@.stall_count < u64::MAX,
    ensures
        r is Err <==> old(d)@.closed,
        taken(r) <==> has_room(old(d)@),
        r matches Ok(WriteStep::Append(p)) ==> logs(
            p,
            key@,
            old(d)@.next_seq + 1,
            ValueKind::Put,
            value@,
        ),
        taken(r) ==> final(d)@.next_seq == old(d)@.next_seq + 1,
        final(d)@.mem == old(d)@.mem,
        final(d)@.imms == old(d)@.imms,
        final(d)@.levels == old(d)@.levels,
        final(d)@.snapshots == old(d)@.snapshots,
        !taken(r) && old(d)@.opts.l0_compaction_trigger > 0 && !old(d)@.closed
            ==> old(d)@.imms.len() >= 2 || compact::job_for(old(d)@.levels, old(d)@.opts) is Some,
{
}

/// What `delete` does.
pub proof fn law_delete(d: &mut Db, key: &[u8], r: Result<WriteStep>)
    requires
        call_ensures(Db::delete, (d, key), r),
        old(d)@.next_seq < u64::MAX,
        old(d)@.stall_count < u64::MAX,
    ensures
        r is Err <==> old(d)@.closed,
        taken(r) <==> has_room(old(d)@),
        r matches Ok(WriteStep::Append(p)) ==> logs(
            p,
            key@,
            old(d)@.next_seq + 1,
            ValueKind::Delete,
            Seq::empty(),
        ),
        taken(r) ==> final(d)@.next_seq == old(d)@.next_seq + 1,
        final(d)@.mem == old(d)@.mem,
        final(d)@.imms == old(d)@.imms,
        final(d)@.levels == old(d)@.levels,
        final(d)@.snapshots == old(d)@.snapshots,
        !taken(r) && old(d)@.opts.l0_compaction_trigger > 0 && !old(d)@.closed
            ==> old(d)@.imms.len() >= 2 || compact::job_for(old(d)@.levels, old(d)@.opts) is Some,
{
}

/// What `write` does.
pub proof fn law_write(d: &mut Db, key: &[u8], value: &[u8], kind: ValueKind, r: Result<WriteStep>)
    requires
        call_ensures(Db::write, (d, key, value, kind), r),
        old(d)@.next_seq < u64::MAX,
        old(d)@.stall_count < u64::MAX,
    ensures
        r is Err <==> old(d)@.closed,
        taken(r) <==> has_room(old(d)@),
        r matches Ok(WriteStep::Append(p)) ==> logs(p, key@, old(d)@.next_seq + 1, kind, value@),
        taken(r) ==> final(d)@.next_seq == old(d)@.next_seq + 1,
        r matches Ok(WriteStep::Stall) ==> final(d)@.stall_count == old(d)@.stall_count + 1,
        final(d)@.mem == old(d)@.mem,
        final(d)@.imms == old(d)@.imms,
        final(d)@.levels == old(d)@.levels,
        final(d)@.user_bytes == old(d)@.user_bytes,
        !taken(r) && old(d)@.opts.l0_compaction_trigger > 0 && !old(d)@.closed
            ==> old(d)@.imms.len() >= 2 || compact::job_for(old(d)@.levels, old(d)@.opts) is Some,
{
}

/// What appending to the log asks for: in mode `Always` an fsync each time, in mode `Never` none,
/// and in mode `Batch` one as soon as 256 KiB are pending; and what it counts as pending.
pub proof fn law_appended(w: &mut Wal, n: usize, sync: bool)
    requires
        call_ensures(Wal::appended, (w, n), sync),
    ensures
        old(w)@.fsync == FsyncMode::Always ==> sync,
        old(w)@.fsync == FsyncMode::Never ==> !sync,
        old(w)@.fsync == FsyncMode::Batch ==> (sync <==> old(w)@.pending + n >= 256 * 1024),
        final(w)@.fsync == old(w)@.fsync,
        old(w)@.pending + n <= usize::MAX ==> final(w)@.pending == old(w)@.pending + n,
{
}

/// What an fsync settles: after it nothing is pending in mode `Batch`.
pub proof fn law_append_synced(w: &mut Wal)
    requires
        call_ensures(Wal::append_synced, (w,), ()),
    ensures
        old(w)@.fsync == FsyncMode::Batch ==> final(w)@.pending == 0,
        final(w)@.fsync == old(w)@.fsync,
{
}

/// What a requested sync settles: after it nothing is pending, but in mode `Never` nothing is done.
pub proof fn law_log_sync(w: &mut Wal, due: bool)
    requires
        call_ensures(Wal::sync, (w,), ()),
        call_ensures(Wal::sync_due, (old(w),), due),
    ensures
        due <==> old(w)@.fsync != FsyncMode::Never,
        due ==> final(w)@.pending == 0,
        !due ==> final(w)@ == old(w)@,
        final(w)@.fsync == old(w)@.fsync,
{
}

/// What `log_written` says: whether the write has to wait for an fsync, as the mode of the log
/// asks.
pub proof fn law_log_written(d: &mut Db, p: PendingWrite, l: LoggedWrite, due: bool)
    requires
        call_ensures(Db::log_written, (d, p), l),
        call_ensures(LoggedWrite::sync_due, (&l,), due),
    ensures
        old(d)@.wal.fsync == FsyncMode::Always ==> due,
        old(d)@.wal.fsync == FsyncMode::Never ==> !due,
        old(d)@.wal.fsync == FsyncMode::Batch ==> (due <==> old(d)@.wal.pending + p.bytes().len()
            >= 256 * 1024),
        due <==> l.needs_sync(),
        l.record() == p.record(),
        final(d)@ == (DbView { wal: final(d)@.wal, ..old(d)@ }),
        final(d)@.wal.fsync == old(d)@.wal.fsync,
{
}

/// What `log_synced` does: the write waits for nothing more.
pub proof fn law_log_synced(d: &mut Db, l: LoggedWrite, m: LoggedWrite)
    requires
        call_ensures(Db::log_synced, (d, l), m),
    ensures
        !m.needs_sync(),
        m.record() == l.record(),
        old(d)@.wal.fsync == FsyncMode::Batch ==> final(d)@.wal.pending == 0,
        final(d)@ == (DbView { wal: final(d)@.wal, ..old(d)@ }),
        final(d)@.wal.fsync == old(d)@.wal.fsync,
{
}

/// What `apply_write` does: readers who see the write are told of it, all others what they were
/// told before; and the memtable is full as soon as keys, values and sixteen bytes for each write
/// reach the size that the options name.
pub proof fn law_apply_write(
    d: &mut Db,
    l: LoggedWrite,
    full: bool,
    disk: Disk,
    user_key: Seq<u8>,
    max_seq: u64,
)
    requires
        call_ensures(Db::apply_write, (d, l), full),
        coherence::coherent(db::sources(old(d)@, disk)),
        l.record().0.seq > 0,
        writes::seqs_up_to(db::sources(old(d)@, disk), (l.record().0.seq - 1) as u64),
    ensures
        ({
            let r = l.record();
            let v = old(d)@;
            let w = final(d)@;
            &&& model::read(db::sources(w, disk), user_key, max_seq) == if user_key
                == r.0.user_key && r.0.seq <= max_seq {
                Some(r)
            } else {
                model::read(db::sources(v, disk), user_key, max_seq)
            }
            &&& full <==> w.mem_bytes >= v.opts.memtable_bytes
            &&& v.mem_bytes + r.0.user_key.len() + r.1.len() + 16 <= usize::MAX ==> w.mem_bytes
                == v.mem_bytes + r.0.user_key.len() + r.1.len() + 16
            &&& w == (DbView { mem: w.mem, mem_bytes: w.mem_bytes, ..v })
        }),
{
    let r = l.record();
    let v = DbView { next_seq: (r.0.seq - 1) as u64, ..old(d)@ };
    assert(db::sources(v, disk) =~= db::sources(old(d)@, disk));
    writes::law_write_is_read(v, disk, r, user_key, max_seq);
    assert(db::sources(db::applied(v, r), disk) =~= db::sources(final(d)@, disk));
}

/// What `freeze` does.
pub proof fn law_freeze(d: &mut Db)
    requires
        call_ensures(Db::freeze, (d,), ()),
    ensures
        final(d)@.imms == old(d)@.imms.push(old(d)@.mem),
        final(d)@.mem.len() == 0,
        final(d)@.mem_bytes == 0,
        final(d)@ == (DbView {
            imms: final(d)@.imms,
            mem: final(d)@.mem,
            mem_bytes: final(d)@.mem_bytes,
            ..old(d)@
        }),
{
}

/// What a read comes to: refused if the database is closed; else, once the blocks that it asks for
/// have been handed over, the newest version of the key, up to a sequence number, of all that
/// memory and tables hold.
pub open spec fn tells_newest(
    r: Result<ReadStep>,
    v: DbView,
    disk: Disk,
    user_key: Seq<u8>,
    max_seq: u64,
    value: Seq<u8>,
) -> bool {
    &&& r is Err <==> v.closed
    &&& r matches Ok(step) ==> (step.outcome(disk) == Some(value) <==> answers::has_value(
        v,
        disk,
        user_key,
        max_seq,
        value,
    ))
}

/// What `get` tells.
pub proof fn law_get(d: &Db, key: &[u8], r: Result<ReadStep>, disk: Disk, value: Seq<u8>)
    requires
        call_ensures(Db::get, (d, key), r),
        soundness::sound(d@, disk),
    ensures
        tells_newest(r, d@, disk, key@, u64::MAX, value),
{
    if let Ok(step) = r {
        answers::law_read_tells_newest(d@, disk, step, key@, u64::MAX, value);
    }
}

/// What `get_with_seq` tells.
pub proof fn law_get_with_seq(
    d: &Db,
    key: &[u8],
    max_seq: u64,
    r: Result<ReadStep>,
    disk: Disk,
    value: Seq<u8>,
)
    requires
        call_ensures(Db::get_with_seq, (d, key, max_seq), r),
        soundness::sound(d@, disk),
    ensures
        tells_newest(r, d@, disk, key@, max_seq, value),
{
    if let Ok(step) = r {
        answers::law_read_tells_newest(d@, disk, step, key@, max_seq, value);
    }
}

/// What `get_snapshot` tells.
pub proof fn law_get_snapshot(
    d: &Db,
    snap: &Snapshot,
    key: &[u8],
    r: Result<ReadStep>,
    disk: Disk,
    value: Seq<u8>,
)
    requires
        call_ensures(Db::get_snapshot, (d, snap, key), r),
        soundness::sound(d@, disk),
    ensures
        tells_newest(r, d@, disk, key@, snap.seq, value),
{
    if let Ok(step) = r {
        answers::law_read_tells_newest(d@, disk, step, key@, snap.seq, value);
    }
}

/// What `snapshot` gives: the last sequence number, which is kept among those of the open
/// snapshots.
pub proof fn law_snapshot(d: &mut Db, r: Result<Snapshot>)
    requires
        call_ensures(Db::snapshot, (d,), r),
    ensures
        r is Err <==> old(d)@.closed,
        r is Err ==> final(d)@ == old(d)@,
        r matches Ok(s) ==> {
            &&& s.seq == old(d)@.next_seq
            &&& final(d)@.snapshots == old(d)@.snapshots.push(old(d)@.next_seq)
            &&& final(d)@ == (DbView { snapshots: final(d)@.snapshots, ..old(d)@ })
        },
{
}

/// What `release_snapshot` does: one snapshot at that sequence number is open no more, and all
/// others still are.
pub proof fn law_release_snapshot(d: &mut Db, snap: Snapshot)
    requires
        call_ensures(Db::release_snapshot, (d, snap), ()),
    ensures
        old(d)@.snapshots.contains(snap.seq) ==> final(d)@.snapshots.to_multiset()
            == old(d)@.snapshots.to_multiset().remove(snap.seq),
        !old(d)@.snapshots.contains(snap.seq) ==> final(d)@.snapshots == old(d)@.snapshots,
        final(d)@ == (DbView { snapshots: final(d)@.snapshots, ..old(d)@ }),
{
    snapshot::law_release_closes_one(old(d)@.snapshots, snap.seq);
}

/// What `watermark` gives: the oldest of the open snapshots, or the largest number if none is open.
pub proof fn law_watermark(d: &Db, w: u64)
    requires
        call_ensures(Db::watermark, (d,), w),
    ensures
        forall|i: int| 0 <= i < d@.snapshots.len() ==> w <= #[trigger] d@.snapshots[i],
        d@.snapshots.len() > 0 ==> d@.snapshots.contains(w),
        d@.snapshots.len() == 0 ==> w == u64::MAX,
{
    snapshot::law_watermark_is_oldest(d@.snapshots);
}

/// A scan that starts at `start` comes past the key.
pub open spec fn after_start(start: Bound<'_>, user_key: Seq<u8>) -> bool {
    match start {
        Bound::Included(k) => k@ == user_key || codec::bytes_lt(k@, user_key),
        Bound::Excluded(k) => codec::bytes_lt(k@, user_key),
        Bound::Unbounded => true,
    }
}

/// What `scan_with_seq` gives, if it is handed the blocks of all tables as they are on disk:
/// exactly the keys from its start on that have a value, with that value, in the order of the keys.
pub proof fn law_scan_with_seq(
    d: &Db,
    start: Bound<'_>,
    max_seq: u64,
    blocks: &Vec<Vec<Arc<Block>>>,
    rows: Vec<(Vec<u8>, Vec<u8>)>,
    disk: Disk,
    user_key: Seq<u8>,
    value: Seq<u8>,
)
    requires
        call_ensures(Db::scan_with_seq, (d, start, max_seq, blocks), rows),
        soundness::sound(d@, disk),
        compact::inputs_view(blocks@) == tree::each_contents(version::flat(d@.levels), disk),
    ensures
        (exists|i: int|
            0 <= i < rows@.len() && (#[trigger] rows@[i]).0@ == user_key && rows@[i].1@ == value)
            <==> after_start(start, user_key) && answers::has_value(
            d@,
            disk,
            user_key,
            max_seq,
            value,
        ),
        forall|i: int, j: int|
            0 <= i < j < rows@.len() ==> codec::bytes_lt(
                (#[trigger] rows@[i]).0@,
                (#[trigger] rows@[j]).0@,
            ),
{
    let sv = memtable::start_view(start);
    answers::law_scan_tells_newest(d@, disk, sv, max_seq, user_key, value);
    let all = db::pairs_view(rows@);
    lemma_pairs(rows@, user_key, value);
    assert forall|i: int, j: int| 0 <= i < j < rows@.len() implies codec::bytes_lt(
        (#[trigger] rows@[i]).0@,
        (#[trigger] rows@[j]).0@,
    ) by {
        assert(all[i].0 == rows@[i].0@ && all[j].0 == rows@[j].0@);
    }
}

/// What `scan` gives: the same, of all that has been written.
pub proof fn law_scan(
    d: &Db,
    start: Bound<'_>,
    blocks: &Vec<Vec<Arc<Block>>>,
    rows: Vec<(Vec<u8>, Vec<u8>)>,
    disk: Disk,
    user_key: Seq<u8>,
    value: Seq<u8>,
)
    requires
        call_ensures(Db::scan, (d, start, blocks), rows),
        soundness::sound(d@, disk),
        compact::inputs_view(blocks@) == tree::each_contents(version::flat(d@.levels), disk),
    ensures
        (exists|i: int|
            0 <= i < rows@.len() && (#[trigger] rows@[i]).0@ == user_key && rows@[i].1@ == value)
            <==> after_start(start, user_key) && answers::has_value(
            d@,
            disk,
            user_key,
            u64::MAX,
            value,
        ),
{
    let sv = memtable::start_view(start);
    answers::law_scan_tells_newest(d@, disk, sv, u64::MAX, user_key, value);
    lemma_pairs(rows@, user_key, value);
}

proof fn lemma_pairs(rows: Seq<(Vec<u8>, Vec<u8>)>, user_key: Seq<u8>, value: Seq<u8>)
    ensures
        db::pairs_view(rows).contains((user_key, value)) <==> exists|i: int|
            0 <= i < rows.len() && (#[trigger] rows[i]).0@ == user_key && rows[i].1@ == value,
{
    let all = db::pairs_view(rows);
    if all.contains((user_key, value)) {
        let i = choose|i: int| 0 <= i < all.len() && all[i] == (user_key, value);
        assert(rows[i].0@ == user_key);
    }
    if exists|i: int|
        0 <= i < rows.len() && (#[trigger] rows[i]).0@ == user_key && rows[i].1@ == value {
        let i = choose|i: int|
            0 <= i < rows.len() && (#[trigger] rows[i]).0@ == user_key && rows[i].1@ == value;
        assert(all[i] == (user_key, value));
    }
}

/// What `scan_tables` names: the tables of all levels, and no others.
pub proof fn law_scan_tables(d: &Db, out: Vec<Arc<SsTable>>, t: TableView)
    requires
        call_ensures(Db::scan_tables, (d,), out),
    ensures
        version::tables_view(out@).contains(t) <==> exists|l: int|
            0 <= l < d@.levels.len() && (#[trigger] d@.levels[l]).contains(t),
{
    scans::lemma_flat(d@.levels, t);
}

/// The job of a flush: the table of the oldest memtable that is not empty, under the next file
/// number, to be fsynced unless the mode is `Never`.
pub open spec fn writes_oldest(job: FlushJob, v: DbView, k: int) -> bool {
    &&& 0 <= k < v.imms.len()
    &&& v.imms[k].len() > 0
    &&& forall|i: int| 0 <= i < k ==> (#[trigger] v.imms[i]).len() == 0
    &&& job.bytes() == builder::table_file(
        v.imms[k],
        v.opts.block_size,
        v.opts.bloom_bits_per_key,
    )
    &&& job.meta().file_num == v.next_file_num
    &&& job.meta().level == 0
    &&& job.meta().smallest == v.imms[k][0].0.user_key
    &&& job.meta().largest == v.imms[k][v.imms[k].len() - 1].0.user_key
    &&& job.needs_sync() <==> v.opts.fsync != FsyncMode::Never
}

/// What `flush_imms` does.
pub proof fn law_flush_imms(d: &mut Db, r: Option<FlushJob>)
    requires
        call_ensures(Db::flush_imms, (d,), r),
        old(d)@.next_file_num < u64::MAX,
    ensures
        r is None ==> forall|i: int|
            0 <= i < old(d)@.imms.len() ==> (#[trigger] old(d)@.imms[i]).len() == 0,
        r is None ==> final(d)@.imms.len() == 0 && final(d)@.next_file_num
            == old(d)@.next_file_num,
        r matches Some(job) ==> {
            &&& exists|k: int| #[trigger]
                writes_oldest(job, old(d)@, k) && final(d)@.imms == old(d)@.imms.skip(k)
            &&& final(d)@.next_file_num == old(d)@.next_file_num + 1
            &&& final(d)@.flushing == Some(job.meta())
        },
        final(d)@.mem == old(d)@.mem,
        final(d)@.levels == old(d)@.levels,
        final(d)@.wal == old(d)@.wal,
{
    let k = opening::law_flush_takes_the_oldest(r, old(d)@, final(d)@);
    if let Some(job) = r {
        assert(writes_oldest(job, old(d)@, k));
    }
}

/// What `flush` does: while the memtable holds something, the log is synced first; then it goes on
/// as `flush_imms` does.
pub proof fn law_flush(d: &mut Db, r: FlushStep)
    requires
        call_ensures(Db::flush, (d,), r),
    ensures
        r matches FlushStep::SyncLog <==> old(d)@.mem.len() > 0,
        r matches FlushStep::SyncLog ==> final(d)@ == old(d)@,
        r matches FlushStep::Write(job) ==> db::flush_starts(Some(job), old(d)@, final(d)@),
        r matches FlushStep::Done ==> db::flush_starts(None, old(d)@, final(d)@),
{
}

/// What `table_written` and `edits_logged` do: the manifest is told of the table, the next file
/// number and the last sequence number; and it is to be fsynced unless its mode is `Never`.
pub proof fn law_flush_is_told(
    d: &mut Db,
    job: FlushJob,
    p: PendingFlush,
    e: &Db,
    l: LoggedFlush,
    s: manifest::StateView,
)
    requires
        call_ensures(Db::table_written, (d, job), p),
        call_ensures(Db::edits_logged, (e, p), l),
    ensures
        l.meta() == job.meta(),
        l.needs_sync() <==> e@.manifest_fsync != FsyncMode::Never,
        exists|es: Seq<manifest::EditView>|
            p.bytes() == #[trigger] manifest::manifest_bytes(es) && manifest::apply_all(s, es).files
                == s.files.push(job.meta()) && manifest::apply_all(s, es).next_file_num
                == old(d)@.next_file_num && manifest::apply_all(s, es).last_seq
                == old(d)@.next_seq,
        final(d)@ == (DbView { disk_bytes_written: final(d)@.disk_bytes_written, ..old(d)@ }),
        old(d)@.disk_bytes_written + job.meta().file_size <= u64::MAX
            ==> final(d)@.disk_bytes_written == old(d)@.disk_bytes_written + job.meta().file_size,
{
    opening::law_flush_is_logged(s, job.meta(), old(d)@);
    let es = db::flush_edits(job.meta(), old(d)@);
    assert(p.bytes() == manifest::manifest_bytes(es));
}

/// What `install_flush` does: the table is the newest of level 0 now, the memtable that it was made
/// from is gone, and the log may go exactly if memory holds nothing more.
pub proof fn law_install_flush(d: &mut Db, l: LoggedFlush, sst: SsTable, spent: Option<SpentLog>)
    requires
        call_ensures(Db::install_flush, (d, l, sst), spent),
        old(d)@.levels.len() > 0,
        old(d)@.flush_count < u64::MAX,
    ensures
        old(d)@.imms.len() > 0,
        l.meta().smallest == old(d)@.imms[0][0].0.user_key,
        l.meta().largest == old(d)@.imms[0].last().0.user_key,
        final(d)@.imms == old(d)@.imms.skip(1),
        final(d)@.mem == old(d)@.mem,
        final(d)@.levels[0] == old(d)@.levels[0].push(sst@),
        final(d)@.levels.len() == old(d)@.levels.len(),
        forall|i: int|
            1 <= i < old(d)@.levels.len() ==> #[trigger] final(d)@.levels[i] == old(d)@.levels[i],
        final(d)@.flush_count == old(d)@.flush_count + 1,
        spent is Some <==> old(d)@.imms.len() == 1 && old(d)@.mem.len() == 0,
{
}

/// The compaction that is due, as `pick_compaction`, `maybe_compact` and `compact` give it.
pub open spec fn is_due(job: Option<CompactionJob>, levels: Seq<Seq<TableView>>, opts: Options) -> bool {
    match job {
        Some(j) => {
            &&& j@.level + 1 < levels.len()
            &&& j@.lower == levels[j@.level + 1].filter(|t: TableView| pacing::meets(j@.upper, t))
            &&& if levels[0].len() >= opts.l0_compaction_trigger {
                j@.level == 0 && j@.upper == levels[0] && levels[0].len() > 0
            } else {
                &&& 1 <= j@.level < opts.max_levels - 1
                &&& pacing::bytes_in(levels[j@.level as int]) > pacing::allowance(
                    opts,
                    j@.level as int,
                )
                &&& forall|l: int|
                    1 <= l < j@.level ==> pacing::bytes_in(#[trigger] levels[l])
                        <= pacing::allowance(opts, l)
                &&& j@.upper == seq![levels[j@.level as int][0]]
            }
        },
        None => {
            if levels[0].len() >= opts.l0_compaction_trigger {
                levels[0].len() == 0
            } else {
                forall|l: int|
                    1 <= l < opts.max_levels - 1 && l < levels.len() ==> pacing::bytes_in(
                        #[trigger] levels[l],
                    ) <= pacing::allowance(opts, l)
            }
        },
    }
}

/// What `pick_compaction` gives.
pub proof fn law_pick_compaction(version: &Version, opts: &Options, r: Option<CompactionJob>)
    requires
        call_ensures(pick_compaction, (version, opts), r),
        version@.len() > 0,
        compact::pickable(version@, *opts),
    ensures
        is_due(r, version@, *opts),
{
    pacing::law_compaction_due(version@, *opts);
    pacing::law_job_takes_what_it_meets(version@, *opts);
}

/// What `maybe_compact` gives.
pub proof fn law_maybe_compact(d: &Db, r: Option<CompactionJob>)
    requires
        call_ensures(Db::maybe_compact, (d,), r),
        d@.levels.len() > 0,
        compact::pickable(d@.levels, d@.opts),
    ensures
        is_due(r, d@.levels, d@.opts),
{
    pacing::law_compaction_due(d@.levels, d@.opts);
    pacing::law_job_takes_what_it_meets(d@.levels, d@.opts);
}

/// What a round of `compact` gives: for sixty-four rounds the compaction that is due.
pub proof fn law_compact(d: &Db, rounds: usize, r: Option<CompactionJob>)
    requires
        call_ensures(Db::compact, (d, rounds), r),
        d@.levels.len() > 0,
        compact::pickable(d@.levels, d@.opts),
    ensures
        rounds < 64 ==> is_due(r, d@.levels, d@.opts),
        rounds >= 64 ==> r is None,
{
    pacing::law_compaction_due(d@.levels, d@.opts);
    pacing::law_job_takes_what_it_meets(d@.levels, d@.opts);
}

/// The records that a compaction keeps of what its tables hold: all but the versions that every
/// reader, those of open snapshots too, sees a newer one of, and the tombstones that the last level
/// need not keep.
pub open spec fn survives(
    runs: Seq<Seq<Record>>,
    level: usize,
    opts: Options,
    watermark: u64,
    r: Record,
) -> bool {
    &&& iter::held(runs, r)
    &&& !jobs::outdated(runs, r, watermark)
    &&& !(r.0.kind == ValueKind::Delete && r.0.seq <= watermark && level + 2 >= opts.max_levels)
}

/// Runs of records that make up the files of a compaction: joined they are what survives, in order;
/// no user key is in two files; every file but the last has reached the target size, and none had
/// before its last user key.
pub open spec fn well_dealt(
    files: Seq<Seq<Record>>,
    runs: Seq<Seq<Record>>,
    level: usize,
    opts: Options,
    watermark: u64,
) -> bool {
    &&& model::sorted(contents::join(files))
    &&& forall|r: Record| #[trigger]
        contents::join(files).contains(r) <==> survives(runs, level, opts, watermark, r)
    &&& forall|i: int| 0 <= i < files.len() ==> (#[trigger] files[i]).len() > 0
    &&& forall|i: int, j: int|
        0 <= i < j < files.len() && j == i + 1 ==> (#[trigger] files[i]).last().0.user_key != (
        #[trigger] files[j])[0].0.user_key
    &&& forall|i: int|
        0 <= i < files.len() - 1 ==> outputs::load(#[trigger] files[i]) >= opts.target_file_size
    &&& forall|i: int|
        0 <= i < files.len() ==> outputs::not_overfilled(
            #[trigger] files[i],
            opts.target_file_size,
        )
}

proof fn lemma_well_dealt(level: usize, runs: Seq<Seq<Record>>, opts: Options, watermark: u64)
    requires
        iter::all_sorted(runs),
        coherence::agree(runs),
    ensures
        well_dealt(
            compact::compacted(level, runs, opts, watermark),
            runs,
            level,
            opts,
            watermark,
        ),
{
    let fs = compact::compacted(level, runs, opts, watermark);
    outputs::law_outputs_have_their_size(level, runs, opts, watermark);
    assert forall|r: Record| #[trigger] contents::join(fs).contains(r) <==> survives(
        runs,
        level,
        opts,
        watermark,
        r,
    ) by {
        jobs::law_compaction_keeps_needed(runs, level + 1, watermark, opts.max_levels, r);
    }
    let any = arbitrary::<Record>();
    jobs::law_compaction_keeps_needed(runs, level + 1, watermark, opts.max_levels, any);
}

/// The edit deletes the file of a lower input, on the level below that of the job, unless an upper
/// input has its number.
pub open spec fn deletes_lower(e: EditView, job: JobView, t: TableView) -> bool {
    &&& e matches EditView::DeleteFile { level, file_num }
    &&& file_num == t.file_num
    &&& (forall|j: int| 0 <= j < job.upper.len() ==> (#[trigger] job.upper[j]).file_num != file_num)
        ==> level == job.level + 1
}

/// What `run_compaction` puts out: the table files of well dealt records, described and numbered
/// one after the other, on the level below; the inputs are deleted, and nothing else.
pub proof fn law_run_compaction(
    job: &CompactionJob,
    streams: Vec<Vec<(InternalKey, Vec<u8>)>>,
    opts: &Options,
    next_file_num: &mut u64,
    watermark: u64,
    out: CompactionOutput,
) -> (files: Seq<Seq<Record>>)
    requires
        call_ensures(run_compaction, (job, streams, opts, next_file_num, watermark), out),
        job.level < u32::MAX,
        iter::all_sorted(iter::runs_view(streams@)),
        coherence::agree(iter::runs_view(streams@)),
    ensures
        well_dealt(files, iter::runs_view(streams@), job.level, *opts, watermark),
        *final(next_file_num) == *old(next_file_num) + files.len(),
        out.files@.len() == files.len(),
        out.new_metas@.len() == files.len(),
        forall|i: int|
            0 <= i < files.len() ==> (#[trigger] out.files@[i])@ == builder::table_file(
                files[i],
                opts.block_size,
                opts.bloom_bits_per_key,
            ),
        forall|i: int|
            0 <= i < files.len() ==> {
                let m = (#[trigger] out.new_metas@[i])@;
                &&& m.smallest == files[i][0].0.user_key
                &&& m.largest == files[i].last().0.user_key
                &&& *old(next_file_num) + files.len() <= u64::MAX ==> m.file_num
                    == *old(next_file_num) + i
                &&& m.level == job.level + 1
            },
        out.edits@.len() == files.len() + job@.upper.len() + job@.lower.len(),
        forall|i: int|
            0 <= i < files.len() ==> (#[trigger] out.edits@[i])@ == EditView::AddFile(
                out.new_metas@[i]@,
            ),
        forall|i: int|
            0 <= i < job@.upper.len() ==> out.edits@[files.len() + i]@ == (EditView::DeleteFile {
                level: job.level as u32,
                file_num: (#[trigger] job@.upper[i]).file_num,
            }),
        forall|i: int|
            0 <= i < job@.lower.len() ==> deletes_lower(
                out.edits@[files.len() + job@.upper.len() + i]@,
                job@,
                #[trigger] job@.lower[i],
            ),
        out.sync <==> opts.fsync != FsyncMode::Never,
{
    let runs = iter::runs_view(streams@);
    let files = compact::compacted(job.level, runs, *opts, watermark);
    lemma_well_dealt(job.level, runs, *opts, watermark);
    let metas = compact::output_metas(files, *opts, job.level, *old(next_file_num));
    assert(manifest::files_view(out.new_metas@).len() == files.len());
    assert(compact::bytes_view(out.files@).len() == files.len());
    assert(manifest::edits_view(out.edits@).len() == files.len() + job@.upper.len()
        + job@.lower.len());
    assert forall|i: int| 0 <= i < files.len() implies (#[trigger] out.files@[i])@
        == builder::table_file(files[i], opts.block_size, opts.bloom_bits_per_key) by {
        assert(compact::bytes_view(out.files@)[i] == compact::output_bytes(files, *opts)[i]);
    }
    assert forall|i: int| 0 <= i < files.len() implies (#[trigger] out.new_metas@[i])@ == metas[i] by {
        assert(manifest::files_view(out.new_metas@)[i] == metas[i]);
    }
    let es = manifest::edits_view(out.edits@);
    let both = job@.upper + job@.lower;
    let dels = compact::deletions(job@);
    let k = files.len() as int;
    assert forall|i: int| 0 <= i < files.len() implies (#[trigger] out.edits@[i])@
        == EditView::AddFile(out.new_metas@[i]@) by {
        assert(es[i] == compact::additions(metas)[i]);
    }
    assert forall|i: int| 0 <= i < both.len() implies out.edits@[k + i]@ == compact::deletion(
        job@,
        #[trigger] both[i],
    ) by {
        assert(es[k + i] == dels[i]);
    }
    assert forall|i: int| 0 <= i < job@.upper.len() implies out.edits@[files.len() + i]@ == (
    EditView::DeleteFile {
        level: job.level as u32,
        file_num: (#[trigger] job@.upper[i]).file_num,
    }) by {
        assert(both[i] == job@.upper[i]);
        assert(compact::has_file(job@.upper, job@.upper[i].file_num));
    }
    assert forall|i: int| 0 <= i < job@.lower.len() implies deletes_lower(
        out.edits@[files.len() + job@.upper.len() + i]@,
        job@,
        #[trigger] job@.lower[i],
    ) by {
        assert(both[job@.upper.len() + i] == job@.lower[i]);
        assert(out.edits@[k + (job@.upper.len() + i)]@ == compact::deletion(job@, job@.lower[i]));
    }
    files
}

/// What the manifest is told of a compaction: its edits, and the next file number; and the bytes of
/// its files are counted.
pub proof fn law_outputs_written(d: &mut Db, p: PendingCompaction, w: WrittenCompaction)
    requires
        call_ensures(Db::outputs_written, (d, p), w),
    ensures
        w.edits().len() == p.edits().len() + 1,
        forall|i: int| 0 <= i < p.edits().len() ==> #[trigger] w.edits()[i] == p.edits()[i],
        w.edits().last() == EditView::SetNextFileNum(p.next_number()),
        w.bytes() == manifest::manifest_bytes(w.edits()),
        w.next_number() == p.next_number(),
        final(d)@ == (DbView { disk_bytes_written: final(d)@.disk_bytes_written, ..old(d)@ }),
        old(d)@.disk_bytes_written + opening::sizes(p.metas()) <= u64::MAX
            ==> final(d)@.disk_bytes_written == old(d)@.disk_bytes_written + opening::sizes(
            p.metas(),
        ),
{
    opening::law_bytes_are_counted(
        old(d)@,
        0,
        0,
        old(d)@.disk_bytes_written,
        p.metas(),
    );
}

/// Which files make up the database once a compaction is logged: those that the manifest knows,
/// which are those of the tables with the edits carried out on them.
pub proof fn law_outputs_logged(d: &mut Db, l: LoggedCompaction, c: CompactionFiles)
    requires
        call_ensures(Db::outputs_logged, (d, l), c),
    ensures
        final(d)@.next_file_num == l.next_number(),
        final(d)@ == (DbView { next_file_num: l.next_number(), ..old(d)@ }),
        c.edits() == l.edits(),
        forall|s: manifest::StateView|
            s.files == db::level_files(old(d)@.levels) ==> c.files() == (
            #[trigger] manifest::apply_all(s, l.edits())).files,
{
    let s0 = manifest::StateView {
        files: db::level_files(old(d)@.levels),
        next_file_num: old(d)@.next_file_num,
        last_seq: old(d)@.next_seq,
    };
    assert forall|s: manifest::StateView|
        s.files == db::level_files(old(d)@.levels) implies c.files() == (
    #[trigger] manifest::apply_all(s, l.edits())).files by {
        lemma_same_files(s0, s, l.edits());
    }
}

proof fn lemma_same_files(s: manifest::StateView, t: manifest::StateView, es: Seq<EditView>)
    requires
        s.files == t.files,
    ensures
        manifest::apply_all(s, es).files == manifest::apply_all(t, es).files,
    decreases es.len(),
{
    if es.len() > 0 {
        lemma_same_files(s, t, es.drop_last());
    }
}

/// What `merge_tables` puts out: well dealt records, with the oldest open snapshot as the
/// watermark.
pub proof fn law_merge_tables(
    d: &Db,
    job: &CompactionJob,
    streams: Vec<Vec<(InternalKey, Vec<u8>)>>,
    p: PendingCompaction,
) -> (files: Seq<Seq<Record>>)
    requires
        call_ensures(Db::merge_tables, (d, job, streams), p),
        iter::all_sorted(iter::runs_view(streams@)),
        coherence::agree(iter::runs_view(streams@)),
    ensures
        well_dealt(
            files,
            iter::runs_view(streams@),
            job.level,
            d@.opts,
            snapshot::watermark_of(d@.snapshots),
        ),
        p.files().len() == files.len(),
        p.metas().len() == files.len(),
        p.next_number() == d@.next_file_num + files.len(),
        forall|i: int|
            0 <= i < files.len() ==> #[trigger] p.files()[i] == builder::table_file(
                files[i],
                d@.opts.block_size,
                d@.opts.bloom_bits_per_key,
            ),
        p.needs_sync() <==> d@.opts.fsync != FsyncMode::Never,
{
    let runs = iter::runs_view(streams@);
    let w = snapshot::watermark_of(d@.snapshots);
    lemma_well_dealt(job.level, runs, d@.opts, w);
    compact::compacted(job.level, runs, d@.opts, w)
}

/// What the steps of a compaction come to: from `merge_tables` to `install_compaction`, exactly the
/// files of its inputs are given up, upper ones and lower ones, in their order.
pub proof fn law_compaction_gives_up_its_inputs(
    d1: &Db,
    job: &CompactionJob,
    streams: Vec<Vec<(InternalKey, Vec<u8>)>>,
    p: PendingCompaction,
    d2: &mut Db,
    q: PendingCompaction,
    w: WrittenCompaction,
    d3: &Db,
    l: LoggedCompaction,
    d4: &mut Db,
    m: LoggedCompaction,
    c: CompactionFiles,
    d5: &mut Db,
    opened: Vec<Option<SsTable>>,
    gone: Vec<u64>,
)
    requires
        call_ensures(Db::merge_tables, (d1, job, streams), p),
        q == p || call_ensures(PendingCompaction::synced, (p,), q),
        call_ensures(Db::outputs_written, (d2, q), w),
        call_ensures(Db::compaction_logged, (d3, w), l),
        m == l || call_ensures(Db::compaction_synced, (d3, l), m),
        call_ensures(Db::outputs_logged, (d4, m), c),
        call_ensures(Db::install_compaction, (d5, c, opened), gone),
    ensures
        gone@.len() == job@.upper.len() + job@.lower.len(),
        forall|i: int|
            0 <= i < job@.upper.len() ==> gone@[i] == (#[trigger] job@.upper[i]).file_num,
        forall|i: int|
            0 <= i < job@.lower.len() ==> gone@[job@.upper.len() + i] == (
            #[trigger] job@.lower[i]).file_num,
{
    outputs::law_inputs_are_given_up(job@, p.metas(), p.next_number());
    assert(c.edits() =~= outputs::job_edits(job@, p.metas(), p.next_number()));
}

/// What `install_compaction` gives: the numbers of the files that its edits delete, on whatever
/// level.
pub proof fn law_install_compaction(
    d: &mut Db,
    c: CompactionFiles,
    opened: Vec<Option<SsTable>>,
    gone: Vec<u64>,
    n: u64,
)
    requires
        call_ensures(Db::install_compaction, (d, c, opened), gone),
        old(d)@.compact_count < u64::MAX,
    ensures
        gone@.contains(n) <==> exists|i: int, l: u32|
            0 <= i < c.edits().len() && #[trigger] outputs::deletes(c.edits()[i], l, n),
        final(d)@.levels == version::levels_of(
            c.files(),
            version::opened_view(opened@),
            old(d)@.opts.max_levels as nat,
        ),
        final(d)@.compact_count == old(d)@.compact_count + 1,
        final(d)@ == (DbView {
            levels: final(d)@.levels,
            compact_count: final(d)@.compact_count,
            ..old(d)@
        }),
{
    outputs::law_deleted_files_are_given_up(c.edits(), n);
}

/// What `open` starts from.
pub proof fn law_open(
    opts: Options,
    recovered: RecoveredState,
    opened: Vec<Option<SsTable>>,
    log: &[u8],
    has_manifest: bool,
    r: Result<(Db, Vec<u8>)>,
)
    requires
        call_ensures(Db::open, (opts, recovered, opened, log, has_manifest), r),
    ensures
        r is Ok <==> wal::recover_log(log@) is Ok,
        r matches Ok((d, bytes)) ==> {
            let ws = wal::recover_log(log@)->Ok_0;
            &&& d@.next_seq >= recovered@.last_seq
            &&& forall|i: int| 0 <= i < ws.len() ==> (#[trigger] ws[i]).0.seq <= d@.next_seq
            &&& d@.next_seq == recovered@.last_seq || exists|i: int|
                0 <= i < ws.len() && (#[trigger] ws[i]).0.seq == d@.next_seq
            &&& forall|x: Record| #[trigger]
                d@.mem.contains(x) <==> exists|i: int| #[trigger]
                    opening::stays(ws, i) && ws[i] == x
            &&& d@.levels == version::levels_of(
                recovered@.files,
                version::opened_view(opened@),
                opts.max_levels as nat,
            )
            &&& d@.imms.len() == 0
            &&& !d@.closed
            &&& d@.opts == opts
            &&& d@.wal.fsync == opts.fsync
            &&& d@.manifest_fsync == opts.fsync
            &&& has_manifest ==> bytes@.len() == 0
        },
{
    if let Ok((d, bytes)) = r {
        let ws = wal::recover_log(log@)->Ok_0;
        let os = version::opened_view(opened@);
        opening::law_opened_db_counts_on(opts, recovered@, os, ws);
        assert forall|x: Record| #[trigger] d@.mem.contains(x) <==> exists|i: int| #[trigger]
            opening::stays(ws, i) && ws[i] == x by {
            opening::law_opened_db_holds_its_log(opts, recovered@, os, ws, x);
        }
    }
}

/// What `stats` gives.
pub proof fn law_stats(d: &Db, s: DbStats)
    requires
        call_ensures(Db::stats, (d,), s),
    ensures
        s.flush_count == d@.flush_count,
        s.compact_count == d@.compact_count,
        s.stall_count == d@.stall_count,
        s.user_bytes == d@.user_bytes,
        s.disk_bytes_written == d@.disk_bytes_written,
        d@.levels.len() > 0 ==> s.l0_files == d@.levels[0].len(),
{
}

/// What `close` does: every further write and every further read is refused, and nothing else
/// changes.
pub proof fn law_close(d: &mut Db)
    requires
        call_ensures(Db::close, (d,), ()),
    ensures
        final(d)@.closed,
        final(d)@ == (DbView { closed: true, ..old(d)@ }),
{
}

/// What `sync` settles, and when it is due.
pub proof fn law_sync(d: &mut Db, due: bool)
    requires
        call_ensures(Db::sync, (d,), ()),
        call_ensures(Db::sync_due, (old(d),), due),
    ensures
        due <==> old(d)@.wal.fsync != FsyncMode::Never,
        due ==> final(d)@.wal.pending == 0,
        !due ==> final(d)@ == old(d)@,
        final(d)@ == (DbView { wal: final(d)@.wal, ..old(d)@ }),
        final(d)@.wal.fsync == old(d)@.wal.fsync,
{
}

/// What `log_replaced` starts from: an empty log that is synced as the options say.
pub proof fn law_log_replaced(d: &mut Db, spent: SpentLog)
    requires
        call_ensures(Db::log_replaced, (d, spent), ()),
    ensures
        final(d)@.wal == (WalView { fsync: old(d)@.opts.fsync, pending: 0 }),
        final(d)@ == (DbView { wal: final(d)@.wal, ..old(d)@ }),
{
}

/// When table files and the manifest have to be fsynced: always, but in mode `Never`.
pub proof fn law_syncs_are_due(d: &Db, table: bool, log: bool)
    requires
        call_ensures(Db::table_sync_due, (d,), table),
        call_ensures(Db::manifest_sync_due, (d,), log),
    ensures
        table <==> d@.opts.fsync != FsyncMode::Never,
        log <==> d@.manifest_fsync != FsyncMode::Never,
{
}

/// Whether a write, a flush and the search for a compaction can be tried: not for want of anything
/// but room in a counter, a file number, bits that can be counted, and levels that exist.
pub proof fn law_nothing_else_is_in_the_way(d: &Db, write: bool, flush: bool, pick: bool)
    requires
        call_ensures(Db::can_write, (d,), write),
        call_ensures(Db::can_flush, (d,), flush),
        call_ensures(Db::can_pick, (d,), pick),
        d@.next_seq < u64::MAX,
        d@.stall_count < u64::MAX,
        2 * d@.opts.l0_compaction_trigger <= usize::MAX,
        d@.next_file_num < u64::MAX,
        forall|i: int|
            0 <= i < d@.imms.len() ==> (#[trigger] d@.imms[i]).len() * (
            if d@.opts.bloom_bits_per_key < 1 {
                1
            } else {
                d@.opts.bloom_bits_per_key as int
            }) + 7 <= usize::MAX,
        d@.levels.len() == d@.opts.max_levels,
        2 <= d@.opts.max_levels <= u32::MAX,
        forall|l: int|
            1 <= l < d@.opts.max_levels - 1 ==> vstd::arithmetic::power::pow(
                d@.opts.level_ratio as int,
                #[trigger] ((l - 1) as nat),
            ) <= u64::MAX && pacing::allowance(d@.opts, l) <= u64::MAX,
    ensures
        write,
        flush,
        pick,
{
    pacing::law_write_can_be_tried(d@);
    opening::law_flush_can_start(d@);
    pacing::law_compaction_can_be_looked_for(d@.levels, d@.opts);
}

/// Whether a merge can be carried out: not for want of anything but file numbers, one for each
/// record at most, and bits for a filter of all records.
pub proof fn law_merge_has_room(
    d: &Db,
    job: &CompactionJob,
    streams: &Vec<Vec<(InternalKey, Vec<u8>)>>,
    r: bool,
)
    requires
        call_ensures(Db::can_merge, (d, job, streams), r),
    ensures
        r <==> job.level < u32::MAX && d@.next_file_num + merging::count(
            iter::runs_view(streams@),
        ) <= u64::MAX && merging::count(iter::runs_view(streams@)) * filters::spent(
            d@.opts.bloom_bits_per_key,
        ) + 7 <= usize::MAX,
{
    merging::law_merge_counts(iter::runs_view(streams@));
    filters::law_filter_can_be_made(
        iter::total(iter::runs_view(streams@)),
        d@.opts.bloom_bits_per_key,
    );
}

/// What `collect_file_metas` lists: of each table its number, its level, its keys and its size.
pub proof fn law_collect_file_metas(version: &Version, out: Vec<FileMeta>, i: int)
    requires
        call_ensures(db::collect_file_metas, (version,), out),
        version@.len() <= u32::MAX,
        0 <= i < out@.len(),
    ensures
        exists|l: int, j: int| #[trigger] opening::describes(out@[i]@, version@, l, j),
{
    let fs = manifest::files_view(out@);
    assert(fs[i] == out@[i]@);
    assert(fs.contains(fs[i]));
    opening::law_all_files_are_listed(version@, fs[i]);
}

} // verus!

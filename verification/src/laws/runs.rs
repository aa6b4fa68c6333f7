//! What holds of a database at every moment between its creation and its end.

use crate::codec;
use crate::compact::JobView;
use crate::db;
use crate::db::{DbView, FlushJob, PendingWrite, ReadStep, WriteStep};
use crate::key::{Record, ValueKind};
use crate::laws::installs;
use crate::laws::recovery;
use crate::laws::scans;
use crate::laws::soundness;
use crate::manifest;
use crate::manifest::StateView;
use crate::model;
use crate::model::StartView;
use crate::options::Options;
use crate::sstable::builder;
use crate::sstable::contents;
use crate::sstable::reader::{Disk, TableView};
use crate::tree;
use crate::version;
use crate::wal::WalView;
use vstd::prelude::*;

verus! {

/// What can happen to a database.
pub enum Event {
    /// A write is logged and applied.
    Write { user_key: Seq<u8>, value: Seq<u8>, kind: ValueKind },
    /// A write that could not be logged uses up its sequence number.
    LostWrite,
    /// The memtable is set aside.
    Freeze,
    /// The empty ones among the waiting memtables are left out.
    SkipEmpty,
    /// A flush is given its file number.
    TakeNumber,
    /// The table of the oldest waiting memtable takes its place.
    Flush { file_num: u64 },
    /// A compaction is carried out.
    Compact { job: JobView, opened: Seq<Option<TableView>> },
    /// The process ends, and the database is opened again from what is on disk.
    Reopen { state: StateView, opened: Seq<Option<TableView>>, log: Seq<Record>, start: u64 },
    /// Counters, snapshots and the bookkeeping of the log change, or the database is closed.
    Note { after: DbView },
}

/// Both states hold the same records and tables and count from the same numbers.
pub open spec fn same_tree(v: DbView, w: DbView) -> bool {
    &&& w.opts == v.opts
    &&& w.mem == v.mem
    &&& w.imms == v.imms
    &&& w.levels == v.levels
    &&& w.next_seq == v.next_seq
    &&& w.next_file_num == v.next_file_num
}

/// The table of the oldest waiting memtable.
pub open spec fn oldest_table(v: DbView, file_num: u64) -> TableView {
    contents::table_view(file_num, v.imms[0], v.opts.block_size, v.opts.bloom_bits_per_key)
}

/// The table of the oldest waiting memtable is on disk under a number of its own.
#[verifier::opaque]
pub open spec fn flush_possible(v: DbView, disk: Disk, file_num: u64) -> bool {
    &&& v.imms.len() > 0
    &&& v.imms[0].len() > 0
    &&& v.levels.len() > 0
    &&& soundness::numbered(v.levels, file_num)
    &&& file_num < v.next_file_num
    &&& contents::table_fits(v.imms[0], v.opts.block_size, v.opts.bloom_bits_per_key)
    &&& contents::disk_has(
        disk,
        file_num,
        builder::table_file(v.imms[0], v.opts.block_size, v.opts.bloom_bits_per_key),
    )
}

/// The compaction is the one that is due, what it puts out is on disk, and the files that make up
/// the database after it have been opened.
#[verifier::opaque]
pub open spec fn compaction_possible(
    v: DbView,
    disk: Disk,
    job: JobView,
    opened: Seq<Option<TableView>>,
) -> bool {
    installs::carried_out(v, job, disk) && installs::reopened(v, job, disk, opened)
}

/// The log covers the database, and the manifest knows its tables, which have been opened.
#[verifier::opaque]
pub open spec fn reopening_possible(
    v: DbView,
    disk: Disk,
    state: StateView,
    opened: Seq<Option<TableView>>,
    log: Seq<Record>,
    start: u64,
) -> bool {
    &&& recovery::log_covers(v, disk, log, start)
    &&& recovery::knows_tables(v, state)
    &&& recovery::reopens(v, state, opened)
    &&& recovery::seqs_known(v, disk, state.last_seq, start)
}

/// The event can happen: what it writes to disk is there, and the counters have room.
pub open spec fn possible(v: DbView, disk: Disk, e: Event) -> bool {
    match e {
        Event::Write { user_key: _, value: _, kind: _ } => v.next_seq < u64::MAX,
        Event::LostWrite => v.next_seq < u64::MAX,
        Event::Freeze => true,
        Event::SkipEmpty => true,
        Event::TakeNumber => v.next_file_num < u64::MAX,
        Event::Flush { file_num } => flush_possible(v, disk, file_num),
        Event::Compact { job, opened } => compaction_possible(v, disk, job, opened),
        Event::Reopen { state, opened, log, start } => reopening_possible(
            v,
            disk,
            state,
            opened,
            log,
            start,
        ),
        Event::Note { after } => same_tree(v, after),
    }
}

/// The state after a compaction.
#[verifier::opaque]
pub open spec fn after_compaction(
    v: DbView,
    disk: Disk,
    job: JobView,
    opened: Seq<Option<TableView>>,
) -> DbView {
    installs::compacted_db(v, job, disk, opened)
}

/// The state after the database has been opened again.
#[verifier::opaque]
pub open spec fn after_reopening(
    v: DbView,
    state: StateView,
    opened: Seq<Option<TableView>>,
    log: Seq<Record>,
) -> DbView {
    db::opened_db(v.opts, state, opened, log)
}

/// The state after a flush.
#[verifier::opaque]
pub open spec fn after_flush(v: DbView, file_num: u64) -> DbView {
    db::flushed(v, oldest_table(v, file_num))
}

/// The state after the event.
pub open spec fn next(v: DbView, disk: Disk, e: Event) -> DbView {
    match e {
        Event::Write { user_key, value, kind } => db::applied(
            DbView { next_seq: (v.next_seq + 1) as u64, ..v },
            db::next_record(v, user_key, value, kind),
        ),
        Event::LostWrite => DbView { next_seq: (v.next_seq + 1) as u64, ..v },
        Event::Freeze => db::frozen(v),
        Event::SkipEmpty => DbView { imms: db::skip_empty(v.imms), ..v },
        Event::TakeNumber => DbView { next_file_num: (v.next_file_num + 1) as u64, ..v },
        Event::Flush { file_num } => after_flush(v, file_num),
        Event::Compact { job, opened } => after_compaction(v, disk, job, opened),
        Event::Reopen { state, opened, log, start: _ } => after_reopening(v, state, opened, log),
        Event::Note { after } => after,
    }
}

/// The state after a run of events.
pub open spec fn after_all(v: DbView, disk: Disk, es: Seq<Event>) -> DbView
    decreases es.len(),
{
    if es.len() == 0 {
        v
    } else {
        next(after_all(v, disk, es.drop_last()), disk, es.last())
    }
}

/// The events can happen one after the other.
pub open spec fn all_possible(v: DbView, disk: Disk, es: Seq<Event>) -> bool
    decreases es.len(),
{
    es.len() == 0 || (all_possible(v, disk, es.drop_last()) && possible(
        after_all(v, disk, es.drop_last()),
        disk,
        es.last(),
    ))
}

/// A database that has just been created.
pub open spec fn new_db(opts: Options) -> DbView {
    db::opened_db(opts, manifest::initial_state(), Seq::empty(), Seq::empty())
}

/// The events lead from a new database to `v`.
pub open spec fn leads_to(opts: Options, disk: Disk, es: Seq<Event>, v: DbView) -> bool {
    &&& opts.max_levels <= u32::MAX
    &&& all_possible(new_db(opts), disk, es)
    &&& after_all(new_db(opts), disk, es) == v
}

/// A state that a database can be in.
#[verifier::opaque]
pub open spec fn reached(v: DbView, disk: Disk) -> bool {
    exists|opts: Options, es: Seq<Event>| #[trigger] leads_to(opts, disk, es, v)
}

/// A new database is in a state that it can be in.
pub proof fn law_new_db_is_reached(opts: Options, disk: Disk)
    requires
        opts.max_levels <= u32::MAX,
    ensures
        reached(new_db(opts), disk),
{
    reveal(reached);
    assert(leads_to(opts, disk, Seq::empty(), new_db(opts)));
}

/// Whatever can happen leads from a state that a database can be in to another.
pub proof fn law_event_is_reached(v: DbView, disk: Disk, e: Event)
    requires
        reached(v, disk),
        possible(v, disk, e),
    ensures
        reached(next(v, disk, e), disk),
{
    reveal(reached);
    let (opts, es) = choose|opts: Options, es: Seq<Event>| #[trigger] leads_to(opts, disk, es, v);
    assert(es.push(e).drop_last() =~= es);
    assert(leads_to(opts, disk, es.push(e), next(v, disk, e)));
}

/// A state that differs in its bookkeeping alone can be reached too.
proof fn lemma_noted(v: DbView, w: DbView, disk: Disk)
    requires
        reached(v, disk),
        same_tree(v, w),
    ensures
        reached(w, disk),
{
    law_event_is_reached(v, disk, Event::Note { after: w });
}

/// The state after a write, and that after one that could not be logged, can be reached.
proof fn lemma_written(v: DbView, disk: Disk, user_key: Seq<u8>, value: Seq<u8>, kind: ValueKind)
    requires
        reached(v, disk),
        v.next_seq < u64::MAX,
    ensures
        reached(DbView { next_seq: (v.next_seq + 1) as u64, ..v }, disk),
        reached(
            db::applied(
                DbView { next_seq: (v.next_seq + 1) as u64, ..v },
                db::next_record(v, user_key, value, kind),
            ),
            disk,
        ),
{
    law_event_is_reached(v, disk, Event::LostWrite);
    law_event_is_reached(v, disk, Event::Write { user_key, value, kind });
}

/// The state in which a flush has its file number can be reached, and the number is new.
proof fn lemma_flush_numbered(v: DbView, disk: Disk)
    requires
        reached(v, disk),
        v.next_file_num < u64::MAX,
    ensures
        reached(
            DbView {
                imms: db::skip_empty(v.imms),
                next_file_num: (v.next_file_num + 1) as u64,
                ..v
            },
            disk,
        ),
        soundness::numbered(v.levels, v.next_file_num),
{
    law_database_is_sound(v, disk);
    law_event_is_reached(v, disk, Event::SkipEmpty);
    law_event_is_reached(
        DbView { imms: db::skip_empty(v.imms), ..v },
        disk,
        Event::TakeNumber,
    );
}

/// The state after a flush can be reached.
proof fn lemma_flushed(v: DbView, disk: Disk, file_num: u64)
    requires
        reached(v, disk),
        flush_possible(v, disk, file_num),
    ensures
        reached(db::flushed(v, oldest_table(v, file_num)), disk),
{
    reveal(after_flush);
    law_event_is_reached(v, disk, Event::Flush { file_num });
}

/// The steps of a write are events: a database can be in the state after its first step, in which
/// the frame is still to be logged, and in that after its last.
pub proof fn law_write_is_reached(
    v: DbView,
    v1: DbView,
    disk: Disk,
    p: PendingWrite,
    log: WalView,
    user_key: Seq<u8>,
    value: Seq<u8>,
    kind: ValueKind,
)
    requires
        reached(v, disk),
        v.next_seq < u64::MAX,
        db::write_step_is(
            Ok(WriteStep::Append(p)),
            db::counted(v, user_key.len(), value.len()),
            v1,
            user_key,
            value,
            kind,
        ),
    ensures
        reached(v1, disk),
        reached(db::applied(DbView { wal: log, ..v1 }, p.record()), disk),
{
    let c = db::counted(v, user_key.len(), value.len());
    lemma_noted(v, c, disk);
    lemma_written(c, disk, user_key, value, kind);
    let after = db::applied(DbView { wal: log, ..v1 }, p.record());
    lemma_noted(db::applied(v1, p.record()), after, disk);
}

/// The steps of a flush are events: a database can be in the state after its first step, in which
/// the table is still to be written, and in that after its last.
pub proof fn law_flush_is_reached(v: DbView, v1: DbView, disk: Disk, job: FlushJob, written: u64)
    requires
        reached(v, disk),
        v.next_file_num < u64::MAX,
        v.levels.len() > 0,
        db::flush_starts(Some(job), v, v1),
        contents::table_fits(v1.imms[0], v.opts.block_size, v.opts.bloom_bits_per_key),
        v1.imms[0].len() > 0,
        contents::disk_has(disk, v.next_file_num, job.bytes()),
    ensures
        reached(v1, disk),
        reached(
            db::flushed(
                DbView { disk_bytes_written: written, ..v1 },
                oldest_table(v1, v.next_file_num),
            ),
            disk,
        ),
{
    lemma_flush_numbered(v, disk);
    let a = DbView {
        imms: db::skip_empty(v.imms),
        next_file_num: (v.next_file_num + 1) as u64,
        ..v
    };
    let b = DbView { disk_bytes_written: written, ..v1 };
    lemma_noted(a, v1, disk);
    lemma_noted(v1, b, disk);
    assert(flush_possible(b, disk, v.next_file_num)) by {
        reveal(flush_possible);
    }
    lemma_flushed(b, disk, v.next_file_num);
}

/// What happens keeps the database sound.
pub proof fn law_event_keeps_sound(v: DbView, disk: Disk, e: Event)
    requires
        soundness::sound(v, disk),
        possible(v, disk, e),
    ensures
        soundness::sound(next(v, disk, e), disk),
{
    let w = next(v, disk, e);
    match e {
        Event::Write { user_key, value, kind } => {
            soundness::law_write_keeps_sound(v, disk, user_key, value, kind);
        },
        Event::LostWrite => {
            soundness::law_lost_write_keeps_sound(v, disk);
        },
        Event::Freeze => {
            soundness::law_freeze_keeps_reads(v, disk);
        },
        Event::SkipEmpty => {
            soundness::law_skip_empty_keeps_reads(v, disk);
        },
        Event::TakeNumber => {
            assert(db::sources(w, disk) == db::sources(v, disk));
        },
        Event::Flush { file_num } => {
            reveal(flush_possible);
            reveal(after_flush);
            soundness::law_flush_keeps_reads(v, disk, file_num);
        },
        Event::Compact { job, opened } => {
            reveal(compaction_possible);
            reveal(after_compaction);
            installs::law_compaction_keeps_sound(v, job, disk, opened);
        },
        Event::Reopen { state, opened, log, start } => {
            reveal(reopening_possible);
            reveal(after_reopening);
            recovery::law_reopened_db_is_sound(v, disk, state, opened, log, start);
        },
        Event::Note { after } => {
            assert(db::sources(after, disk) == db::sources(v, disk));
        },
    }
}

/// A database is sound at every moment.
pub proof fn law_database_is_sound(v: DbView, disk: Disk)
    requires
        reached(v, disk),
    ensures
        soundness::sound(v, disk),
{
    reveal(reached);
    let (opts, es) = choose|opts: Options, es: Seq<Event>| #[trigger] leads_to(opts, disk, es, v);
    recovery::law_new_db_is_sound(opts, disk);
    lemma_run_keeps_sound(new_db(opts), disk, es);
}

proof fn lemma_run_keeps_sound(v: DbView, disk: Disk, es: Seq<Event>)
    requires
        soundness::sound(v, disk),
        all_possible(v, disk, es),
    ensures
        soundness::sound(after_all(v, disk, es), disk),
    decreases es.len(),
{
    if es.len() > 0 {
        lemma_run_keeps_sound(v, disk, es.drop_last());
        law_event_keeps_sound(after_all(v, disk, es.drop_last()), disk, es.last());
    }
}

/// At every moment a scan of a database gives, in the order of the keys and each key once, exactly
/// the keys from its start on that a read gives a value of, with that value. `step` is what a read
/// of the key comes to, and the scan is given the tables as they are on disk.
pub proof fn law_database_scans_as_it_reads(
    database: db::Db,
    disk: Disk,
    start: StartView,
    max_seq: u64,
    user_key: Seq<u8>,
    step: ReadStep,
    value: Seq<u8>,
)
    requires
        reached(database@, disk),
        db::read_step_is(Ok(step), database@, user_key, max_seq),
    ensures
        ({
            let rows = db::scan_rows(
                database@,
                tree::each_contents(version::flat(database@.levels), disk),
                start,
                max_seq,
            );
            &&& rows.contains((user_key, value)) <==> model::at_or_after(start, user_key)
                && step.outcome(disk) == Some(value)
            &&& forall|i: int, j: int|
                0 <= i < j < rows.len() ==> codec::bytes_lt(
                    (#[trigger] rows[i]).0,
                    (#[trigger] rows[j]).0,
                )
        }),
{
    let v = database@;
    law_database_is_sound(v, disk);
    scans::law_scan_agrees_with_get(v, disk, start, max_seq, user_key, value);
    db::law_read_outcome(v, step, user_key, max_seq, disk);
}

} // verus!

//! What a crash in the middle of a flush, a compaction or a write leaves.

use crate::compact::JobView;
use crate::db;
use crate::db::DbView;
use crate::frame;
use crate::key::{Record, ValueKind};
use crate::laws::compaction;
use crate::laws::files;
use crate::laws::installs;
use crate::laws::jobs;
use crate::laws::recovery;
use crate::laws::scans;
use crate::laws::soundness;
use crate::laws::writes;
use crate::manifest;
use crate::manifest::{EditView, FileView, StateView};
use crate::model;
use crate::sstable::builder;
use crate::sstable::contents;
use crate::sstable::reader::{Disk, TableView};
use crate::version;
use crate::wal;
use vstd::prelude::*;

verus! {

/// Each file that the manifest knows has been opened, and is a table that was there before or one
/// of `news`.
pub open spec fn reopens_with(
    v: DbView,
    news: Seq<TableView>,
    state: StateView,
    opened: Seq<Option<TableView>>,
) -> bool {
    &&& opened.len() == state.files.len()
    &&& forall|i: int|
        0 <= i < opened.len() ==> {
            &&& (#[trigger] opened[i]) is Some
            &&& opened[i]->Some_0.file_num == state.files[i].file_num
            &&& version::flat(v.levels).contains(opened[i]->Some_0) || news.contains(
                opened[i]->Some_0,
            )
        }
}

/// The manifest after a crash: what was logged before, and what the crash left of more edits.
pub open spec fn torn_manifest(before: Seq<EditView>, edits: Seq<EditView>, cut: int) -> Seq<u8> {
    manifest::manifest_bytes(before) + manifest::manifest_bytes(edits).take(cut)
}

/// What the manifest, cut to its intact length, says after a crash.
pub open spec fn left_state(before: Seq<EditView>, edits: Seq<EditView>, cut: int) -> StateView {
    let buf = torn_manifest(before, edits, cut);
    manifest::recover_state(buf.take(manifest::intact_len(buf) as int))->Ok_0
}

/// Edits that were logged in whole runs and can be read back.
pub open spec fn logged(before: Seq<EditView>) -> bool {
    &&& manifest::whole_runs(before) == before
    &&& forall|i: int| 0 <= i < before.len() ==> manifest::editable(#[trigger] before[i])
}

/// Edits that can be read back, and where a crash can cut their bytes short.
pub open spec fn cuttable(edits: Seq<EditView>, cut: int) -> bool {
    &&& 0 <= cut <= manifest::manifest_bytes(edits).len()
    &&& forall|i: int| 0 <= i < edits.len() ==> manifest::editable(#[trigger] edits[i])
}

/// A database that is opened after a crash is sound, and a reader of it is told what a reader of
/// `v` was told.
pub open spec fn reopens_as(
    v: DbView,
    disk: Disk,
    state: StateView,
    opened: Seq<Option<TableView>>,
    log: Seq<Record>,
    user_key: Seq<u8>,
) -> bool {
    let w = db::opened_db(v.opts, state, opened, log);
    &&& soundness::sound(w, disk)
    &&& model::answer(model::read(db::sources(w, disk), user_key, u64::MAX)) == model::answer(
        model::read(db::sources(v, disk), user_key, u64::MAX),
    )
}

/// A table whose number the manifest does not know is not among those that were opened.
proof fn lemma_no_new_table(
    v: DbView,
    news: Seq<TableView>,
    low: u64,
    state: StateView,
    opened: Seq<Option<TableView>>,
)
    requires
        recovery::knows_tables(v, state),
        soundness::numbered(v.levels, low),
        forall|j: int| 0 <= j < news.len() ==> (#[trigger] news[j]).file_num >= low,
        reopens_with(v, news, state, opened),
    ensures
        recovery::reopens(v, state, opened),
{
    assert forall|i: int| 0 <= i < opened.len() implies version::flat(v.levels).contains(
        (#[trigger] opened[i])->Some_0,
    ) by {
        let t = opened[i]->Some_0;
        let f = state.files[i];
        assert(state.files.contains(f));
        files::lemma_level_files(v.levels, f);
        let (l, p) = choose|l: int, p: int| #[trigger] files::is_file_of(v.levels, f, l, p);
        assert(v.levels[l][p].file_num < low);
        if news.contains(t) {
            let j = choose|j: int| 0 <= j < news.len() && news[j] == t;
            assert(news[j].file_num >= low);
        }
    }
}

/// A crash at any point while the edits of a flush are being logged loses nothing: the database
/// that is opened after it is sound, and reads as before.
pub proof fn law_crash_in_flush(
    v: DbView,
    disk: Disk,
    t: TableView,
    before: Seq<EditView>,
    cut: int,
    opened: Seq<Option<TableView>>,
    log: Seq<Record>,
    start: u64,
    user_key: Seq<u8>,
)
    requires
        soundness::sound(v, disk),
        v.imms.len() > 0,
        v.imms[0].len() > 0,
        v.levels.len() > 0,
        contents::table_fits(v.imms[0], v.opts.block_size, v.opts.bloom_bits_per_key),
        t == contents::table_view(
            t.file_num,
            v.imms[0],
            v.opts.block_size,
            v.opts.bloom_bits_per_key,
        ),
        soundness::numbered(v.levels, t.file_num),
        t.file_num < v.next_file_num,
        contents::disk_has(
            disk,
            t.file_num,
            builder::table_file(v.imms[0], v.opts.block_size, v.opts.bloom_bits_per_key),
        ),
        recovery::log_covers(v, disk, log, start),
        logged(before),
        recovery::knows_tables(v, manifest::apply_all(manifest::initial_state(), before)),
        recovery::seqs_known(
            v,
            disk,
            manifest::apply_all(manifest::initial_state(), before).last_seq,
            start,
        ),
        cuttable(db::flush_edits(db::file_of(t, 0), v), cut),
        reopens_with(
            v,
            seq![t],
            left_state(before, db::flush_edits(db::file_of(t, 0), v), cut),
            opened,
        ),
    ensures
        reopens_as(
            v,
            disk,
            left_state(before, db::flush_edits(db::file_of(t, 0), v), cut),
            opened,
            log,
            user_key,
        ),
{
    let es = db::flush_edits(db::file_of(t, 0), v);
    let state = manifest::apply_all(manifest::initial_state(), before);
    let j = manifest::law_torn_edits(before, es, cut);
    let after = left_state(before, es, cut);
    recovery::lemma_flush_edits(v, t, state, j);
    if j == 0 {
        lemma_no_new_table(v, seq![t], t.file_num, after, opened);
        recovery::law_reopened_db_is_sound(v, disk, after, opened, log, start);
        recovery::law_reopened_db_reads_the_same(v, disk, after, opened, log, start, user_key);
    } else {
        let w = db::flushed(v, t);
        assert(db::memory(v)[v.imms.len() as int] == v.imms[0]);
        assert(db::sources(v, disk)[v.imms.len() as int] == v.imms[0]);
        assert(model::sorted(db::sources(v, disk)[v.imms.len() as int]));
        contents::law_table_holds_records(
            disk,
            t.file_num,
            v.imms[0],
            v.opts.block_size,
            v.opts.bloom_bits_per_key,
        );
        soundness::law_flush_keeps_reads(v, disk, t.file_num);
        recovery::law_flush_keeps_log(v, disk, t, log, start);
        recovery::law_flush_is_recorded(v, disk, t, state, log, start, j);
        assert forall|i: int| 0 <= i < opened.len() implies version::flat(w.levels).contains(
            (#[trigger] opened[i])->Some_0,
        ) by {
            lemma_flat_after_flush(v, t, opened[i]->Some_0);
        }
        recovery::law_reopened_db_is_sound(w, disk, after, opened, log, start);
        recovery::law_reopened_db_reads_the_same(w, disk, after, opened, log, start, user_key);
        assert(model::read(db::sources(w, disk), user_key, u64::MAX) == model::read(
            db::sources(v, disk),
            user_key,
            u64::MAX,
        ));
    }
}

/// The tables after a flush are those before it and the new one.
proof fn lemma_flat_after_flush(v: DbView, t: TableView, u: TableView)
    requires
        v.levels.len() > 0,
        version::flat(v.levels).contains(u) || seq![t].contains(u),
    ensures
        version::flat(db::flushed(v, t).levels).contains(u),
{
    let w = db::flushed(v, t);
    scans::lemma_flat(v.levels, u);
    scans::lemma_flat(w.levels, u);
    let n = v.levels[0].len() as int;
    if version::flat(v.levels).contains(u) {
        let l = choose|l: int| 0 <= l < v.levels.len() && (#[trigger] v.levels[l]).contains(u);
        let i = choose|i: int| 0 <= i < v.levels[l].len() && v.levels[l][i] == u;
        assert(w.levels[l][i] == u);
        assert(w.levels[l].contains(u));
    } else {
        assert(u == t);
        assert(w.levels[0][n] == u);
        assert(w.levels[0].contains(u));
    }
}

/// Tables for the files after a compaction, in the order in which these are listed.
proof fn lemma_tables_for_files(v: DbView, job: JobView, disk: Disk) -> (opened: Seq<
    Option<TableView>,
>)
    requires
        installs::carried_out(v, job, disk),
    ensures
        installs::reopened(v, job, disk, opened),
{
    let fs = installs::files_now(v, job, disk);
    let news = compaction::new_tables(v, job, disk);
    let ms = installs::output_metas(v, job, disk);
    let opened = Seq::new(
        fs.len(),
        |i: int|
            Some(
                choose|t: TableView| #[trigger]
                    is_table(v, news, t) && t.file_num == fs[i].file_num,
            ),
    );
    jobs::law_job_is_ok(v.levels, v.opts, job);
    assert forall|i: int| 0 <= i < fs.len() implies {
        &&& (#[trigger] opened[i]) is Some
        &&& opened[i]->Some_0.file_num == fs[i].file_num
        &&& version::flat(v.levels).contains(opened[i]->Some_0) || news.contains(opened[i]->Some_0)
    } by {
        let f = fs[i];
        assert(fs.contains(f));
        installs::lemma_files_now(v, job, disk, f);
        if ms.contains(f) {
            let j = choose|j: int| 0 <= j < ms.len() && ms[j] == f;
            assert(news.contains(news[j]));
            assert(is_table(v, news, news[j]) && news[j].file_num == f.file_num);
        } else {
            let (l, p) = choose|l: int, p: int| #[trigger]
                files::is_file_of(v.levels, f, l, p) && !compaction::is_input(
                    job,
                    l,
                    v.levels[l][p],
                );
            let t = v.levels[l][p];
            assert(v.levels[l].contains(t));
            scans::lemma_flat(v.levels, t);
            assert(is_table(v, news, t) && t.file_num == f.file_num);
        }
    }
    opened
}

/// A table that was there before, or a new one.
spec fn is_table(v: DbView, news: Seq<TableView>, t: TableView) -> bool {
    version::flat(v.levels).contains(t) || news.contains(t)
}

/// Of the edits of a compaction only the last one ends a run, so they are carried out together or
/// not at all.
proof fn lemma_compaction_is_one_run(v: DbView, job: JobView, disk: Disk, j: int)
    requires
        job.level < u32::MAX,
        0 <= j <= installs::compaction_edits(v, job, disk).len(),
    ensures
        ({
            let es = installs::compaction_edits(v, job, disk);
            manifest::whole_runs(es.take(j)) == if j < es.len() {
                Seq::empty()
            } else {
                es
            }
        }),
{
    let es = installs::compaction_edits(v, job, disk);
    let p = es.drop_last();
    let q = if j < es.len() {
        es.take(j)
    } else {
        p
    };
    assert forall|i: int| 0 <= i < q.len() implies !manifest::ends_run(#[trigger] q[i]) by {
        assert(q[i] == es[i]);
    }
    manifest::lemma_one_run(q, es.last());
    if j == es.len() {
        assert(es.take(j) =~= es);
        assert(p.push(es.last()) =~= es);
    }
}

/// A table that was opened for a file of the levels after a compaction is the one that is there.
proof fn lemma_opened_is_there(
    v: DbView,
    job: JobView,
    disk: Disk,
    after: Seq<Seq<TableView>>,
    f: FileView,
    t: TableView,
)
    requires
        soundness::sound(v, disk),
        v.next_file_num + compaction::outputs(v, job, disk).len() <= u64::MAX,
        compaction::replaced(v, job, disk, after),
        db::level_files(after).contains(f),
        t.file_num == f.file_num,
        is_table(v, compaction::new_tables(v, job, disk), t),
    ensures
        version::flat(after).contains(t),
{
    let news = compaction::new_tables(v, job, disk);
    files::lemma_level_files(after, f);
    let (l, p) = choose|l: int, p: int| #[trigger] files::is_file_of(after, f, l, p);
    let u = after[l][p];
    assert(after[l].contains(u));
    scans::lemma_flat(after, u);
    scans::lemma_flat(v.levels, t);
    let old = v.levels[l].contains(u) && !compaction::is_input(job, l, u);
    if version::flat(v.levels).contains(t) {
        let m = choose|m: int| 0 <= m < v.levels.len() && (#[trigger] v.levels[m]).contains(t);
        if old {
            installs::lemma_same_place(v, m, t, l, u);
        } else {
            let j = choose|j: int| 0 <= j < news.len() && news[j] == u;
            let i = choose|i: int| 0 <= i < v.levels[m].len() && v.levels[m][i] == t;
            assert(v.levels[m][i].file_num < v.next_file_num);
        }
    } else {
        let k = choose|k: int| 0 <= k < news.len() && news[k] == t;
        if old {
            let i = choose|i: int| 0 <= i < v.levels[l].len() && v.levels[l][i] == u;
            assert(v.levels[l][i].file_num < v.next_file_num);
        } else {
            let j = choose|j: int| 0 <= j < news.len() && news[j] == u;
            assert(j == k);
        }
    }
}

/// A crash at any point while the edits of a compaction are being logged loses nothing and brings
/// nothing back: the database that is opened after it is sound, and reads as before.
pub proof fn law_crash_in_compaction(
    v: DbView,
    job: JobView,
    disk: Disk,
    before: Seq<EditView>,
    cut: int,
    opened: Seq<Option<TableView>>,
    log: Seq<Record>,
    start: u64,
    user_key: Seq<u8>,
)
    requires
        installs::carried_out(v, job, disk),
        recovery::log_covers(v, disk, log, start),
        logged(before),
        recovery::knows_tables(v, manifest::apply_all(manifest::initial_state(), before)),
        recovery::seqs_known(
            v,
            disk,
            manifest::apply_all(manifest::initial_state(), before).last_seq,
            start,
        ),
        cuttable(installs::compaction_edits(v, job, disk), cut),
        reopens_with(
            v,
            compaction::new_tables(v, job, disk),
            left_state(before, installs::compaction_edits(v, job, disk), cut),
            opened,
        ),
    ensures
        reopens_as(
            v,
            disk,
            left_state(before, installs::compaction_edits(v, job, disk), cut),
            opened,
            log,
            user_key,
        ),
{
    let es = installs::compaction_edits(v, job, disk);
    let news = compaction::new_tables(v, job, disk);
    let state = manifest::apply_all(manifest::initial_state(), before);
    let j = manifest::law_torn_edits(before, es, cut);
    let after = left_state(before, es, cut);
    jobs::law_job_is_ok(v.levels, v.opts, job);
    lemma_compaction_is_one_run(v, job, disk, j);
    if j < es.len() {
        assert(after == state);
        lemma_no_new_table(v, news, v.next_file_num, after, opened);
        recovery::law_reopened_db_is_sound(v, disk, after, opened, log, start);
        recovery::law_reopened_db_reads_the_same(v, disk, after, opened, log, start, user_key);
    } else {
        let now = lemma_tables_for_files(v, job, disk);
        let w = installs::compacted_db(v, job, disk, now);
        installs::lemma_compaction(v, job, disk, now);
        installs::law_compaction_keeps_sound(v, job, disk, now);
        recovery::law_compaction_keeps_log(v, job, disk, now, log, start);
        recovery::law_compaction_is_recorded(v, job, disk, now, state, start);
        assert forall|i: int| 0 <= i < opened.len() implies version::flat(w.levels).contains(
            (#[trigger] opened[i])->Some_0,
        ) by {
            assert(after.files.contains(after.files[i]));
            lemma_opened_is_there(
                v,
                job,
                disk,
                w.levels,
                after.files[i],
                opened[i]->Some_0,
            );
        }
        recovery::law_reopened_db_is_sound(w, disk, after, opened, log, start);
        recovery::law_reopened_db_reads_the_same(w, disk, after, opened, log, start, user_key);
        installs::law_compaction_changes_no_read(v, job, disk, now, user_key, u64::MAX);
    }
}

/// A write that was acknowledged survives a crash, even if the log had been cut short by an earlier
/// one: the log, cut behind its whole records and with the frame of the write behind them, gives it
/// back.
pub proof fn law_acknowledged_write_survives(
    v: DbView,
    disk: Disk,
    state: StateView,
    opened: Seq<Option<TableView>>,
    log: Seq<u8>,
    start: u64,
    user_key: Seq<u8>,
    value: Seq<u8>,
    kind: ValueKind,
)
    requires
        soundness::sound(v, disk),
        wal::recover_log(log) is Ok,
        recovery::log_covers(v, disk, wal::recover_log(log)->Ok_0, start),
        start <= v.next_seq < u64::MAX,
        recovery::knows_tables(v, state),
        recovery::reopens(v, state, opened),
        recovery::seqs_known(v, disk, state.last_seq, start),
        wal::loggable(db::next_record(v, user_key, value, kind)),
    ensures
        ({
            let r = db::next_record(v, user_key, value, kind);
            let whole = log.take(frame::intact_len(log) as int);
            let found = wal::recover_log(whole + frame::frame_bytes(wal::record_bytes(r)));
            let w = db::opened_db(v.opts, state, opened, found->Ok_0);
            &&& found is Ok
            &&& soundness::sound(w, disk)
            &&& model::answer(model::read(db::sources(w, disk), user_key, u64::MAX))
                == model::answer(Some(r))
        }),
{
    let r = db::next_record(v, user_key, value, kind);
    let recs = wal::recover_log(log)->Ok_0;
    let u = db::applied(DbView { next_seq: (v.next_seq + 1) as u64, ..v }, r);
    wal::law_write_follows_recovery(log, r);
    soundness::law_write_keeps_sound(v, disk, user_key, value, kind);
    recovery::law_logged_write_is_covered(v, disk, recs, start, user_key, value, kind);
    writes::law_write_is_read(v, disk, r, user_key, u64::MAX);
    assert(db::sources(u, disk) =~= db::sources(db::applied(v, r), disk));
    recovery::law_reopened_db_is_sound(u, disk, state, opened, recs.push(r), start);
    recovery::law_reopened_db_reads_the_same(u, disk, state, opened, recs.push(r), start, user_key);
}

/// Edits behind whole runs, themselves a whole run, leave the manifest in whole runs.
proof fn lemma_logged_more(before: Seq<EditView>, edits: Seq<EditView>)
    requires
        logged(before),
        logged(edits),
    ensures
        logged(before + edits),
{
    let all = before + edits;
    manifest::lemma_whole_runs_concat(before, edits);
    assert forall|i: int| 0 <= i < all.len() implies manifest::editable(#[trigger] all[i]) by {
        if i < before.len() {
            assert(all[i] == before[i]);
        } else {
            assert(all[i] == edits[i - before.len()]);
        }
    }
}

/// A flush that is logged leaves the manifest in whole runs.
pub proof fn law_flush_logs_a_whole_run(before: Seq<EditView>, v: DbView, t: TableView)
    requires
        logged(before),
        manifest::editable(EditView::AddFile(db::file_of(t, 0))),
    ensures
        logged(before + db::flush_edits(db::file_of(t, 0), v)),
{
    let es = db::flush_edits(db::file_of(t, 0), v);
    recovery::lemma_flush_edits(v, t, manifest::initial_state(), 3);
    lemma_logged_more(before, es);
}

/// A compaction that is logged leaves the manifest in whole runs.
pub proof fn law_compaction_logs_a_whole_run(
    before: Seq<EditView>,
    v: DbView,
    job: JobView,
    disk: Disk,
)
    requires
        logged(before),
        job.level < u32::MAX,
        cuttable(installs::compaction_edits(v, job, disk), 0),
    ensures
        logged(before + installs::compaction_edits(v, job, disk)),
{
    let es = installs::compaction_edits(v, job, disk);
    lemma_compaction_is_one_run(v, job, disk, es.len() as int);
    assert(es.take(es.len() as int) =~= es);
    lemma_logged_more(before, es);
}

} // verus!

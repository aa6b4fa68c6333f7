//! A compaction that is carried out through the manifest keeps the database sound.

use crate::codec;
use crate::compact;
use crate::compact::JobView;
use crate::db;
use crate::db::DbView;
use crate::iter;
use crate::key::Record;
use crate::laws::compaction;
use crate::laws::files;
use crate::laws::jobs;
use crate::laws::levels as placing;
use crate::laws::scans;
use crate::laws::soundness;
use crate::manifest;
use crate::manifest::{EditView, FileView, StateView};
use crate::model;
use crate::snapshot;
use crate::sstable::builder;
use crate::sstable::contents;
use crate::sstable::reader::{Disk, TableView};
use crate::tree;
use crate::version;
use vstd::prelude::*;

verus! {

/// What the manifest is told of the outputs.
pub open spec fn output_metas(v: DbView, job: JobView, disk: Disk) -> Seq<FileView> {
    db::merged_metas(v, job, compaction::input_runs(job, disk))
}

/// The first file number that is free after the compaction.
pub open spec fn next_number(v: DbView, job: JobView, disk: Disk) -> u64 {
    (v.next_file_num + compaction::outputs(v, job, disk).len()) as u64
}

/// The edits that carry out a compaction.
pub open spec fn compaction_edits(v: DbView, job: JobView, disk: Disk) -> Seq<EditView> {
    (compact::additions(output_metas(v, job, disk)) + compact::deletions(job)).push(
        EditView::SetNextFileNum(next_number(v, job, disk)),
    )
}

/// The files that make up the database after a compaction.
pub open spec fn files_now(v: DbView, job: JobView, disk: Disk) -> Seq<FileView> {
    db::files_after(v, compaction_edits(v, job, disk))
}

/// Each file has been opened: those that were there before are the tables they were, and those that
/// the compaction put out are its new tables.
pub open spec fn reopened(
    v: DbView,
    job: JobView,
    disk: Disk,
    opened: Seq<Option<TableView>>,
) -> bool {
    let fs = files_now(v, job, disk);
    &&& opened.len() == fs.len()
    &&& forall|i: int|
        0 <= i < fs.len() ==> {
            &&& (#[trigger] opened[i]) is Some
            &&& opened[i]->Some_0.file_num == fs[i].file_num
            &&& version::flat(v.levels).contains(opened[i]->Some_0) || compaction::new_tables(
                v,
                job,
                disk,
            ).contains(opened[i]->Some_0)
        }
}

/// The job is the one that is due, and what it puts out fits, is numbered, and is on disk.
pub open spec fn carried_out(v: DbView, job: JobView, disk: Disk) -> bool {
    let fs = compaction::outputs(v, job, disk);
    &&& soundness::sound(v, disk)
    &&& compact::pickable(v.levels, v.opts)
    &&& compact::job_for(v.levels, v.opts) == Some(job)
    &&& v.levels.len() <= u32::MAX
    &&& v.next_file_num + fs.len() <= u64::MAX
    &&& forall|j: int|
        0 <= j < fs.len() ==> contents::table_fits(
            #[trigger] fs[j],
            v.opts.block_size,
            v.opts.bloom_bits_per_key,
        )
    &&& forall|j: int|
        0 <= j < fs.len() ==> contents::disk_has(
            disk,
            (v.next_file_num + j) as u64,
            builder::table_file(#[trigger] fs[j], v.opts.block_size, v.opts.bloom_bits_per_key),
        )
}

/// The levels after a compaction.
pub open spec fn levels_after(
    v: DbView,
    job: JobView,
    disk: Disk,
    opened: Seq<Option<TableView>>,
) -> Seq<Seq<TableView>> {
    version::levels_of(files_now(v, job, disk), opened, v.opts.max_levels as nat)
}

/// Two places with the same file number are the same place.
pub proof fn lemma_same_place(v: DbView, l: int, a: TableView, m: int, b: TableView)
    requires
        soundness::numbered(v.levels, v.next_file_num),
        0 <= l < v.levels.len(),
        0 <= m < v.levels.len(),
        v.levels[l].contains(a),
        v.levels[m].contains(b),
        a.file_num == b.file_num,
    ensures
        l == m,
        a == b,
{
    let i = choose|i: int| 0 <= i < v.levels[l].len() && v.levels[l][i] == a;
    let j = choose|j: int| 0 <= j < v.levels[m].len() && v.levels[m][j] == b;
    assert(v.levels[l][i].file_num == v.levels[m][j].file_num);
}

/// A table of a level has a number that was in use.
proof fn lemma_number_in_use(v: DbView, l: int, a: TableView)
    requires
        soundness::numbered(v.levels, v.next_file_num),
        0 <= l < v.levels.len(),
        v.levels[l].contains(a),
    ensures
        a.file_num < v.next_file_num,
{
    let i = choose|i: int| 0 <= i < v.levels[l].len() && v.levels[l][i] == a;
    assert(v.levels[l][i].file_num < v.next_file_num);
}

/// The file of a table survives the deletions of a job exactly if the table is not an input.
proof fn lemma_spared(v: DbView, job: JobView, l: int, t: TableView)
    requires
        soundness::numbered(v.levels, v.next_file_num),
        jobs::job_ok(v.levels, job),
        v.levels.len() <= u32::MAX,
        0 <= l < v.levels.len(),
        v.levels[l].contains(t),
    ensures
        files::spared(db::file_of(t, l), compact::deletions(job)) <==> !compaction::is_input(
            job,
            l,
            t,
        ),
{
    let f = db::file_of(t, l);
    let s = job.upper + job.lower;
    let ds = compact::deletions(job);
    let lv = job.level as int;
    if compaction::is_input(job, l, t) {
        if l == lv {
            let i = choose|i: int| 0 <= i < job.upper.len() && job.upper[i] == t;
            assert(s[i] == t);
            assert(job.upper[i].file_num == t.file_num);
            assert(ds[i] == compact::deletion(job, t));
        } else {
            let i = choose|i: int| 0 <= i < job.lower.len() && job.lower[i] == t;
            let n = job.upper.len() as int;
            assert(s[n + i] == t);
            if compact::has_file(job.upper, t.file_num) {
                let j = choose|j: int|
                    0 <= j < job.upper.len() && (#[trigger] job.upper[j]).file_num == t.file_num;
                assert(job.upper.contains(job.upper[j]));
                lemma_same_place(v, lv, job.upper[j], l, t);
            }
            assert(ds[n + i] == compact::deletion(job, t));
        }
        assert(!files::spared(f, ds));
    } else {
        assert forall|i: int| 0 <= i < ds.len() implies match #[trigger] ds[i] {
            EditView::DeleteFile { level, file_num } => manifest::survives(f, level, file_num),
            _ => true,
        } by {
            let x = s[i];
            if x.file_num == t.file_num {
                if i < job.upper.len() {
                    assert(job.upper[i] == x);
                    assert(job.upper.contains(x));
                    lemma_same_place(v, lv, x, l, t);
                } else {
                    assert(job.lower[i - job.upper.len()] == x);
                    assert(job.lower.contains(x));
                    lemma_same_place(v, lv + 1, x, l, t);
                }
            }
        }
    }
}

/// The files before the deletions of a compaction: those that were there, and those that it put
/// out.
pub open spec fn files_between(v: DbView, job: JobView, disk: Disk) -> Seq<FileView> {
    db::level_files(v.levels) + output_metas(v, job, disk)
}

/// No two of the files before the deletions have the same number.
proof fn lemma_between_distinct(v: DbView, job: JobView, disk: Disk)
    requires
        soundness::numbered(v.levels, v.next_file_num),
        v.next_file_num + compaction::outputs(v, job, disk).len() <= u64::MAX,
    ensures
        files::distinct(files_between(v, job, disk)),
{
    let ms = output_metas(v, job, disk);
    let base = db::level_files(v.levels);
    let both = files_between(v, job, disk);
    files::lemma_level_files_distinct(v.levels, v.next_file_num);
    assert forall|x: int, y: int| 0 <= x < y < both.len() implies (#[trigger] both[x]).file_num != (
    #[trigger] both[y]).file_num by {
        if y < base.len() {
            assert(both[x] == base[x] && both[y] == base[y]);
        } else {
            assert(both[y] == ms[y - base.len()]);
            if x < base.len() {
                assert(both[x] == base[x]);
                assert(base.contains(base[x]));
                files::lemma_level_files(v.levels, base[x]);
                let (l, i) = choose|l: int, i: int| #[trigger]
                    files::is_file_of(v.levels, base[x], l, i);
                assert(v.levels[l][i].file_num < v.next_file_num);
            } else {
                assert(both[x] == ms[x - base.len()]);
            }
        }
    }
}

/// An edit that deletes nothing spares every file.
pub proof fn lemma_spared_push(f: FileView, dels: Seq<EditView>, n: u64)
    ensures
        files::spared(f, dels.push(EditView::SetNextFileNum(n))) <==> files::spared(f, dels),
{
    let tail = dels.push(EditView::SetNextFileNum(n));
    if files::spared(f, dels) {
        assert forall|i: int| 0 <= i < tail.len() implies match #[trigger] tail[i] {
            EditView::DeleteFile { level, file_num } => manifest::survives(f, level, file_num),
            _ => true,
        } by {
            if i < dels.len() {
                assert(tail[i] == dels[i]);
            }
        }
    }
    if files::spared(f, tail) {
        assert forall|i: int| 0 <= i < dels.len() implies match #[trigger] dels[i] {
            EditView::DeleteFile { level, file_num } => manifest::survives(f, level, file_num),
            _ => true,
        } by {
            assert(tail[i] == dels[i]);
        }
    }
}

/// The files after a compaction are those before the deletions that these spare.
pub proof fn lemma_files_spared(v: DbView, job: JobView, disk: Disk, f: FileView)
    requires
        soundness::numbered(v.levels, v.next_file_num),
        v.next_file_num + compaction::outputs(v, job, disk).len() <= u64::MAX,
    ensures
        files_now(v, job, disk).contains(f) <==> (files_between(v, job, disk).contains(f)
            && files::spared(f, compact::deletions(job))),
        files::distinct(files_now(v, job, disk)),
{
    let ms = output_metas(v, job, disk);
    let s0 = StateView {
        files: db::level_files(v.levels),
        next_file_num: v.next_file_num,
        last_seq: v.next_seq,
    };
    let adds = compact::additions(ms);
    let dels = compact::deletions(job);
    let n = next_number(v, job, disk);
    let tail = dels.push(EditView::SetNextFileNum(n));
    assert(compaction_edits(v, job, disk) =~= adds + tail);
    manifest::lemma_apply_concat(s0, adds, tail);
    files::lemma_apply_additions(s0, ms);
    let s1 = manifest::apply_all(s0, adds);
    lemma_between_distinct(v, job, disk);
    assert forall|i: int| 0 <= i < tail.len() implies !((#[trigger] tail[i]) is AddFile) by {
        if i < dels.len() {
            assert(tail[i] == dels[i]);
        }
    }
    files::lemma_apply_deletions(s1, tail, f);
    lemma_spared_push(f, dels, n);
}

/// After a compaction the files are those of the tables that were not inputs, and those that it
/// put out; and no two have the same number.
#[verifier::rlimit(40)]
pub proof fn lemma_files_now(v: DbView, job: JobView, disk: Disk, f: FileView)
    requires
        soundness::numbered(v.levels, v.next_file_num),
        jobs::job_ok(v.levels, job),
        v.levels.len() <= u32::MAX,
        v.next_file_num + compaction::outputs(v, job, disk).len() <= u64::MAX,
    ensures
        files_now(v, job, disk).contains(f) <==> (output_metas(v, job, disk).contains(f) || exists|
            l: int,
            i: int,
        | #[trigger]
            files::is_file_of(v.levels, f, l, i) && !compaction::is_input(job, l, v.levels[l][i])),
        files::distinct(files_now(v, job, disk)),
{
    let ms = output_metas(v, job, disk);
    let base = db::level_files(v.levels);
    let both = files_between(v, job, disk);
    lemma_files_spared(v, job, disk, f);
    files::lemma_level_files(v.levels, f);
    if files_now(v, job, disk).contains(f) {
        let x = choose|x: int| 0 <= x < both.len() && both[x] == f;
        if x < base.len() {
            assert(base[x] == f);
            assert(base.contains(f));
            let (l, i) = choose|l: int, i: int| #[trigger] files::is_file_of(v.levels, f, l, i);
            assert(v.levels[l].contains(v.levels[l][i]));
            lemma_spared(v, job, l, v.levels[l][i]);
        } else {
            assert(ms[x - base.len()] == f);
        }
    }
    if ms.contains(f) {
        let j = choose|j: int| 0 <= j < ms.len() && ms[j] == f;
        assert(both[base.len() + j] == f);
        lemma_new_spared(v, job, f);
    }
    if exists|l: int, i: int| #[trigger]
        files::is_file_of(v.levels, f, l, i) && !compaction::is_input(job, l, v.levels[l][i]) {
        let (l, i) = choose|l: int, i: int| #[trigger]
            files::is_file_of(v.levels, f, l, i) && !compaction::is_input(job, l, v.levels[l][i]);
        assert(v.levels[l].contains(v.levels[l][i]));
        lemma_spared(v, job, l, v.levels[l][i]);
        let x = choose|x: int| 0 <= x < base.len() && base[x] == f;
        assert(both[x] == f);
    }
}

/// A file whose number was not in use survives the deletions of a job.
proof fn lemma_new_spared(v: DbView, job: JobView, f: FileView)
    requires
        soundness::numbered(v.levels, v.next_file_num),
        jobs::job_ok(v.levels, job),
        f.file_num >= v.next_file_num,
    ensures
        files::spared(f, compact::deletions(job)),
{
    let s = job.upper + job.lower;
    let ds = compact::deletions(job);
    assert forall|i: int| 0 <= i < ds.len() implies match #[trigger] ds[i] {
        EditView::DeleteFile { level, file_num } => manifest::survives(f, level, file_num),
        _ => true,
    } by {
        let x = s[i];
        if i < job.upper.len() {
            assert(job.upper[i] == x);
            assert(job.upper.contains(x));
            lemma_number_in_use(v, job.level as int, x);
        } else {
            assert(job.lower[i - job.upper.len()] == x);
            assert(job.lower.contains(x));
            lemma_number_in_use(v, job.level + 1, x);
        }
    }
}

/// A file of the list, its table, and whether that table is an old one or a new one.
proof fn lemma_classify(
    v: DbView,
    job: JobView,
    disk: Disk,
    opened: Seq<Option<TableView>>,
    i: int,
)
    requires
        carried_out(v, job, disk),
        reopened(v, job, disk, opened),
        0 <= i < opened.len(),
    ensures
        ({
            let f = files_now(v, job, disk)[i];
            let t = opened[i]->Some_0;
            let l = f.level as int;
            ||| 0 <= l < v.levels.len() && v.levels[l].contains(t) && !compaction::is_input(job, l, t)
            ||| l == job.level + 1 && compaction::new_tables(v, job, disk).contains(t)
        }),
{
    jobs::law_job_is_ok(v.levels, v.opts, job);
    let fs = files_now(v, job, disk);
    let f = fs[i];
    let t = opened[i]->Some_0;
    let ms = output_metas(v, job, disk);
    let news = compaction::new_tables(v, job, disk);
    assert(fs.contains(f));
    lemma_files_now(v, job, disk, f);
    scans::lemma_flat(v.levels, t);
    if ms.contains(f) {
        let j = choose|j: int| 0 <= j < ms.len() && ms[j] == f;
        if version::flat(v.levels).contains(t) {
            let l = choose|l: int| 0 <= l < v.levels.len() && (#[trigger] v.levels[l]).contains(t);
            lemma_number_in_use(v, l, t);
        }
    } else {
        let (l, p) = choose|l: int, p: int| #[trigger]
            files::is_file_of(v.levels, f, l, p) && !compaction::is_input(job, l, v.levels[l][p]);
        let u = v.levels[l][p];
        assert(v.levels[l].contains(u));
        lemma_number_in_use(v, l, u);
        if news.contains(t) {
            let j = choose|j: int| 0 <= j < news.len() && news[j] == t;
            assert(t.file_num >= v.next_file_num);
        } else {
            let m = choose|m: int| 0 <= m < v.levels.len() && (#[trigger] v.levels[m]).contains(t);
            lemma_same_place(v, m, t, l, u);
        }
    }
}

/// The levels after the compaction hold what they held, with the inputs replaced by the outputs.
#[verifier::rlimit(40)]
proof fn lemma_replaced(
    v: DbView,
    job: JobView,
    disk: Disk,
    opened: Seq<Option<TableView>>,
)
    requires
        carried_out(v, job, disk),
        reopened(v, job, disk, opened),
    ensures
        compaction::replaced(v, job, disk, levels_after(v, job, disk, opened)),
{
    jobs::law_job_is_ok(v.levels, v.opts, job);
    let after = levels_after(v, job, disk, opened);
    let fs = files_now(v, job, disk);
    let ms = output_metas(v, job, disk);
    let news = compaction::new_tables(v, job, disk);
    assert forall|l: int, t: TableView|
        0 <= l < after.len() implies (#[trigger] after[l].contains(t) <==> ((v.levels[l].contains(t)
        && !compaction::is_input(job, l, t)) || (l == job.level + 1 && news.contains(t)))) by {
        version::lemma_level_tables(l, fs, opened, t);
        if after[l].contains(t) {
            let i = choose|i: int|
                0 <= i < fs.len() && #[trigger] version::is_table_of(l, fs, opened, i, t);
            lemma_classify(v, job, disk, opened, i);
        }
        if v.levels[l].contains(t) && !compaction::is_input(job, l, t) {
            let p = choose|p: int| 0 <= p < v.levels[l].len() && v.levels[l][p] == t;
            let f = db::file_of(t, l);
            assert(files::is_file_of(v.levels, f, l, p));
            lemma_files_now(v, job, disk, f);
            let i = choose|i: int| 0 <= i < fs.len() && fs[i] == f;
            let u = opened[i]->Some_0;
            lemma_classify(v, job, disk, opened, i);
            lemma_number_in_use(v, l, t);
            if v.levels[l].contains(u) && !compaction::is_input(job, l, u) {
                lemma_same_place(v, l, u, l, t);
            } else {
                let j = choose|j: int| 0 <= j < news.len() && news[j] == u;
                assert(u.file_num >= v.next_file_num);
            }
            assert(version::is_table_of(l, fs, opened, i, t));
        }
        if l == job.level + 1 && news.contains(t) {
            let j = choose|j: int| 0 <= j < news.len() && news[j] == t;
            let f = ms[j];
            assert(ms.contains(f));
            lemma_files_now(v, job, disk, f);
            let i = choose|i: int| 0 <= i < fs.len() && fs[i] == f;
            let u = opened[i]->Some_0;
            lemma_classify(v, job, disk, opened, i);
            if v.levels[l].contains(u) && !compaction::is_input(job, l, u) {
                lemma_number_in_use(v, l, u);
            } else {
                let k = choose|k: int| 0 <= k < news.len() && news[k] == u;
                assert(k == j);
            }
            assert(version::is_table_of(l, fs, opened, i, t));
        }
    }
}

/// The new tables are in order and hold the records that were dealt out to them.
proof fn lemma_new_tables_ok(v: DbView, job: JobView, disk: Disk, j: int)
    requires
        carried_out(v, job, disk),
        0 <= j < compaction::outputs(v, job, disk).len(),
    ensures
        ({
            let t = compaction::new_tables(v, job, disk)[j];
            let s = compaction::outputs(v, job, disk)[j];
            &&& contents::table_ok(t, disk)
            &&& contents::contents(t, disk) == s
            &&& s.len() > 0
            &&& model::sorted(contents::join(compaction::outputs(v, job, disk)))
            &&& jobs::parted(compaction::outputs(v, job, disk))
            &&& contents::join(compaction::outputs(v, job, disk)) == compaction::output_records(
                v,
                job,
                disk,
            )
        }),
{
    jobs::law_job_is_ok(v.levels, v.opts, job);
    let fs = compaction::outputs(v, job, disk);
    let all = compaction::output_records(v, job, disk);
    jobs::lemma_output_files(all, v.opts.target_file_size);
    compaction::lemma_output(v, job, disk, fs[j][0]);
    jobs::lemma_files_rise(fs, j, j);
    contents::law_table_holds_records(
        disk,
        (v.next_file_num + j) as u64,
        fs[j],
        v.opts.block_size,
        v.opts.bloom_bits_per_key,
    );
}

/// A table of the lower level that is not an input has all keys of the inputs on one side.
proof fn lemma_side(v: DbView, job: JobView, disk: Disk, u: TableView, r: Record)
    requires
        soundness::sound(v, disk),
        jobs::job_ok(v.levels, job),
        v.levels[job.level + 1].contains(u),
        !job.lower.contains(u),
        iter::held(compaction::input_runs(job, disk), r),
    ensures
        codec::bytes_lt(u.largest, compact::range_min(job.upper)) ==> codec::bytes_lt(
            u.largest,
            r.0.user_key,
        ),
        codec::bytes_lt(compact::range_max(job.upper), u.smallest) ==> codec::bytes_lt(
            r.0.user_key,
            u.smallest,
        ),
{
    let l1 = job.level + 1;
    let lo = compact::range_min(job.upper);
    let hi = compact::range_max(job.upper);
    let k = r.0.user_key;
    compaction::lemma_input_held(job, disk, r);
    let t = choose|t: TableView|
        (job.upper.contains(t) || job.lower.contains(t)) && #[trigger] contents::contents(
            t,
            disk,
        ).contains(r);
    compaction::lemma_member_ok(v.levels, disk, l1, u);
    placing::lemma_table_range(u, disk, r);
    if job.upper.contains(t) {
        compaction::lemma_member_ok(v.levels, disk, job.level as int, t);
        placing::lemma_table_range(t, disk, r);
        let a = choose|a: int| 0 <= a < job.upper.len() && job.upper[a] == t;
        jobs::lemma_range(job.upper, a);
        tree::lemma_bytes_le_transitive(lo, t.smallest, k);
        tree::lemma_bytes_le_transitive(k, t.largest, hi);
        if codec::bytes_lt(u.largest, lo) {
            placing::lemma_lt_le(u.largest, lo, k);
        }
        if codec::bytes_lt(hi, u.smallest) {
            placing::lemma_le_lt(k, hi, u.smallest);
        }
    } else {
        compaction::lemma_member_ok(v.levels, disk, l1, t);
        placing::lemma_table_range(t, disk, r);
        assert(v.levels[l1].contains(t));
        lemma_members_apart(v.levels[l1], t, u);
        if codec::bytes_lt(u.largest, lo) {
            if codec::bytes_lt(t.largest, u.smallest) {
                placing::lemma_lt_le(t.largest, u.smallest, u.largest);
                codec::lemma_bytes_lt_transitive(t.largest, u.largest, lo);
                placing::lemma_not_lt_le(t.largest, lo);
            }
            placing::lemma_lt_le(u.largest, t.smallest, k);
        }
        if codec::bytes_lt(hi, u.smallest) {
            if codec::bytes_lt(u.largest, t.smallest) {
                placing::lemma_lt_le(hi, u.smallest, u.largest);
                codec::lemma_bytes_lt_transitive(hi, u.largest, t.smallest);
                placing::lemma_not_lt_le(hi, t.smallest);
            }
            placing::lemma_le_lt(k, t.largest, u.smallest);
        }
    }
}

/// Two tables of a level without overlaps are apart, or the same.
pub proof fn lemma_members_apart(s: Seq<TableView>, a: TableView, b: TableView)
    requires
        tree::disjoint(s),
        s.contains(a),
        s.contains(b),
        a != b,
    ensures
        placing::apart(a, b),
{
    let i = choose|i: int| 0 <= i < s.len() && s[i] == a;
    let j = choose|j: int| 0 <= j < s.len() && s[j] == b;
    if i < j {
        assert(codec::bytes_lt(s[i].largest, s[j].smallest));
    } else {
        assert(codec::bytes_lt(s[j].largest, s[i].smallest));
    }
}

/// An output and a table of its level that was not an input are apart.
proof fn lemma_new_and_old_apart(v: DbView, job: JobView, disk: Disk, j: int, u: TableView)
    requires
        carried_out(v, job, disk),
        0 <= j < compaction::new_tables(v, job, disk).len(),
        v.levels[job.level + 1].contains(u),
        !job.lower.contains(u),
    ensures
        placing::apart(compaction::new_tables(v, job, disk)[j], u),
{
    jobs::law_job_is_ok(v.levels, v.opts, job);
    lemma_new_tables_ok(v, job, disk, j);
    let fs = compaction::outputs(v, job, disk);
    let f = fs[j];
    let all = compaction::output_records(v, job, disk);
    assert(f.contains(f[0]));
    assert(f.contains(f[f.len() - 1]));
    scans::lemma_join_contains(fs, f[0]);
    scans::lemma_join_contains(fs, f[f.len() - 1]);
    assert(fs[j].contains(f[0]));
    compaction::lemma_output(v, job, disk, f[0]);
    compaction::lemma_output(v, job, disk, f[f.len() - 1]);
    lemma_side(v, job, disk, u, f[0]);
    lemma_side(v, job, disk, u, f[f.len() - 1]);
    let lo = compact::range_min(job.upper);
    let hi = compact::range_max(job.upper);
    codec::lemma_bytes_lt_total(lo, u.largest);
    codec::lemma_bytes_lt_total(u.smallest, hi);
}

/// Two outputs are apart.
proof fn lemma_new_apart(v: DbView, job: JobView, disk: Disk, i: int, j: int)
    requires
        carried_out(v, job, disk),
        0 <= i < compaction::new_tables(v, job, disk).len(),
        0 <= j < compaction::new_tables(v, job, disk).len(),
        i != j,
    ensures
        placing::apart(
            compaction::new_tables(v, job, disk)[i],
            compaction::new_tables(v, job, disk)[j],
        ),
{
    let fs = compaction::outputs(v, job, disk);
    lemma_new_tables_ok(v, job, disk, i);
    lemma_new_tables_ok(v, job, disk, j);
    jobs::lemma_output_files(compaction::output_records(v, job, disk), v.opts.target_file_size);
    jobs::lemma_files_rise(fs, i, j);
    jobs::lemma_files_rise(fs, j, i);
}

/// Two tables of one level after the compaction with different numbers are apart.
proof fn lemma_after_apart(
    v: DbView,
    job: JobView,
    disk: Disk,
    opened: Seq<Option<TableView>>,
    l: int,
    i: int,
    j: int,
)
    requires
        carried_out(v, job, disk),
        reopened(v, job, disk, opened),
        1 <= l < v.levels.len(),
        0 <= i < opened.len(),
        0 <= j < opened.len(),
        i != j,
        files_now(v, job, disk)[i].level == l,
        files_now(v, job, disk)[j].level == l,
    ensures
        placing::apart(opened[i]->Some_0, opened[j]->Some_0),
{
    jobs::law_job_is_ok(v.levels, v.opts, job);
    let fs = files_now(v, job, disk);
    let news = compaction::new_tables(v, job, disk);
    let a = opened[i]->Some_0;
    let b = opened[j]->Some_0;
    lemma_files_now(v, job, disk, fs[i]);
    assert(a.file_num != b.file_num) by {
        if i < j {
            assert(fs[i].file_num != fs[j].file_num);
        } else {
            assert(fs[j].file_num != fs[i].file_num);
        }
    }
    lemma_classify(v, job, disk, opened, i);
    lemma_classify(v, job, disk, opened, j);
    let a_old = v.levels[l].contains(a) && !compaction::is_input(job, l, a);
    let b_old = v.levels[l].contains(b) && !compaction::is_input(job, l, b);
    if a_old && b_old {
        lemma_members_apart(v.levels[l], a, b);
    } else if a_old {
        let y = choose|y: int| 0 <= y < news.len() && news[y] == b;
        lemma_new_and_old_apart(v, job, disk, y, a);
    } else if b_old {
        let x = choose|x: int| 0 <= x < news.len() && news[x] == a;
        lemma_new_and_old_apart(v, job, disk, x, b);
    } else {
        let x = choose|x: int| 0 <= x < news.len() && news[x] == a;
        let y = choose|y: int| 0 <= y < news.len() && news[y] == b;
        lemma_new_apart(v, job, disk, x, y);
    }
}

/// Every table after the compaction is in order.
proof fn lemma_after_ok(
    v: DbView,
    job: JobView,
    disk: Disk,
    opened: Seq<Option<TableView>>,
    l: int,
    t: TableView,
)
    requires
        carried_out(v, job, disk),
        reopened(v, job, disk, opened),
        0 <= l < v.levels.len(),
        levels_after(v, job, disk, opened)[l].contains(t),
    ensures
        contents::table_ok(t, disk),
{
    lemma_replaced(v, job, disk, opened);
    let news = compaction::new_tables(v, job, disk);
    if v.levels[l].contains(t) && !compaction::is_input(job, l, t) {
        compaction::lemma_member_ok(v.levels, disk, l, t);
    } else {
        let j = choose|j: int| 0 <= j < news.len() && news[j] == t;
        lemma_new_tables_ok(v, job, disk, j);
    }
}

/// The levels after the compaction are in order.
proof fn lemma_levels_after_ok(
    v: DbView,
    job: JobView,
    disk: Disk,
    opened: Seq<Option<TableView>>,
)
    requires
        carried_out(v, job, disk),
        reopened(v, job, disk, opened),
    ensures
        tree::levels_ok(levels_after(v, job, disk, opened), disk),
        soundness::numbers_rise(levels_after(v, job, disk, opened)[0]),
{
    jobs::law_job_is_ok(v.levels, v.opts, job);
    let after = levels_after(v, job, disk, opened);
    let fs = files_now(v, job, disk);
    assert forall|l: int| 0 <= l < after.len() implies tree::tables_ok(#[trigger] after[l], disk) by {
        assert forall|i: int| 0 <= i < after[l].len() implies contents::table_ok(
            #[trigger] after[l][i],
            disk,
        ) by {
            assert(after[l].contains(after[l][i]));
            lemma_after_ok(v, job, disk, opened, l, after[l][i]);
        }
    }
    assert forall|l: int| 1 <= l < after.len() implies tree::disjoint(#[trigger] after[l]) by {
        assert forall|i: int, t: TableView|
            0 <= i < fs.len() && #[trigger] version::is_table_of(l, fs, opened, i, t) implies placing::ranged(
        t) by {
            version::lemma_level_tables(l, fs, opened, t);
            lemma_after_ok(v, job, disk, opened, l, t);
            placing::lemma_table_range(t, disk, contents::contents(t, disk)[0]);
        }
        assert forall|i: int, j: int, a: TableView, b: TableView|
            0 <= i < j < fs.len() && #[trigger] version::is_table_of(l, fs, opened, i, a)
                && #[trigger] version::is_table_of(l, fs, opened, j, b) implies placing::apart(
            a,
            b,
        ) by {
            lemma_after_apart(v, job, disk, opened, l, i, j);
        }
        placing::lemma_level_disjoint(l, fs, opened);
    }
    assert forall|i: int, j: int, a: TableView, b: TableView|
        0 <= i < j < fs.len() && #[trigger] version::is_table_of(0, fs, opened, i, a)
            && #[trigger] version::is_table_of(0, fs, opened, j, b) implies a.file_num
        != b.file_num by {
        lemma_files_now(v, job, disk, fs[i]);
        assert(fs[i].file_num != fs[j].file_num);
        assert(opened[i]->Some_0.file_num == fs[i].file_num);
        assert(opened[j]->Some_0.file_num == fs[j].file_num);
    }
    placing::lemma_level0_rises(fs, opened);
}

/// Every table after the compaction has a number of its own.
pub proof fn lemma_after_numbered(
    v: DbView,
    job: JobView,
    disk: Disk,
    opened: Seq<Option<TableView>>,
)
    requires
        carried_out(v, job, disk),
        reopened(v, job, disk, opened),
    ensures
        soundness::numbered(levels_after(v, job, disk, opened), next_number(v, job, disk)),
{
    let after = levels_after(v, job, disk, opened);
    let fs = files_now(v, job, disk);
    let news = compaction::new_tables(v, job, disk);
    jobs::law_job_is_ok(v.levels, v.opts, job);
    lemma_replaced(v, job, disk, opened);
    lemma_levels_after_ok(v, job, disk, opened);
    assert forall|l: int, i: int|
        0 <= l < after.len() && 0 <= i < after[l].len() implies (#[trigger] after[l][i]).file_num
        < next_number(v, job, disk) by {
        let t = after[l][i];
        assert(after[l].contains(t));
        if v.levels[l].contains(t) && !compaction::is_input(job, l, t) {
            lemma_number_in_use(v, l, t);
        } else {
            let j = choose|j: int| 0 <= j < news.len() && news[j] == t;
        }
    }
    assert forall|l: int, i: int, m: int, j: int|
        0 <= l < after.len() && 0 <= i < after[l].len() && 0 <= m < after.len() && 0 <= j
            < after[m].len() && (#[trigger] after[l][i]).file_num == (
        #[trigger] after[m][j]).file_num implies l == m && i == j by {
        let a = after[l][i];
        let b = after[m][j];
        assert(after[l].contains(a) && after[m].contains(b));
        version::lemma_level_tables(l, fs, opened, a);
        version::lemma_level_tables(m, fs, opened, b);
        let x = choose|x: int|
            0 <= x < fs.len() && #[trigger] version::is_table_of(l, fs, opened, x, a);
        let y = choose|y: int|
            0 <= y < fs.len() && #[trigger] version::is_table_of(m, fs, opened, y, b);
        assert(opened[x]->Some_0.file_num == fs[x].file_num);
        assert(opened[y]->Some_0.file_num == fs[y].file_num);
        lemma_files_now(v, job, disk, fs[x]);
        if x < y {
            assert(fs[x].file_num != fs[y].file_num);
        }
        if y < x {
            assert(fs[y].file_num != fs[x].file_num);
        }
        assert(l == m && a == b);
        if l == 0 {
            if i < j {
                assert(after[0][i].file_num < after[0][j].file_num);
            }
            if j < i {
                assert(after[0][j].file_num < after[0][i].file_num);
            }
        } else {
            assert(tree::disjoint(after[l]));
            lemma_after_ok(v, job, disk, opened, l, a);
            placing::lemma_table_range(a, disk, contents::contents(a, disk)[0]);
            if i < j {
                assert(codec::bytes_lt(after[l][i].largest, after[l][j].smallest));
                placing::lemma_not_lt_le(a.largest, a.smallest);
            }
            if j < i {
                assert(codec::bytes_lt(after[l][j].largest, after[l][i].smallest));
                placing::lemma_not_lt_le(a.largest, a.smallest);
            }
        }
    }
}

/// The database after a compaction has been carried out.
pub open spec fn compacted_db(
    v: DbView,
    job: JobView,
    disk: Disk,
    opened: Seq<Option<TableView>>,
) -> DbView {
    DbView {
        levels: levels_after(v, job, disk, opened),
        next_file_num: next_number(v, job, disk),
        compact_count: (v.compact_count + 1) as u64,
        disk_bytes_written: db::bytes_added(v.disk_bytes_written, output_metas(v, job, disk)),
        ..v
    }
}

/// A compaction that is carried out replaces its inputs by its outputs.
pub proof fn lemma_compaction(v: DbView, job: JobView, disk: Disk, opened: Seq<Option<TableView>>)
    requires
        carried_out(v, job, disk),
        reopened(v, job, disk, opened),
    ensures
        compaction::compaction(v, job, disk, levels_after(v, job, disk, opened)),
{
    let after = levels_after(v, job, disk, opened);
    jobs::law_job_is_ok(v.levels, v.opts, job);
    lemma_replaced(v, job, disk, opened);
    lemma_levels_after_ok(v, job, disk, opened);
    if job.level == 0 {
        if after[0].len() > 0 {
            let t = after[0][0];
            assert(after[0].contains(t));
            assert(v.levels[0].contains(t));
            assert(job.upper.contains(t));
            assert(compaction::is_input(job, 0, t));
        }
    } else {
        assert forall|t: TableView| #[trigger] after[0].contains(t) <==> v.levels[0].contains(t) by {
            assert(!compaction::is_input(job, 0, t));
        }
        placing::lemma_rising_unique(after[0], v.levels[0]);
    }
    assert forall|j: int| 0 <= j < compaction::new_tables(v, job, disk).len() implies contents::table_ok(
        #[trigger] compaction::new_tables(v, job, disk)[j],
        disk,
    ) && contents::contents(compaction::new_tables(v, job, disk)[j], disk) == compaction::outputs(
        v,
        job,
        disk,
    )[j] by {
        lemma_new_tables_ok(v, job, disk, j);
    }
}

/// A compaction that is carried out keeps the database sound: in particular the tables of each
/// level below level 0 still do not overlap, and no file number is used twice.
pub proof fn law_compaction_keeps_sound(
    v: DbView,
    job: JobView,
    disk: Disk,
    opened: Seq<Option<TableView>>,
)
    requires
        carried_out(v, job, disk),
        reopened(v, job, disk, opened),
    ensures
        soundness::sound(compacted_db(v, job, disk, opened), disk),
{
    let after = levels_after(v, job, disk, opened);
    let w = compacted_db(v, job, disk, opened);
    lemma_compaction(v, job, disk, opened);
    compaction::lemma_coherent_after(v, job, disk, after);
    lemma_levels_after_ok(v, job, disk, opened);
    lemma_after_numbered(v, job, disk, opened);
    assert(db::sources(w, disk) == db::sources(compaction::with_levels(v, after), disk));
}

/// A compaction that is carried out changes nothing for a reader at an open snapshot, nor for one
/// who reads without a snapshot: no value is lost, none comes back.
pub proof fn law_compaction_changes_no_read(
    v: DbView,
    job: JobView,
    disk: Disk,
    opened: Seq<Option<TableView>>,
    user_key: Seq<u8>,
    max_seq: u64,
)
    requires
        carried_out(v, job, disk),
        reopened(v, job, disk, opened),
        compaction::spared_reader(v, job, disk, max_seq),
    ensures
        model::answer(
            model::read(db::sources(compacted_db(v, job, disk, opened), disk), user_key, max_seq),
        ) == model::answer(model::read(db::sources(v, disk), user_key, max_seq)),
{
    let after = levels_after(v, job, disk, opened);
    let w = compacted_db(v, job, disk, opened);
    lemma_compaction(v, job, disk, opened);
    compaction::law_compaction_keeps_reads(v, job, disk, after, user_key, max_seq);
    assert(db::sources(w, disk) == db::sources(compaction::with_levels(v, after), disk));
}

/// What an open snapshot reads, it reads after a compaction.
pub proof fn law_snapshot_outlives_compaction(
    v: DbView,
    job: JobView,
    disk: Disk,
    opened: Seq<Option<TableView>>,
    i: int,
    user_key: Seq<u8>,
)
    requires
        carried_out(v, job, disk),
        reopened(v, job, disk, opened),
        0 <= i < v.snapshots.len(),
    ensures
        model::answer(
            model::read(
                db::sources(compacted_db(v, job, disk, opened), disk),
                user_key,
                v.snapshots[i],
            ),
        ) == model::answer(model::read(db::sources(v, disk), user_key, v.snapshots[i])),
{
    snapshot::law_watermark_is_oldest(v.snapshots);
    law_compaction_changes_no_read(v, job, disk, opened, user_key, v.snapshots[i]);
}

} // verus!

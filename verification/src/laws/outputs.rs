//! What a compaction puts out, how it is dealt out to files, and which files are given up for it.

use crate::compact;
use crate::compact::JobView;
use crate::db;
use crate::db::DbView;
use crate::key::Record;
use crate::laws::compaction;
use crate::laws::installs;
use crate::laws::jobs;
use crate::laws::soundness;
use crate::manifest::{EditView, FileView};
use crate::options::Options;
use crate::sstable::builder;
use crate::sstable::contents;
use crate::sstable::reader::{Disk, TableView};
use vstd::prelude::*;

verus! {

/// Bytes of a run of records: key, value, and sixteen for each.
pub open spec fn load(s: Seq<Record>) -> int {
    s.fold_left(0int, |n: int, r: Record| n + r.0.user_key.len() + r.1.len() + 16)
}

/// The file is not closed too early within itself: wherever the user key changes, what stands
/// before is below the target.
pub open spec fn not_overfilled(f: Seq<Record>, target: usize) -> bool {
    forall|i: int, j: int|
        0 <= i < j < f.len() && j == i + 1 && (#[trigger] f[i]).0.user_key != (
        #[trigger] f[j]).0.user_key ==> load(f.take(j)) < target
}

proof fn lemma_load_push(s: Seq<Record>, r: Record)
    ensures
        load(s.push(r)) == load(s) + r.0.user_key.len() + r.1.len() + 16,
{
    reveal(Seq::fold_left);
    assert(s.push(r).drop_last() =~= s);
}

proof fn lemma_load_empty()
    ensures
        load(Seq::<Record>::empty()) == 0,
{
    reveal(Seq::fold_left);
}

proof fn lemma_not_overfilled_push(f: Seq<Record>, r: Record, target: usize)
    requires
        not_overfilled(f, target),
        f.len() > 0 && f.last().0.user_key != r.0.user_key ==> load(f) < target,
    ensures
        not_overfilled(f.push(r), target),
{
    let g = f.push(r);
    assert forall|i: int, j: int|
        0 <= i < j < g.len() && j == i + 1 && (#[trigger] g[i]).0.user_key != (
        #[trigger] g[j]).0.user_key implies load(g.take(j)) < target by {
        assert(g[i] == f[i]);
        assert(g.take(j) =~= f.take(j));
        if j < f.len() {
            assert(g[j] == f[j]);
        } else {
            assert(f.take(j) =~= f);
        }
    }
}

proof fn lemma_file_cut(s: Seq<Record>, target: usize)
    ensures
        ({
            let c = compact::file_cut(s, target);
            &&& c.size == load(c.open)
            &&& not_overfilled(c.open, target)
            &&& forall|i: int|
                0 <= i < c.full.len() ==> load(#[trigger] c.full[i]) >= target && not_overfilled(
                    c.full[i],
                    target,
                )
        }),
    decreases s.len(),
{
    let c = compact::file_cut(s, target);
    lemma_load_empty();
    if s.len() > 0 {
        let d = compact::file_cut(s.drop_last(), target);
        let r = s.last();
        lemma_file_cut(s.drop_last(), target);
        if compact::closes(d.open, d.size, r, target) {
            let none = Seq::<Record>::empty();
            lemma_load_push(none, r);
            assert(none.push(r) =~= seq![r]);
            assert forall|i: int| 0 <= i < c.full.len() implies load(#[trigger] c.full[i]) >= target
                && not_overfilled(c.full[i], target) by {
                if i < d.full.len() {
                    assert(c.full[i] == d.full[i]);
                }
            }
        } else {
            lemma_load_push(d.open, r);
            lemma_not_overfilled_push(d.open, r, target);
        }
    }
}

/// How records are dealt out to files: joined, the files are the records again; no file is empty,
/// and none starts with the user key that the one before it ends with. Every file but the last has
/// reached the target; and in no file had it been reached before the last user key.
pub proof fn law_files_have_their_size(s: Seq<Record>, target: usize)
    ensures
        ({
            let fs = compact::output_files(s, target);
            &&& contents::join(fs) == s
            &&& forall|i: int| 0 <= i < fs.len() ==> (#[trigger] fs[i]).len() > 0
            &&& forall|i: int, j: int|
                0 <= i < j < fs.len() && j == i + 1 ==> (#[trigger] fs[i]).last().0.user_key != (
                #[trigger] fs[j])[0].0.user_key
            &&& forall|i: int| 0 <= i < fs.len() - 1 ==> load(#[trigger] fs[i]) >= target
            &&& forall|i: int| 0 <= i < fs.len() ==> not_overfilled(#[trigger] fs[i], target)
        }),
{
    let fs = compact::output_files(s, target);
    let c = compact::file_cut(s, target);
    jobs::lemma_output_files(s, target);
    lemma_file_cut(s, target);
    assert forall|i: int| 0 <= i < fs.len() implies not_overfilled(#[trigger] fs[i], target) && (i
        < fs.len() - 1 ==> load(fs[i]) >= target) by {
        if i < c.full.len() {
            assert(fs[i] == c.full[i]);
        }
    }
}

/// A compaction deals out what survives to files of the target size that the options name.
pub proof fn law_outputs_have_their_size(
    level: usize,
    runs: Seq<Seq<Record>>,
    opts: Options,
    watermark: u64,
)
    ensures
        ({
            let fs = compact::compacted(level, runs, opts, watermark);
            &&& contents::join(fs) == compact::survivors(
                runs,
                level + 1,
                watermark,
                opts.max_levels,
            )
            &&& forall|i: int| 0 <= i < fs.len() ==> (#[trigger] fs[i]).len() > 0
            &&& forall|i: int, j: int|
                0 <= i < j < fs.len() && j == i + 1 ==> (#[trigger] fs[i]).last().0.user_key != (
                #[trigger] fs[j])[0].0.user_key
            &&& forall|i: int|
                0 <= i < fs.len() - 1 ==> load(#[trigger] fs[i]) >= opts.target_file_size
            &&& forall|i: int|
                0 <= i < fs.len() ==> not_overfilled(#[trigger] fs[i], opts.target_file_size)
        }),
{
    law_files_have_their_size(
        compact::survivors(runs, level + 1, watermark, opts.max_levels),
        opts.target_file_size,
    );
}

/// Records that stay below the target are put into one file.
pub proof fn law_small_output_is_one_file(s: Seq<Record>, target: usize)
    requires
        s.len() > 0,
        load(s) < target,
    ensures
        compact::output_files(s, target) == seq![s],
{
    let fs = compact::output_files(s, target);
    law_files_have_their_size(s, target);
    if fs.len() == 0 {
        assert(contents::join(fs).len() == 0);
    } else if fs.len() > 1 {
        contents::lemma_join_front(fs);
        let rest = contents::join(fs.skip(1));
        assert(s == fs[0] + rest);
        lemma_load_concat(fs[0], rest);
        assert(load(fs[0]) >= target);
    } else {
        assert(fs.drop_last() =~= Seq::<Seq<Record>>::empty());
        assert(contents::join(fs.drop_last()) =~= Seq::<Record>::empty());
        assert(contents::join(fs) =~= fs[0]);
        assert(fs =~= seq![s]);
    }
}

proof fn lemma_load_concat(a: Seq<Record>, b: Seq<Record>)
    ensures
        load(a + b) == load(a) + load(b),
        load(b) >= 0,
    decreases b.len(),
{
    lemma_load_empty();
    if b.len() == 0 {
        assert(a + b =~= a);
        assert(b =~= Seq::<Record>::empty());
    } else {
        let p = b.drop_last();
        lemma_load_concat(a, p);
        lemma_load_push(p, b.last());
        assert(p.push(b.last()) =~= b);
        lemma_load_push(a + p, b.last());
        assert((a + p).push(b.last()) =~= a + b);
    }
}

/// What the manifest is told of each output: the numbers follow on each other, the level is the one
/// below that of the job, the keys are the first and the last of the file, and the size is that of
/// its bytes.
pub proof fn law_outputs_are_described(
    files: Seq<Seq<Record>>,
    opts: Options,
    level: usize,
    next_file_num: u64,
    i: int,
)
    requires
        0 <= i < files.len(),
        next_file_num + files.len() <= u64::MAX,
        level < u32::MAX,
        files[i].len() > 0,
        compact::output_bytes(files, opts)[i].len() <= u64::MAX,
    ensures
        ({
            let ms = compact::output_metas(files, opts, level, next_file_num);
            let bs = compact::output_bytes(files, opts);
            &&& ms.len() == files.len()
            &&& bs.len() == files.len()
            &&& ms[i].file_num == next_file_num + i
            &&& ms[i].level == level + 1
            &&& ms[i].smallest == files[i][0].0.user_key
            &&& ms[i].largest == files[i][files[i].len() - 1].0.user_key
            &&& ms[i].file_size == bs[i].len()
            &&& bs[i] == builder::table_file(files[i], opts.block_size, opts.bloom_bits_per_key)
        }),
{
}

/// What the manifest is told of a flushed table: its number, level 0, its first and its last key,
/// and the size of its bytes; and that is what is known of the table once it is open.
pub proof fn law_flush_is_described(s: Seq<Record>, opts: Options, file_num: u64)
    requires
        s.len() > 0,
        builder::table_file(s, opts.block_size, opts.bloom_bits_per_key).len() <= u64::MAX,
    ensures
        ({
            let m = db::flush_meta(s, opts, file_num);
            &&& m.file_num == file_num
            &&& m.level == 0
            &&& m.smallest == s[0].0.user_key
            &&& m.largest == s[s.len() - 1].0.user_key
            &&& m.file_size == builder::table_file(
                s,
                opts.block_size,
                opts.bloom_bits_per_key,
            ).len()
            &&& m == db::file_of(
                contents::table_view(file_num, s, opts.block_size, opts.bloom_bits_per_key),
                0,
            )
        }),
{
}

/// The files that edits give up are those that some edit of theirs deletes, on whatever level.
pub proof fn law_deleted_files_are_given_up(edits: Seq<EditView>, n: u64)
    ensures
        db::deleted_files(edits).contains(n) <==> exists|i: int, l: u32|
            0 <= i < edits.len() && #[trigger] deletes(edits[i], l, n),
    decreases edits.len(),
{
    let all = db::deleted_files(edits);
    if edits.len() == 0 {
        assert(!all.contains(n));
    } else {
        let p = edits.drop_last();
        let q = db::deleted_files(p);
        law_deleted_files_are_given_up(p, n);
        if exists|i: int, l: u32| 0 <= i < edits.len() && #[trigger] deletes(edits[i], l, n) {
            let (i, l) = choose|i: int, l: u32|
                0 <= i < edits.len() && #[trigger] deletes(edits[i], l, n);
            if i < p.len() {
                assert(deletes(p[i], l, n));
                let k = choose|k: int| 0 <= k < q.len() && q[k] == n;
                assert(all[k] == n);
            } else {
                assert(all[q.len() as int] == n);
            }
        }
        if all.contains(n) {
            let k = choose|k: int| 0 <= k < all.len() && all[k] == n;
            if k < q.len() {
                assert(q[k] == n);
                assert(q.contains(n));
                let (i, l) = choose|i: int, l: u32|
                    0 <= i < p.len() && #[trigger] deletes(p[i], l, n);
                assert(deletes(edits[i], l, n));
            } else {
                let e = edits[edits.len() - 1];
                if let EditView::DeleteFile { level, file_num } = e {
                    assert(deletes(e, level, n));
                }
            }
        }
    }
}

/// The edit deletes file `n` on level `level`.
pub open spec fn deletes(e: EditView, level: u32, n: u64) -> bool {
    e == EditView::DeleteFile { level, file_num: n }
}

/// The edits of a compaction: what the job puts out is added, what it took in is deleted, and the
/// next file number is set.
pub open spec fn job_edits(job: JobView, ms: Seq<FileView>, n: u64) -> Seq<EditView> {
    (compact::additions(ms) + compact::deletions(job)).push(EditView::SetNextFileNum(n))
}

/// The files that a compaction gives up are those of its inputs, upper and lower, one after the
/// other, and no others.
pub proof fn law_inputs_are_given_up(job: JobView, ms: Seq<FileView>, n: u64)
    ensures
        db::deleted_files(job_edits(job, ms, n)).len() == job.upper.len() + job.lower.len(),
        forall|i: int|
            0 <= i < job.upper.len() ==> db::deleted_files(job_edits(job, ms, n))[i] == (
            #[trigger] job.upper[i]).file_num,
        forall|i: int|
            0 <= i < job.lower.len() ==> db::deleted_files(job_edits(job, ms, n))[job.upper.len()
                + i] == (#[trigger] job.lower[i]).file_num,
{
    let s = job.upper + job.lower;
    let adds = compact::additions(ms);
    let dels = compact::deletions(job);
    let es = job_edits(job, ms, n);
    assert(es.drop_last() =~= adds + dels);
    assert forall|i: int| 0 <= i < adds.len() implies (#[trigger] adds[i]) is AddFile by {}
    lemma_deleted_tail(adds, dels);
    assert(dels.take(dels.len() as int) =~= dels);
    lemma_deletions_in_order(job, dels.len() as int);
    let all = db::deleted_files(es);
    assert forall|i: int| 0 <= i < job.upper.len() implies all[i] == (
    #[trigger] job.upper[i]).file_num by {
        assert(s[i] == job.upper[i]);
    }
    assert forall|i: int| 0 <= i < job.lower.len() implies all[job.upper.len() + i] == (
    #[trigger] job.lower[i]).file_num by {
        assert(s[job.upper.len() + i] == job.lower[i]);
    }
}

proof fn lemma_deleted_tail(adds: Seq<EditView>, dels: Seq<EditView>)
    requires
        forall|i: int| 0 <= i < adds.len() ==> (#[trigger] adds[i]) is AddFile,
    ensures
        db::deleted_files(adds + dels) == db::deleted_files(dels),
    decreases adds.len() + dels.len(),
{
    if dels.len() > 0 {
        lemma_deleted_tail(adds, dels.drop_last());
        assert((adds + dels).drop_last() =~= adds + dels.drop_last());
        assert((adds + dels).last() == dels.last());
    } else if adds.len() > 0 {
        let p = adds.drop_last();
        assert forall|i: int| 0 <= i < p.len() implies (#[trigger] p[i]) is AddFile by {
            assert(p[i] == adds[i]);
        }
        lemma_deleted_tail(p, dels);
        assert(adds + dels =~= adds);
        assert(p + dels =~= p);
        assert(adds[adds.len() - 1] is AddFile);
    }
}

proof fn lemma_deletions_in_order(job: JobView, k: int)
    requires
        0 <= k <= job.upper.len() + job.lower.len(),
    ensures
        ({
            let s = job.upper + job.lower;
            let ds = db::deleted_files(compact::deletions(job).take(k));
            &&& ds.len() == k
            &&& forall|i: int| 0 <= i < k ==> ds[i] == (#[trigger] s[i]).file_num
        }),
    decreases k,
{
    let s = job.upper + job.lower;
    let dels = compact::deletions(job);
    if k > 0 {
        lemma_deletions_in_order(job, k - 1);
        assert(dels.take(k).drop_last() =~= dels.take(k - 1));
        assert(dels.take(k).last() == compact::deletion(job, s[k - 1]));
    }
}

/// The edits that a compaction logs are those of its job, with what it puts out.
proof fn lemma_edits_of_job(v: DbView, job: JobView, disk: Disk)
    ensures
        installs::compaction_edits(v, job, disk) == job_edits(
            job,
            installs::output_metas(v, job, disk),
            installs::next_number(v, job, disk),
        ),
{
}

/// After a compaction, a file that is given up belongs to no table of any level; and a table that
/// was in some level before and is in none after has its file given up: nothing that is needed is
/// deleted, and nothing is left behind.
pub proof fn law_given_up_files_are_unused(
    v: DbView,
    job: JobView,
    disk: Disk,
    opened: Seq<Option<TableView>>,
    l: int,
    t: TableView,
)
    requires
        installs::carried_out(v, job, disk),
        installs::reopened(v, job, disk, opened),
        0 <= l < v.levels.len(),
    ensures
        ({
            let gone = db::deleted_files(installs::compaction_edits(v, job, disk));
            let after = installs::compacted_db(v, job, disk, opened).levels;
            &&& after[l].contains(t) ==> !gone.contains(t.file_num)
            &&& v.levels[l].contains(t) && !after[l].contains(t) ==> gone.contains(t.file_num)
        }),
{
    let ms = installs::output_metas(v, job, disk);
    let n = installs::next_number(v, job, disk);
    lemma_edits_of_job(v, job, disk);
    jobs::law_job_is_ok(v.levels, v.opts, job);
    installs::lemma_compaction(v, job, disk, opened);
    let after = installs::levels_after(v, job, disk, opened);
    if v.levels[l].contains(t) && !after[l].contains(t) {
        assert(compaction::is_input(job, l, t));
        lemma_input_given_up(job, ms, n, t);
    }
    if after[l].contains(t) && db::deleted_files(job_edits(job, ms, n)).contains(t.file_num) {
        let (m, u) = lemma_given_up_input(v.levels, job, ms, n, t.file_num);
        lemma_input_is_gone(v, job, disk, l, t, m, u);
    }
}

/// The number of an input is given up.
proof fn lemma_input_given_up(job: JobView, ms: Seq<FileView>, n: u64, t: TableView)
    requires
        job.upper.contains(t) || job.lower.contains(t),
    ensures
        db::deleted_files(job_edits(job, ms, n)).contains(t.file_num),
{
    law_inputs_are_given_up(job, ms, n);
    let gone = db::deleted_files(job_edits(job, ms, n));
    let k = job.upper.len() as int;
    if job.upper.contains(t) {
        let i = choose|i: int| 0 <= i < job.upper.len() && job.upper[i] == t;
        assert(gone[i] == job.upper[i].file_num);
    } else {
        let i = choose|i: int| 0 <= i < job.lower.len() && job.lower[i] == t;
        assert(gone[k + i] == job.lower[i].file_num);
    }
}

/// A number that is given up is that of an input.
proof fn lemma_given_up_input(
    levels: Seq<Seq<TableView>>,
    job: JobView,
    ms: Seq<FileView>,
    n: u64,
    file_num: u64,
) -> (r: (int, TableView))
    requires
        jobs::job_ok(levels, job),
        db::deleted_files(job_edits(job, ms, n)).contains(file_num),
    ensures
        0 <= r.0 < levels.len(),
        levels[r.0].contains(r.1),
        compaction::is_input(job, r.0, r.1),
        r.1.file_num == file_num,
{
    law_inputs_are_given_up(job, ms, n);
    let gone = db::deleted_files(job_edits(job, ms, n));
    let k = job.upper.len() as int;
    let x = choose|x: int| 0 <= x < gone.len() && gone[x] == file_num;
    if x < k {
        let u = job.upper[x];
        assert(job.upper.contains(u));
        (job.level as int, u)
    } else {
        let u = job.lower[x - k];
        assert(gone[k + (x - k)] == job.lower[x - k].file_num);
        assert(job.lower.contains(u));
        (job.level + 1, u)
    }
}

/// No table after a compaction has the number of an input.
proof fn lemma_input_is_gone(
    v: DbView,
    job: JobView,
    disk: Disk,
    l: int,
    t: TableView,
    m: int,
    u: TableView,
)
    requires
        soundness::numbered(v.levels, v.next_file_num),
        v.next_file_num + compaction::outputs(v, job, disk).len() <= u64::MAX,
        0 <= l < v.levels.len(),
        0 <= m < v.levels.len(),
        v.levels[m].contains(u),
        compaction::is_input(job, m, u),
        (v.levels[l].contains(t) && !compaction::is_input(job, l, t)) || compaction::new_tables(
            v,
            job,
            disk,
        ).contains(t),
    ensures
        t.file_num != u.file_num,
{
    let news = compaction::new_tables(v, job, disk);
    if t.file_num == u.file_num {
        if v.levels[l].contains(t) && !compaction::is_input(job, l, t) {
            installs::lemma_same_place(v, m, u, l, t);
        } else {
            let j = choose|j: int| 0 <= j < news.len() && news[j] == t;
            let i = choose|i: int| 0 <= i < v.levels[m].len() && v.levels[m][i] == u;
            assert(v.levels[m][i].file_num < v.next_file_num);
        }
    }
}

} // verus!

//! What a compaction changes for readers: nothing.

use crate::compact;
use crate::compact::JobView;
use crate::db;
use crate::db::DbView;
use crate::iter;
use crate::key::{Record, ValueKind};
use crate::laws::coherence;
use crate::laws::jobs;
use crate::laws::levels as placing;
use crate::laws::scans;
use crate::laws::soundness;
use crate::laws::writes;
use crate::model;
use crate::snapshot;
use crate::sstable::contents;
use crate::sstable::reader::{Disk, TableView};
use crate::tree;
use crate::version;
use vstd::prelude::*;

verus! {

/// What the tables of a job hold, newer tables first.
pub open spec fn input_runs(job: JobView, disk: Disk) -> Seq<Seq<Record>> {
    tree::each_contents(compact::job_tables(job), disk)
}

/// The records that a compaction keeps.
pub open spec fn output_records(v: DbView, job: JobView, disk: Disk) -> Seq<Record> {
    compact::survivors(
        input_runs(job, disk),
        job.level + 1,
        snapshot::watermark_of(v.snapshots),
        v.opts.max_levels,
    )
}

/// The records of each file that a compaction puts out.
pub open spec fn outputs(v: DbView, job: JobView, disk: Disk) -> Seq<Seq<Record>> {
    db::merged_files(v, job, input_runs(job, disk))
}

/// The tables that a compaction puts out.
pub open spec fn new_tables(v: DbView, job: JobView, disk: Disk) -> Seq<TableView> {
    Seq::new(
        outputs(v, job, disk).len(),
        |j: int|
            contents::table_view(
                (v.next_file_num + j) as u64,
                outputs(v, job, disk)[j],
                v.opts.block_size,
                v.opts.bloom_bits_per_key,
            ),
    )
}

/// Table `t` of level `l` is an input of the job.
pub open spec fn is_input(job: JobView, l: int, t: TableView) -> bool {
    (l == job.level && job.upper.contains(t)) || (l == job.level + 1 && job.lower.contains(t))
}

/// The levels `after` hold what those of `v` hold, with the inputs of the job replaced by its
/// outputs.
pub open spec fn replaced(v: DbView, job: JobView, disk: Disk, after: Seq<Seq<TableView>>) -> bool {
    &&& after.len() == v.levels.len()
    &&& forall|l: int, t: TableView|
        0 <= l < after.len() ==> (#[trigger] after[l].contains(t) <==> ((v.levels[l].contains(t)
            && !is_input(job, l, t)) || (l == job.level + 1 && new_tables(v, job, disk).contains(t))))
}

/// A sound database, a job on it, and the levels after the job.
pub open spec fn compaction(v: DbView, job: JobView, disk: Disk, after: Seq<Seq<TableView>>) -> bool {
    &&& soundness::sound(v, disk)
    &&& jobs::job_ok(v.levels, job)
    &&& replaced(v, job, disk, after)
    &&& tree::levels_ok(after, disk)
    &&& job.level == 0 ==> after[0].len() == 0
    &&& job.level > 0 ==> after[0] == v.levels[0]
    &&& forall|j: int|
        0 <= j < new_tables(v, job, disk).len() ==> contents::table_ok(
            #[trigger] new_tables(v, job, disk)[j],
            disk,
        ) && contents::contents(new_tables(v, job, disk)[j], disk) == outputs(v, job, disk)[j]
}

/// The database with other levels.
pub open spec fn with_levels(v: DbView, after: Seq<Seq<TableView>>) -> DbView {
    DbView { levels: after, ..v }
}

/// Where what level `l`, from 1 on, holds stands among the sources.
pub open spec fn level_index(v: DbView, l: int) -> int {
    v.imms.len() + v.levels[0].len() + l
}

/// Where the first of the sources stands that hold upper inputs of the job.
pub open spec fn first_upper(v: DbView, job: JobView) -> int {
    if job.level == 0 {
        v.imms.len() as int + 1
    } else {
        level_index(v, job.level as int)
    }
}

/// How the sources are laid out.
pub proof fn lemma_layout(v: DbView, disk: Disk)
    requires
        v.levels.len() > 0,
    ensures
        db::sources(v, disk).len() == v.imms.len() + v.levels[0].len() + v.levels.len(),
        forall|i: int|
            0 <= i <= v.imms.len() ==> #[trigger] db::sources(v, disk)[i] == db::memory(v)[i],
        forall|i: int|
            v.imms.len() < i <= v.imms.len() + v.levels[0].len()
                ==> #[trigger] db::sources(v, disk)[i] == contents::contents(
                v.levels[0][v.levels[0].len() + v.imms.len() - i],
                disk,
            ),
        forall|i: int|
            v.imms.len() + v.levels[0].len() < i < db::sources(v, disk).len()
                ==> #[trigger] db::sources(v, disk)[i] == tree::level_contents(
                v.levels[i - v.imms.len() - v.levels[0].len()],
                disk,
            ),
{
    let ss = db::sources(v, disk);
    let n = v.imms.len() + 1;
    let n0 = v.levels[0].len();
    let us = tree::table_sources(v.levels, disk);
    assert(db::memory(v).len() == n);
    assert forall|i: int| n <= i < ss.len() implies #[trigger] ss[i] == us[i - n] by {}
    assert forall|i: int| v.imms.len() < i <= v.imms.len() + n0 implies #[trigger] ss[i]
        == contents::contents(v.levels[0][n0 + v.imms.len() - i], disk) by {
        assert(us[i - n] == tree::each_contents(v.levels[0].reverse(), disk)[i - n]);
    }
    assert forall|i: int| v.imms.len() + n0 < i < ss.len() implies #[trigger] ss[i]
        == tree::level_contents(v.levels[i - v.imms.len() - n0], disk) by {
        let l = i - v.imms.len() - n0;
        assert(us[i - n] == tree::leveled_sources(v.levels.skip(1), disk)[l - 1]);
        assert(v.levels.skip(1)[l - 1] == v.levels[l]);
    }
}

/// A table of a level that is in order is in order.
pub proof fn lemma_member_ok(levels: Seq<Seq<TableView>>, disk: Disk, l: int, t: TableView)
    requires
        tree::levels_ok(levels, disk),
        0 <= l < levels.len(),
        levels[l].contains(t),
    ensures
        contents::table_ok(t, disk),
{
    assert(tree::tables_ok(levels[l], disk));
    let i = choose|i: int| 0 <= i < levels[l].len() && levels[l][i] == t;
    assert(contents::table_ok(levels[l][i], disk));
}

/// The tables of a job are those of its two levels.
pub proof fn lemma_job_tables(job: JobView, t: TableView)
    ensures
        compact::job_tables(job).contains(t) <==> (job.upper.contains(t) || job.lower.contains(t)),
{
    let ts = compact::job_tables(job);
    let n = job.upper.len() as int;
    if ts.contains(t) {
        let i = choose|i: int| 0 <= i < ts.len() && ts[i] == t;
        if i < n {
            assert(job.upper[n - 1 - i] == t);
        } else {
            assert(job.lower[i - n] == t);
        }
    }
    if job.upper.contains(t) {
        let i = choose|i: int| 0 <= i < n && job.upper[i] == t;
        assert(ts[n - 1 - i] == t);
    }
    if job.lower.contains(t) {
        let i = choose|i: int| 0 <= i < job.lower.len() && job.lower[i] == t;
        assert(ts[n + i] == t);
    }
}

/// What the runs of a job hold, some table of the job holds, and the other way round.
pub proof fn lemma_input_held(job: JobView, disk: Disk, r: Record)
    ensures
        iter::held(input_runs(job, disk), r) <==> exists|t: TableView|
            (job.upper.contains(t) || job.lower.contains(t)) && #[trigger] contents::contents(
                t,
                disk,
            ).contains(r),
{
    let ts = compact::job_tables(job);
    let runs = input_runs(job, disk);
    if iter::held(runs, r) {
        let i = choose|i: int| 0 <= i < runs.len() && (#[trigger] runs[i]).contains(r);
        assert(ts.contains(ts[i]));
        lemma_job_tables(job, ts[i]);
        assert(contents::contents(ts[i], disk).contains(r));
    }
    if exists|t: TableView|
        (job.upper.contains(t) || job.lower.contains(t)) && #[trigger] contents::contents(
            t,
            disk,
        ).contains(r) {
        let t = choose|t: TableView|
            (job.upper.contains(t) || job.lower.contains(t)) && #[trigger] contents::contents(
                t,
                disk,
            ).contains(r);
        lemma_job_tables(job, t);
        let i = choose|i: int| 0 <= i < ts.len() && ts[i] == t;
        assert(runs[i].contains(r));
    }
}

/// The runs of a job are sorted.
pub proof fn lemma_inputs_sorted(v: DbView, job: JobView, disk: Disk)
    requires
        tree::levels_ok(v.levels, disk),
        jobs::job_ok(v.levels, job),
    ensures
        iter::all_sorted(input_runs(job, disk)),
{
    let ts = compact::job_tables(job);
    let runs = input_runs(job, disk);
    assert forall|i: int| 0 <= i < runs.len() implies model::sorted(#[trigger] runs[i]) by {
        let t = ts[i];
        assert(ts.contains(t));
        lemma_job_tables(job, t);
        if job.upper.contains(t) {
            lemma_member_ok(v.levels, disk, job.level as int, t);
        } else {
            lemma_member_ok(v.levels, disk, job.level + 1, t);
        }
    }
}

/// What the tables of a job hold, the database holds.
pub proof fn lemma_input_in_db(v: DbView, job: JobView, disk: Disk, r: Record)
    requires
        jobs::job_ok(v.levels, job),
        iter::held(input_runs(job, disk), r),
    ensures
        iter::held(db::sources(v, disk), r),
{
    lemma_input_held(job, disk, r);
    let t = choose|t: TableView|
        (job.upper.contains(t) || job.lower.contains(t)) && #[trigger] contents::contents(
            t,
            disk,
        ).contains(r);
    if job.upper.contains(t) {
        lemma_held_in_level(v, disk, job.level as int, t, r);
    } else {
        lemma_held_in_level(v, disk, job.level + 1, t, r);
    }
}

/// Which records a job keeps, and that they are sorted.
pub proof fn lemma_output(v: DbView, job: JobView, disk: Disk, r: Record)
    requires
        soundness::sound(v, disk),
        jobs::job_ok(v.levels, job),
    ensures
        model::sorted(output_records(v, job, disk)),
        output_records(v, job, disk).contains(r) <==> iter::held(input_runs(job, disk), r)
            && !jobs::outdated(input_runs(job, disk), r, snapshot::watermark_of(v.snapshots))
            && !compact::droppable(
            r,
            job.level + 1,
            snapshot::watermark_of(v.snapshots),
            v.opts.max_levels,
        ),
{
    let runs = input_runs(job, disk);
    lemma_inputs_sorted(v, job, disk);
    assert forall|a: Record, b: Record| #[trigger]
        iter::held(runs, a) && #[trigger] iter::held(runs, b) implies coherence::compatible(a, b) by {
        lemma_input_in_db(v, job, disk, a);
        lemma_input_in_db(v, job, disk, b);
    }
    jobs::law_compaction_keeps_needed(
        runs,
        job.level + 1,
        snapshot::watermark_of(v.snapshots),
        v.opts.max_levels,
        r,
    );
}

/// The source, between the first of the upper ones and the lower one, in which an input stands, and
/// that it finds there what the input finds.
proof fn lemma_input_source(
    v: DbView,
    job: JobView,
    disk: Disk,
    t: TableView,
    user_key: Seq<u8>,
    max_seq: u64,
) -> (e: int)
    requires
        soundness::sound(v, disk),
        jobs::job_ok(v.levels, job),
        job.upper.contains(t) || job.lower.contains(t),
        version::spans(t, user_key),
    ensures
        contents::table_ok(t, disk),
        0 <= e < db::sources(v, disk).len(),
        first_upper(v, job) <= e <= level_index(v, job.level + 1),
        job.lower.contains(t) && !job.upper.contains(t) ==> e == level_index(v, job.level + 1),
        model::find(db::sources(v, disk)[e], user_key, max_seq) == model::find(
            contents::contents(t, disk),
            user_key,
            max_seq,
        ),
{
    lemma_layout(v, disk);
    let l = job.level as int;
    let n0 = v.levels[0].len() as int;
    if job.upper.contains(t) {
        lemma_member_ok(v.levels, disk, l, t);
        if l == 0 {
            let p = choose|p: int| 0 <= p < n0 && v.levels[0][p] == t;
            let e = v.imms.len() + n0 - p;
            assert(v.levels[0][n0 + v.imms.len() - e] == t);
            assert(db::sources(v, disk)[e] == contents::contents(t, disk));
            e
        } else {
            assert(tree::tables_ok(v.levels[l], disk));
            placing::lemma_find_in_level(v.levels[l], disk, t, user_key, max_seq);
            assert(db::sources(v, disk)[level_index(v, l)] == tree::level_contents(
                v.levels[l],
                disk,
            ));
            level_index(v, l)
        }
    } else {
        lemma_member_ok(v.levels, disk, l + 1, t);
        assert(tree::tables_ok(v.levels[l + 1], disk));
        placing::lemma_find_in_level(v.levels[l + 1], disk, t, user_key, max_seq);
        assert(db::sources(v, disk)[level_index(v, l + 1)] == tree::level_contents(
            v.levels[l + 1],
            disk,
        ));
        level_index(v, l + 1)
    }
}

/// The newest version of a key that a reader sees of what compaction keeps, a source of the inputs
/// finds.
proof fn lemma_survivor_source(
    v: DbView,
    job: JobView,
    disk: Disk,
    r: Record,
    max_seq: u64,
) -> (e: int)
    requires
        soundness::sound(v, disk),
        jobs::job_ok(v.levels, job),
        output_records(v, job, disk).contains(r),
        r.0.seq <= max_seq,
        forall|y: Record| #[trigger]
            output_records(v, job, disk).contains(y) && model::visible(y, r.0.user_key, max_seq)
                ==> y.0.seq <= r.0.seq,
    ensures
        0 <= e < db::sources(v, disk).len(),
        first_upper(v, job) <= e <= level_index(v, job.level + 1),
        model::find(db::sources(v, disk)[e], r.0.user_key, max_seq) is Some,
        model::find(db::sources(v, disk)[e], r.0.user_key, max_seq)->Some_0.0.seq == r.0.seq,
{
    let k = r.0.user_key;
    let runs = input_runs(job, disk);
    let low = snapshot::watermark_of(v.snapshots);
    lemma_output(v, job, disk, r);
    lemma_input_held(job, disk, r);
    let t = choose|t: TableView|
        (job.upper.contains(t) || job.lower.contains(t)) && #[trigger] contents::contents(
            t,
            disk,
        ).contains(r);
    if job.upper.contains(t) {
        lemma_member_ok(v.levels, disk, job.level as int, t);
    } else {
        lemma_member_ok(v.levels, disk, job.level + 1, t);
    }
    placing::lemma_table_range(t, disk, r);
    let e = lemma_input_source(v, job, disk, t, k, max_seq);
    let c = contents::contents(t, disk);
    let i = choose|i: int| 0 <= i < c.len() && c[i] == r;
    model::law_find_is_newest(c, k, max_seq, i);
    let j = model::lemma_find_some(c, k, max_seq);
    let y = c[j];
    assert(c.contains(y));
    lemma_input_held(job, disk, y);
    lemma_output(v, job, disk, y);
    if y.0.seq > r.0.seq {
        // A newer version is above the watermark, so it is kept too.
        assert(y.0.seq > low);
        assert(!jobs::outdated(runs, y, low));
        assert(output_records(v, job, disk).contains(y));
    }
    e
}

/// What an output table finds is a record that compaction keeps.
proof fn lemma_new_table_find(
    v: DbView,
    job: JobView,
    disk: Disk,
    after: Seq<Seq<TableView>>,
    t: TableView,
    r: Record,
)
    requires
        compaction(v, job, disk, after),
        new_tables(v, job, disk).contains(t),
        contents::contents(t, disk).contains(r),
    ensures
        output_records(v, job, disk).contains(r),
{
    let news = new_tables(v, job, disk);
    let files = outputs(v, job, disk);
    let j = choose|j: int| 0 <= j < news.len() && news[j] == t;
    assert(contents::contents(news[j], disk) == files[j]);
    jobs::lemma_output_files(output_records(v, job, disk), v.opts.target_file_size);
    assert(files[j].contains(r));
    scans::lemma_join_contains(files, r);
}

/// What compaction keeps, some output table holds.
proof fn lemma_survivor_table(
    v: DbView,
    job: JobView,
    disk: Disk,
    after: Seq<Seq<TableView>>,
    r: Record,
) -> (t: TableView)
    requires
        compaction(v, job, disk, after),
        output_records(v, job, disk).contains(r),
    ensures
        after[job.level + 1].contains(t),
        contents::contents(t, disk).contains(r),
{
    let news = new_tables(v, job, disk);
    let files = outputs(v, job, disk);
    jobs::lemma_output_files(output_records(v, job, disk), v.opts.target_file_size);
    scans::lemma_join_contains(files, r);
    let j = choose|j: int| 0 <= j < files.len() && (#[trigger] files[j]).contains(r);
    assert(contents::contents(news[j], disk) == files[j]);
    assert(news.contains(news[j]));
    news[j]
}

/// The upper end of where a source after the compaction came from.
spec fn last_origin(v: DbView, job: JobView, i: int) -> int {
    if i <= v.imms.len() || job.level > 0 {
        i
    } else {
        i + v.levels[0].len()
    }
}

/// The lower end of where a source after the compaction came from.
spec fn first_origin(v: DbView, job: JobView, i: int) -> int {
    if last_origin(v, job, i) == level_index(v, job.level + 1) {
        first_upper(v, job)
    } else {
        last_origin(v, job, i)
    }
}

/// What a source finds after the compaction, a source found before: the same one, or, for the level
/// that took the outputs, one of the inputs'.
proof fn lemma_origin(
    v: DbView,
    job: JobView,
    disk: Disk,
    after: Seq<Seq<TableView>>,
    i: int,
    user_key: Seq<u8>,
    max_seq: u64,
) -> (e: int)
    requires
        compaction(v, job, disk, after),
        0 <= i < db::sources(with_levels(v, after), disk).len(),
        model::find(db::sources(with_levels(v, after), disk)[i], user_key, max_seq) is Some,
    ensures
        first_origin(v, job, i) <= e <= last_origin(v, job, i),
        0 <= e < db::sources(v, disk).len(),
        model::find(db::sources(v, disk)[e], user_key, max_seq) is Some,
        model::find(db::sources(v, disk)[e], user_key, max_seq)->Some_0.0.seq == model::find(
            db::sources(with_levels(v, after), disk)[i],
            user_key,
            max_seq,
        )->Some_0.0.seq,
{
    let w = with_levels(v, after);
    let ss = db::sources(v, disk);
    let ts = db::sources(w, disk);
    lemma_layout(v, disk);
    lemma_layout(w, disk);
    let n = v.imms.len() as int;
    let l1 = job.level + 1;
    assert(db::memory(w) == db::memory(v));
    let f = model::find(ts[i], user_key, max_seq);
    let o = last_origin(v, job, i);
    if i <= n {
        assert(ts[i] == ss[i]);
        i
    } else if i <= n + after[0].len() {
        assert(job.level > 0);
        assert(ts[i] == ss[i]);
        i
    } else {
        let l = i - n - after[0].len();
        assert(o == level_index(v, l));
        assert(ts[i] == tree::level_contents(after[l], disk));
        assert(ss[o] == tree::level_contents(v.levels[l], disk));
        assert(tree::tables_ok(after[l], disk));
        assert(tree::tables_ok(v.levels[l], disk));
        let t = placing::lemma_level_finder(after[l], disk, user_key, max_seq);
        if v.levels[l].contains(t) && !is_input(job, l, t) {
            placing::lemma_find_in_level(v.levels[l], disk, t, user_key, max_seq);
            o
        } else {
            assert(l == l1 && new_tables(v, job, disk).contains(t));
            let c = contents::contents(t, disk);
            let x = model::lemma_find_some(c, user_key, max_seq);
            assert(c.contains(c[x]));
            lemma_new_table_find(v, job, disk, after, t, c[x]);
            assert forall|y: Record| #[trigger]
                output_records(v, job, disk).contains(y) && model::visible(
                    y,
                    user_key,
                    max_seq,
                ) implies y.0.seq <= c[x].0.seq by {
                let u = lemma_survivor_table(v, job, disk, after, y);
                lemma_member_ok(after, disk, l, u);
                placing::lemma_table_range(u, disk, y);
                placing::lemma_same_table(after[l], t, u, user_key);
                let z = choose|z: int| 0 <= z < c.len() && c[z] == y;
                model::law_find_is_newest(c, user_key, max_seq, z);
            }
            lemma_survivor_source(v, job, disk, c[x], max_seq)
        }
    }
}

/// What is held after the compaction was held before.
pub proof fn lemma_nothing_new(
    v: DbView,
    job: JobView,
    disk: Disk,
    after: Seq<Seq<TableView>>,
    r: Record,
)
    requires
        compaction(v, job, disk, after),
        iter::held(db::sources(with_levels(v, after), disk), r),
    ensures
        iter::held(db::sources(v, disk), r),
{
    let w = with_levels(v, after);
    let ss = db::sources(v, disk);
    let ts = db::sources(w, disk);
    lemma_layout(v, disk);
    lemma_layout(w, disk);
    let n = v.imms.len() as int;
    assert(db::memory(w) == db::memory(v));
    let i = choose|i: int| 0 <= i < ts.len() && (#[trigger] ts[i]).contains(r);
    if i <= n {
        assert(ts[i] == ss[i]);
    } else if i <= n + after[0].len() {
        assert(job.level > 0);
        assert(ts[i] == ss[i]);
    } else {
        let l = i - n - after[0].len();
        let gs = tree::each_contents(after[l], disk);
        assert(ts[i] == contents::join(gs));
        scans::lemma_join_contains(gs, r);
        let a = choose|a: int| 0 <= a < gs.len() && (#[trigger] gs[a]).contains(r);
        let t = after[l][a];
        assert(after[l].contains(t));
        if v.levels[l].contains(t) && !is_input(job, l, t) {
            lemma_held_in_level(v, disk, l, t, r);
        } else {
            lemma_new_table_find(v, job, disk, after, t, r);
            lemma_output(v, job, disk, r);
            lemma_input_in_db(v, job, disk, r);
        }
    }
}

/// What a table of some level holds, the database holds.
pub proof fn lemma_held_in_level(v: DbView, disk: Disk, l: int, t: TableView, r: Record)
    requires
        0 <= l < v.levels.len(),
        v.levels[l].contains(t),
        contents::contents(t, disk).contains(r),
    ensures
        iter::held(db::sources(v, disk), r),
{
    scans::lemma_table_held(v.levels, disk, l, t, r);
    let us = tree::table_sources(v.levels, disk);
    let ss = db::sources(v, disk);
    let j = choose|j: int| 0 <= j < us.len() && (#[trigger] us[j]).contains(r);
    assert(ss[db::memory(v).len() + j] == us[j]);
}

/// Compaction keeps the sources coherent.
pub proof fn lemma_coherent_after(
    v: DbView,
    job: JobView,
    disk: Disk,
    after: Seq<Seq<TableView>>,
)
    requires
        compaction(v, job, disk, after),
    ensures
        coherence::coherent(db::sources(with_levels(v, after), disk)),
        writes::seqs_up_to(db::sources(with_levels(v, after), disk), v.next_seq),
{
    let w = with_levels(v, after);
    let ss = db::sources(v, disk);
    let ts = db::sources(w, disk);
    lemma_layout(v, disk);
    lemma_layout(w, disk);
    let n = v.imms.len() as int;
    assert(db::memory(w) == db::memory(v));
    assert forall|i: int| 0 <= i < ts.len() implies model::sorted(#[trigger] ts[i]) by {
        if i <= n {
            assert(ts[i] == ss[i]);
            assert(model::sorted(ss[i]));
        } else if i <= n + after[0].len() {
            assert(job.level > 0);
            assert(ts[i] == ss[i]);
            assert(model::sorted(ss[i]));
        } else {
            let l = i - n - after[0].len();
            assert(tree::tables_ok(after[l], disk));
            placing::lemma_level_sorted(after[l], disk);
        }
    }
    assert forall|k: Seq<u8>, m: u64| #[trigger] coherence::newest_first_at(ts, k, m) by {
        assert(coherence::newest_first_at(ss, k, m));
        assert forall|i: int, j: int|
            0 <= i < j < ts.len() && model::find(#[trigger] ts[i], k, m) is Some && model::find(
                #[trigger] ts[j],
                k,
                m,
            ) is Some implies model::find(ts[i], k, m)->Some_0.0.seq >= model::find(
            ts[j],
            k,
            m,
        )->Some_0.0.seq by {
            let a = lemma_origin(v, job, disk, after, i, k, m);
            let b = lemma_origin(v, job, disk, after, j, k, m);
            assert(last_origin(v, job, i) <= first_origin(v, job, j));
            if a < b {
                assert(model::find(ss[a], k, m)->Some_0.0.seq >= model::find(
                    ss[b],
                    k,
                    m,
                )->Some_0.0.seq);
            }
        }
    }
    assert forall|x: Record| #[trigger] iter::held(ts, x) implies iter::held(ss, x) by {
        lemma_nothing_new(v, job, disk, after, x);
    }
    assert forall|x: Record, y: Record| #[trigger]
        iter::held(ts, x) && #[trigger] iter::held(ts, y) implies coherence::compatible(x, y) by {
        assert(iter::held(ss, x) && iter::held(ss, y));
    }
    assert forall|x: Record| #[trigger] iter::held(ts, x) implies x.0.seq <= v.next_seq by {
        assert(iter::held(ss, x));
    }
}

/// A record that is held before and not after was an input's.
proof fn lemma_gone(
    v: DbView,
    job: JobView,
    disk: Disk,
    after: Seq<Seq<TableView>>,
    r: Record,
) -> (t: TableView)
    requires
        compaction(v, job, disk, after),
        iter::held(db::sources(v, disk), r),
        !iter::held(db::sources(with_levels(v, after), disk), r),
    ensures
        job.upper.contains(t) || job.lower.contains(t),
        contents::table_ok(t, disk),
        contents::contents(t, disk).contains(r),
        iter::held(input_runs(job, disk), r),
{
    let w = with_levels(v, after);
    let ss = db::sources(v, disk);
    let ts = db::sources(w, disk);
    lemma_layout(v, disk);
    lemma_layout(w, disk);
    let n = v.imms.len() as int;
    let n0 = v.levels[0].len() as int;
    assert(db::memory(w) == db::memory(v));
    let i = choose|i: int| 0 <= i < ss.len() && (#[trigger] ss[i]).contains(r);
    assert(i > n) by {
        if i <= n {
            assert(ts[i] == ss[i]);
        }
    }
    let l = if i <= n + n0 { 0 } else { i - n - n0 };
    let t = if i <= n + n0 {
        let t = v.levels[0][n0 + n - i];
        assert(v.levels[0].contains(t));
        t
    } else {
        let gs = tree::each_contents(v.levels[l], disk);
        assert(ss[i] == contents::join(gs));
        scans::lemma_join_contains(gs, r);
        let a = choose|a: int| 0 <= a < gs.len() && (#[trigger] gs[a]).contains(r);
        let t = v.levels[l][a];
        assert(v.levels[l].contains(t));
        t
    };
    assert(v.levels[l].contains(t) && contents::contents(t, disk).contains(r));
    if !is_input(job, l, t) {
        assert(after[l].contains(t));
        lemma_held_in_level(w, disk, l, t, r);
    }
    lemma_member_ok(v.levels, disk, l, t);
    lemma_input_held(job, disk, r);
    t
}

/// If the newest version of a key that a reader sees is gone, and is not above the watermark, no
/// other version that the reader sees is left.
#[verifier::rlimit(60)]
proof fn lemma_gone_alone(
    v: DbView,
    job: JobView,
    disk: Disk,
    after: Seq<Seq<TableView>>,
    x: Record,
    max_seq: u64,
)
    requires
        compaction(v, job, disk, after),
        x.0.seq <= max_seq,
        x.0.seq <= snapshot::watermark_of(v.snapshots),
        model::read(db::sources(v, disk), x.0.user_key, max_seq) == Some(x),
        !iter::held(db::sources(with_levels(v, after), disk), x),
        job.level + 2 >= v.levels.len(),
    ensures
        model::read(db::sources(with_levels(v, after), disk), x.0.user_key, max_seq) is None,
{
    let k = x.0.user_key;
    let w = with_levels(v, after);
    let ss = db::sources(v, disk);
    let ts = db::sources(w, disk);
    lemma_layout(v, disk);
    lemma_layout(w, disk);
    lemma_coherent_after(v, job, disk, after);
    coherence::law_read_is_newest(ss, k, max_seq);
    coherence::law_read_is_newest(ts, k, max_seq);
    if model::read(ts, k, max_seq) is Some {
        let z = model::read(ts, k, max_seq)->Some_0;
        let j = coherence::lemma_read_source(ts, k, max_seq);
        lemma_nothing_new(v, job, disk, after, z);
        assert(coherence::compatible(z, x));
        assert(z.0.seq < x.0.seq);
        let t = lemma_gone(v, job, disk, after, x);
        placing::lemma_table_range(t, disk, x);
        let ex = lemma_input_source(v, job, disk, t, k, max_seq);
        let c = contents::contents(t, disk);
        let i = choose|i: int| 0 <= i < c.len() && c[i] == x;
        model::law_find_is_newest(c, k, max_seq, i);
        coherence::lemma_find_held(ss, ex, k, max_seq);
        assert(model::find(ss[ex], k, max_seq)->Some_0.0.seq == x.0.seq);
        let e = lemma_origin(v, job, disk, after, j, k, max_seq);
        assert(coherence::newest_first_at(ss, k, max_seq));
        assert(e > ex) by {
            if e < ex {
                assert(model::find(ss[e], k, max_seq)->Some_0.0.seq >= model::find(
                    ss[ex],
                    k,
                    max_seq,
                )->Some_0.0.seq);
            }
        }
        let b = level_index(v, job.level + 1);
        assert(last_origin(v, job, j) == b);
        let l1 = job.level + 1;
        assert(ts[j] == tree::level_contents(after[l1], disk));
        assert(tree::tables_ok(after[l1], disk));
        let t2 = placing::lemma_level_finder(after[l1], disk, k, max_seq);
        if new_tables(v, job, disk).contains(t2) {
            let c2 = contents::contents(t2, disk);
            let y = model::lemma_find_some(c2, k, max_seq);
            assert(c2.contains(c2[y]));
            lemma_new_table_find(v, job, disk, after, t2, c2[y]);
            lemma_output(v, job, disk, z);
            assert(iter::held(input_runs(job, disk), x));
            assert(jobs::outdated(input_runs(job, disk), z, snapshot::watermark_of(v.snapshots)));
        } else {
            assert(v.levels[l1].contains(t2));
            if job.upper.contains(t) {
                let a = choose|a: int| 0 <= a < job.upper.len() && job.upper[a] == t;
                jobs::lemma_range(job.upper, a);
                let lo = compact::range_min(job.upper);
                let hi = compact::range_max(job.upper);
                tree::lemma_bytes_le_transitive(lo, t.smallest, k);
                tree::lemma_bytes_le_transitive(lo, k, t2.largest);
                tree::lemma_bytes_le_transitive(k, t.largest, hi);
                tree::lemma_bytes_le_transitive(t2.smallest, k, hi);
                assert(job.lower.contains(t2));
            } else {
                assert(v.levels[l1].contains(t));
                placing::lemma_same_table(v.levels[l1], t, t2, k);
            }
        }
    }
}

/// A reader at an open snapshot, or one who reads without a snapshot, is among those whom the
/// compaction spares: one who sees all that the oldest open snapshot sees, or all that the inputs
/// hold.
pub open spec fn spared_reader(v: DbView, job: JobView, disk: Disk, max_seq: u64) -> bool {
    ||| max_seq >= snapshot::watermark_of(v.snapshots)
    ||| forall|x: Record| #[trigger] iter::held(input_runs(job, disk), x) ==> x.0.seq <= max_seq
}

/// A reader at an open snapshot, and one who reads without a snapshot, is told the same before a
/// compaction and after it.
pub proof fn law_compaction_keeps_reads(
    v: DbView,
    job: JobView,
    disk: Disk,
    after: Seq<Seq<TableView>>,
    user_key: Seq<u8>,
    max_seq: u64,
)
    requires
        compaction(v, job, disk, after),
        spared_reader(v, job, disk, max_seq),
    ensures
        model::answer(
            model::read(db::sources(with_levels(v, after), disk), user_key, max_seq),
        ) == model::answer(model::read(db::sources(v, disk), user_key, max_seq)),
{
    let k = user_key;
    let ss = db::sources(v, disk);
    let ts = db::sources(with_levels(v, after), disk);
    let runs = input_runs(job, disk);
    let low = snapshot::watermark_of(v.snapshots);
    lemma_coherent_after(v, job, disk, after);
    coherence::law_read_is_newest(ss, k, max_seq);
    coherence::law_read_is_newest(ts, k, max_seq);
    let r = model::read(ss, k, max_seq);
    let q = model::read(ts, k, max_seq);
    if q is Some {
        lemma_nothing_new(v, job, disk, after, q->Some_0);
    }
    if r is Some {
        let x = r->Some_0;
        if iter::held(ts, x) {
            assert(coherence::compatible(q->Some_0, x));
        } else {
            let t = lemma_gone(v, job, disk, after, x);
            lemma_output(v, job, disk, x);
            if output_records(v, job, disk).contains(x) {
                let u = lemma_survivor_table(v, job, disk, after, x);
                lemma_held_in_level(with_levels(v, after), disk, job.level + 1, u, x);
            }
            if jobs::outdated(runs, x, low) {
                let y = choose|y: Record| #[trigger]
                    iter::held(runs, y) && y.0.user_key == x.0.user_key && x.0.seq < y.0.seq
                        <= low;
                lemma_input_in_db(v, job, disk, y);
                assert(model::visible(y, k, max_seq));
            }
            assert(x.0.kind == ValueKind::Delete);
            lemma_gone_alone(v, job, disk, after, x, max_seq);
        }
    }
}

} // verus!

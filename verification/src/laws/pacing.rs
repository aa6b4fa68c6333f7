//! When a write has to wait, what ends its wait, and which compaction is due.

use crate::codec;
use crate::compact;
use crate::compact::JobView;
use crate::db;
use crate::db::{DbView, WriteStep};
use crate::error::Result;
use crate::frame;
use crate::key::{Record, ValueKind};
use crate::laws::installs;
use crate::laws::jobs;
use crate::manifest::FileView;
use crate::options::Options;
use crate::sstable::reader::{Disk, TableView};
use crate::tree;
use crate::version;
use crate::wal;
use vstd::arithmetic::power::pow;
use vstd::prelude::*;

verus! {

/// Level 0 has fewer than `n` tables.
pub open spec fn level0_below(v: DbView, n: int) -> bool {
    if v.levels.len() > 0 {
        v.levels[0].len() < n
    } else {
        0 < n
    }
}

/// A write is refused exactly if the database is closed. It is taken in exactly if the database is
/// open, fewer than two memtables wait to be flushed, and level 0 has fewer than twice the tables
/// that make a compaction due. A write that is taken in gets the next sequence number and leaves
/// everything else as it was; one that has to wait is counted, and nothing else.
pub proof fn law_write_waits_only_for_work(
    r: Result<WriteStep>,
    v: DbView,
    w: DbView,
    user_key: Seq<u8>,
    value: Seq<u8>,
    kind: ValueKind,
)
    requires
        db::write_step_is(r, v, w, user_key, value, kind),
        v.next_seq < u64::MAX,
        v.stall_count < u64::MAX,
    ensures
        r is Err <==> v.closed,
        r matches Ok(WriteStep::Append(_)) <==> !v.closed && v.imms.len() < 2 && level0_below(
            v,
            2 * v.opts.l0_compaction_trigger,
        ),
        r is Err ==> w == v,
        r matches Ok(WriteStep::Stall) ==> w.stall_count == v.stall_count + 1 && w == (DbView {
            stall_count: w.stall_count,
            ..v
        }),
        r matches Ok(WriteStep::Append(p)) ==> {
            &&& w.next_seq == v.next_seq + 1
            &&& w == (DbView { next_seq: w.next_seq, ..v })
            &&& p.record().0.user_key == user_key
            &&& p.record().0.seq == v.next_seq + 1
            &&& p.record().0.kind == kind
            &&& p.record().1 == value
            &&& p.bytes() == frame::frame_bytes(wal::record_bytes(p.record()))
        },
{
}

/// Whenever a write has to wait there is work that ends the wait: two memtables wait to be flushed,
/// or the compaction of all of level 0 is due.
pub proof fn law_stall_has_work(
    r: Result<WriteStep>,
    v: DbView,
    w: DbView,
    user_key: Seq<u8>,
    value: Seq<u8>,
    kind: ValueKind,
)
    requires
        db::write_step_is(r, v, w, user_key, value, kind),
        r matches Ok(WriteStep::Stall),
        v.opts.l0_compaction_trigger > 0,
    ensures
        v.imms.len() >= 2 || (compact::job_for(v.levels, v.opts) matches Some(job) && job.level == 0
            && job.upper == v.levels[0]),
{
}

/// A flush takes one memtable off those that wait.
pub proof fn law_flush_shortens_wait(v: DbView, t: TableView)
    requires
        v.imms.len() > 0,
    ensures
        db::flushed(v, t).imms.len() == v.imms.len() - 1,
        db::flushed(v, t).imms == v.imms.skip(1),
        db::flushed(v, t).mem == v.mem,
        db::flushed(v, t).mem_bytes == v.mem_bytes,
{
}

/// The compaction of level 0 leaves it empty, so that a write which waited for it is taken in,
/// unless two memtables wait.
pub proof fn law_compaction_ends_stall(
    v: DbView,
    job: JobView,
    disk: Disk,
    opened: Seq<Option<TableView>>,
    r: Result<WriteStep>,
    w: DbView,
    user_key: Seq<u8>,
    value: Seq<u8>,
    kind: ValueKind,
)
    requires
        installs::carried_out(v, job, disk),
        installs::reopened(v, job, disk, opened),
        v.opts.l0_compaction_trigger > 0,
        v.levels[0].len() >= v.opts.l0_compaction_trigger,
        !v.closed,
        v.imms.len() < 2,
        db::write_step_is(
            r,
            installs::compacted_db(v, job, disk, opened),
            w,
            user_key,
            value,
            kind,
        ),
    ensures
        installs::compacted_db(v, job, disk, opened).levels[0].len() == 0,
        r matches Ok(WriteStep::Append(_)),
{
    installs::lemma_compaction(v, job, disk, opened);
}

/// Two memtables at most wait to be flushed: one is set aside only after a write, and a write is
/// not taken in while two wait.
pub proof fn law_two_memtables_wait_at_most(
    r: Result<WriteStep>,
    v: DbView,
    w: DbView,
    user_key: Seq<u8>,
    value: Seq<u8>,
    kind: ValueKind,
)
    requires
        db::write_step_is(r, v, w, user_key, value, kind),
        v.imms.len() <= 2,
    ensures
        w.imms.len() <= 2,
        r matches Ok(WriteStep::Append(p)) ==> db::frozen(db::applied(w, p.record())).imms.len()
            <= 2,
{
}

/// Nothing but a counter that is full keeps a write from being tried.
pub proof fn law_write_can_be_tried(v: DbView)
    requires
        v.next_seq < u64::MAX,
        v.stall_count < u64::MAX,
        2 * v.opts.l0_compaction_trigger <= usize::MAX,
    ensures
        db::writable(v),
{
}

/// A write makes the memtable larger by its key, its value and sixteen bytes more, and setting the
/// memtable aside leaves one of size zero.
pub proof fn law_memtable_grows_by_what_is_written(v: DbView, r: Record)
    requires
        v.mem_bytes + r.0.user_key.len() + r.1.len() + 16 <= usize::MAX,
    ensures
        db::applied(v, r).mem_bytes == v.mem_bytes + r.0.user_key.len() + r.1.len() + 16,
        db::frozen(v).mem_bytes == 0,
        db::frozen(v).mem.len() == 0,
        db::frozen(v).imms == v.imms.push(v.mem),
{
}

/// A memtable that took a run of writes has the size of all their keys and values and sixteen bytes
/// for each.
pub proof fn law_memtable_size_is_that_of_its_writes(writes: Seq<Record>)
    requires
        written_bytes(writes) <= usize::MAX,
    ensures
        db::memtable_bytes(writes) == written_bytes(writes),
    decreases writes.len(),
{
    reveal(Seq::fold_left);
    if writes.len() > 0 {
        law_memtable_size_is_that_of_its_writes(writes.drop_last());
    }
}

/// Bytes of a run of writes: key, value, and sixteen for each.
pub open spec fn written_bytes(s: Seq<Record>) -> int {
    s.fold_left(0int, |n: int, r: Record| n + r.0.user_key.len() + r.1.len() + 16)
}

/// Bytes in the files of a run of tables.
pub open spec fn bytes_in(s: Seq<TableView>) -> int {
    s.fold_left(0int, |n: int, t: TableView| n + t.file_size)
}

/// Bytes that a level from 1 on may hold.
pub open spec fn allowance(opts: Options, level: int) -> int {
    opts.base_level_bytes * pow(opts.level_ratio as int, (level - 1) as nat)
}

/// The key range from the smallest key of `upper` to its largest, and that of `t`, meet.
pub open spec fn meets(upper: Seq<TableView>, t: TableView) -> bool {
    &&& exists|a: int|
        0 <= a < upper.len() && codec::bytes_le((#[trigger] upper[a]).smallest, t.largest)
    &&& exists|b: int|
        0 <= b < upper.len() && codec::bytes_le(t.smallest, (#[trigger] upper[b]).largest)
}

proof fn lemma_bytes_in(s: Seq<TableView>)
    ensures
        version::tables_size(s) == bytes_in(s),
    decreases s.len(),
{
    reveal(Seq::fold_left);
    if s.len() > 0 {
        lemma_bytes_in(s.drop_last());
    }
}

proof fn lemma_power(b: nat, n: nat)
    ensures
        compact::power(b, n) == pow(b as int, n),
    decreases n,
{
    reveal(pow);
    if n > 0 {
        lemma_power(b, (n - 1) as nat);
        assert(pow(b as int, n) == b * pow(b as int, (n - 1) as nat));
        assert(compact::power(b, (n - 1) as nat) * b == b * compact::power(b, (n - 1) as nat))
            by (nonlinear_arith);
    }
}

proof fn lemma_overfull(levels: Seq<Seq<TableView>>, opts: Options, level: int)
    requires
        1 <= level,
    ensures
        level < levels.len() ==> (compact::overfull(levels, opts, level) <==> bytes_in(
            levels[level],
        ) > allowance(opts, level)),
        level >= levels.len() ==> !compact::overfull(levels, opts, level),
{
    lemma_power(opts.level_ratio as nat, (level - 1) as nat);
    if level < levels.len() {
        lemma_bytes_in(levels[level]);
    }
}

/// Which level the search for an overfull one finds.
proof fn lemma_search(levels: Seq<Seq<TableView>>, opts: Options, from: int, l: int)
    requires
        1 <= from <= l < opts.max_levels - 1,
    ensures
        match compact::first_overfull(levels, opts, from) {
            None => !compact::overfull(levels, opts, l),
            Some(f) => from <= f < opts.max_levels - 1 && compact::overfull(levels, opts, f) && (l
                < f ==> !compact::overfull(levels, opts, l)),
        },
    decreases opts.max_levels - from,
{
    if !compact::overfull(levels, opts, from) && from + 1 < opts.max_levels - 1 {
        lemma_search(
            levels,
            opts,
            from + 1,
            if l > from {
                l
            } else {
                from + 1
            },
        );
    } else if !compact::overfull(levels, opts, from) {
        assert(compact::first_overfull(levels, opts, from + 1) is None);
    }
}

/// The compaction that is due. Of level 0 one is due exactly if it has tables, and no fewer than
/// the trigger; it takes all of them. Below the trigger, none is due exactly if each level from 1
/// on, but for the last, holds no more than its allowance; one that is due takes the first table of
/// the first level that holds more.
pub proof fn law_compaction_due(levels: Seq<Seq<TableView>>, opts: Options)
    requires
        levels.len() > 0,
        compact::pickable(levels, opts),
    ensures
        match compact::job_for(levels, opts) {
            Some(job) => {
                if levels[0].len() >= opts.l0_compaction_trigger {
                    job.level == 0 && job.upper == levels[0] && levels[0].len() > 0
                } else {
                    &&& 1 <= job.level < opts.max_levels - 1
                    &&& job.level + 1 < levels.len()
                    &&& bytes_in(levels[job.level as int]) > allowance(opts, job.level as int)
                    &&& forall|l: int|
                        1 <= l < job.level ==> bytes_in(#[trigger] levels[l]) <= allowance(opts, l)
                    &&& job.upper == seq![levels[job.level as int][0]]
                }
            },
            None => {
                if levels[0].len() >= opts.l0_compaction_trigger {
                    levels[0].len() == 0
                } else {
                    forall|l: int|
                        1 <= l < opts.max_levels - 1 && l < levels.len() ==> bytes_in(
                            #[trigger] levels[l],
                        ) <= allowance(opts, l)
                }
            },
        },
{
    if levels[0].len() < opts.l0_compaction_trigger {
        let found = compact::first_overfull(levels, opts, 1);
        assert forall|l: int|
            1 <= l < opts.max_levels - 1 && l < levels.len() && (found matches Some(f) ==> l
                < f) implies bytes_in(#[trigger] levels[l]) <= allowance(opts, l) by {
            lemma_search(levels, opts, 1, l);
            lemma_overfull(levels, opts, l);
        }
        if let Some(f) = found {
            assert(1 < opts.max_levels - 1);
            lemma_search(levels, opts, 1, 1);
            lemma_overfull(levels, opts, f);
            assert(levels[f].len() > 0) by {
                if levels[f].len() == 0 {
                    assert(version::tables_size(levels[f]) == 0);
                }
            }
        }
    }
}

proof fn lemma_range_reached(s: Seq<TableView>) -> (r: (int, int))
    requires
        s.len() > 0,
    ensures
        0 <= r.0 < s.len(),
        0 <= r.1 < s.len(),
        s[r.0].smallest == compact::range_min(s),
        s[r.1].largest == compact::range_max(s),
    decreases s.len(),
{
    if s.len() == 1 {
        (0, 0)
    } else {
        let p = s.drop_last();
        let n = s.len() - 1;
        let (a, b) = lemma_range_reached(p);
        assert(p[a] == s[a] && p[b] == s[b]);
        (
            if codec::bytes_lt(s.last().smallest, compact::range_min(p)) {
                n
            } else {
                a
            },
            if codec::bytes_lt(compact::range_max(p), s.last().largest) {
                n
            } else {
                b
            },
        )
    }
}

proof fn lemma_meets(upper: Seq<TableView>, t: TableView)
    requires
        upper.len() > 0,
    ensures
        meets(upper, t) <==> compact::overlaps(
            t,
            compact::range_min(upper),
            compact::range_max(upper),
        ),
{
    let (x, y) = lemma_range_reached(upper);
    if exists|a: int|
        0 <= a < upper.len() && codec::bytes_le((#[trigger] upper[a]).smallest, t.largest) {
        let a = choose|a: int|
            0 <= a < upper.len() && codec::bytes_le((#[trigger] upper[a]).smallest, t.largest);
        jobs::lemma_range(upper, a);
        tree::lemma_bytes_le_transitive(compact::range_min(upper), upper[a].smallest, t.largest);
    }
    if exists|b: int|
        0 <= b < upper.len() && codec::bytes_le(t.smallest, (#[trigger] upper[b]).largest) {
        let b = choose|b: int|
            0 <= b < upper.len() && codec::bytes_le(t.smallest, (#[trigger] upper[b]).largest);
        jobs::lemma_range(upper, b);
        tree::lemma_bytes_le_transitive(t.smallest, upper[b].largest, compact::range_max(upper));
    }
}

proof fn lemma_overlap_is_filter(s: Seq<TableView>, upper: Seq<TableView>)
    requires
        upper.len() > 0,
    ensures
        compact::overlap(s, compact::range_min(upper), compact::range_max(upper)) == s.filter(
            |t: TableView| meets(upper, t),
        ),
    decreases s.len(),
{
    reveal(Seq::filter);
    if s.len() > 0 {
        lemma_overlap_is_filter(s.drop_last(), upper);
        lemma_meets(upper, s.last());
    }
}

/// The tables of the level below that a job takes along are those whose key range meets that of its
/// upper tables, in their order, and no others.
pub proof fn law_job_takes_what_it_meets(levels: Seq<Seq<TableView>>, opts: Options)
    requires
        levels.len() > 0,
        compact::pickable(levels, opts),
    ensures
        compact::job_for(levels, opts) matches Some(job) ==> job.level + 1 < levels.len()
            && job.lower == levels[job.level + 1].filter(|t: TableView| meets(job.upper, t)),
{
    if let Some(job) = compact::job_for(levels, opts) {
        law_compaction_due(levels, opts);
        let below = levels[job.level + 1];
        lemma_overlap_is_filter(below, job.upper);
        if levels[0].len() < opts.l0_compaction_trigger {
            lemma_search(levels, opts, 1, 1);
            assert(job.level == compact::first_overfull(levels, opts, 1)->Some_0);
            assert(job.upper[0] == levels[job.level as int][0]);
        }
        assert(job.lower == compact::overlap(
            below,
            compact::range_min(job.upper),
            compact::range_max(job.upper),
        ));
        assert(job.lower =~= below.filter(|t: TableView| meets(job.upper, t)));
    }
}

/// A compaction can be looked for wherever there are two levels or more and no allowance is too
/// large a number.
pub proof fn law_compaction_can_be_looked_for(levels: Seq<Seq<TableView>>, opts: Options)
    requires
        levels.len() == opts.max_levels,
        2 <= opts.max_levels <= u32::MAX,
        forall|l: int|
            1 <= l < opts.max_levels - 1 ==> pow(
                opts.level_ratio as int,
                #[trigger] ((l - 1) as nat),
            ) <= u64::MAX && allowance(opts, l) <= u64::MAX,
    ensures
        compact::pickable(levels, opts),
{
    lemma_limits_fit(levels, opts, 1);
    if let Some(f) = compact::first_overfull(levels, opts, 1) {
        if opts.max_levels > 2 {
            lemma_search(levels, opts, 1, 1);
        }
    }
}

proof fn lemma_limits_fit(levels: Seq<Seq<TableView>>, opts: Options, from: int)
    requires
        1 <= from,
        opts.max_levels <= u32::MAX,
        forall|l: int|
            1 <= l < opts.max_levels - 1 ==> pow(
                opts.level_ratio as int,
                #[trigger] ((l - 1) as nat),
            ) <= u64::MAX && allowance(opts, l) <= u64::MAX,
    ensures
        compact::limits_fit(levels, opts, from),
    decreases opts.max_levels - from,
{
    if from < opts.max_levels - 1 {
        lemma_limits_fit(levels, opts, from + 1);
        lemma_power(opts.level_ratio as nat, (from - 1) as nat);
        assert(pow(opts.level_ratio as int, (from - 1) as nat) <= u64::MAX);
    }
}

/// The key range of a run of tables: from the least of their smallest keys to the greatest of their
/// largest ones.
pub proof fn law_key_range(s: Seq<TableView>, i: int)
    requires
        0 <= i < s.len(),
    ensures
        codec::bytes_le(compact::range_min(s), s[i].smallest),
        codec::bytes_le(s[i].largest, compact::range_max(s)),
        exists|a: int| 0 <= a < s.len() && (#[trigger] s[a]).smallest == compact::range_min(s),
        exists|b: int| 0 <= b < s.len() && (#[trigger] s[b]).largest == compact::range_max(s),
{
    jobs::lemma_range(s, i);
    let (a, b) = lemma_range_reached(s);
    assert(s[a].smallest == compact::range_min(s));
    assert(s[b].largest == compact::range_max(s));
}

/// The tables that overlap a range are those that do not end before it and do not start behind it,
/// all of them and no others, in their order.
pub proof fn law_overlapping_tables(s: Seq<TableView>, smallest: Seq<u8>, largest: Seq<u8>)
    ensures
        compact::overlap(s, smallest, largest) == s.filter(
            |t: TableView|
                codec::bytes_le(smallest, t.largest) && codec::bytes_le(t.smallest, largest),
        ),
    decreases s.len(),
{
    reveal(Seq::filter);
    if s.len() > 0 {
        law_overlapping_tables(s.drop_last(), smallest, largest);
    }
}

/// A flush that is at its end adds its table to level 0 as the newest, and changes no other level;
/// it can come to its end wherever level 0 exists, for the table that the manifest was told of.
pub proof fn law_flush_comes_to_its_end(v: DbView, m: FileView, t: TableView)
    requires
        v.flushing == Some(m),
        t.file_num == m.file_num,
        t.smallest == m.smallest,
        t.largest == m.largest,
        t.file_size == m.file_size,
        v.levels.len() > 0,
        v.flush_count < u64::MAX,
    ensures
        db::flush_ends(v, m, t),
        ({
            let w = db::flushed(v, t);
            &&& w.levels.len() == v.levels.len()
            &&& w.levels[0] == v.levels[0].push(t)
            &&& forall|l: int| 1 <= l < v.levels.len() ==> #[trigger] w.levels[l] == v.levels[l]
            &&& w.flush_count == v.flush_count + 1
            &&& w.flushing is None
            &&& w.next_seq == v.next_seq
            &&& w.next_file_num == v.next_file_num
            &&& w.snapshots == v.snapshots
            &&& w.closed == v.closed
            &&& w.wal == v.wal
        }),
{
}

/// Reads are refused exactly if the database is closed.
pub proof fn law_closed_db_refuses_reads(
    r: Result<db::ReadStep>,
    v: DbView,
    user_key: Seq<u8>,
    max_seq: u64,
)
    requires
        db::read_step_is(r, v, user_key, max_seq),
    ensures
        r is Err <==> v.closed,
        r matches Err(e) ==> e is Closed,
{
}

} // verus!

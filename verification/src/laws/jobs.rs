//! What holds of a compaction job and of what it puts out.

use crate::codec;
use crate::compact;
use crate::compact::JobView;
use crate::iter;
use crate::key;
use crate::key::{KeyView, Record, ValueKind};
use crate::laws::coherence;
use crate::laws::levels as placing;
use crate::model;
use crate::options::Options;
use crate::snapshot;
use crate::sstable::contents;
use crate::sstable::reader::TableView;
use crate::tree;
use crate::version;
use vstd::prelude::*;

verus! {

/// The tables of a job: the upper ones are of its level, all of them on level 0; the lower ones are
/// those of the level below that overlap the key range of the upper ones.
pub open spec fn job_ok(levels: Seq<Seq<TableView>>, job: JobView) -> bool {
    &&& job.level + 1 < levels.len()
    &&& job.upper.len() > 0
    &&& forall|t: TableView| #[trigger]
        job.upper.contains(t) ==> levels[job.level as int].contains(t)
    &&& job.level == 0 ==> job.upper == levels[0]
    &&& forall|t: TableView| #[trigger]
        job.lower.contains(t) <==> (levels[job.level + 1].contains(t) && compact::overlaps(
            t,
            compact::range_min(job.upper),
            compact::range_max(job.upper),
        ))
}

proof fn lemma_overlap(s: Seq<TableView>, smallest: Seq<u8>, largest: Seq<u8>, t: TableView)
    ensures
        compact::overlap(s, smallest, largest).contains(t) <==> (s.contains(t)
            && compact::overlaps(t, smallest, largest)),
    decreases s.len(),
{
    if s.len() == 0 {
        assert(!compact::overlap(s, smallest, largest).contains(t));
    } else {
        let p = s.drop_last();
        let l = s.last();
        lemma_overlap(p, smallest, largest, t);
        let q = compact::overlap(p, smallest, largest);
        let all = compact::overlap(s, smallest, largest);
        assert(s =~= p.push(l));
        lemma_push(p, l, t);
        if compact::overlaps(l, smallest, largest) {
            lemma_push(q, l, t);
        }
    }
}

proof fn lemma_push(s: Seq<TableView>, t: TableView, r: TableView)
    ensures
        s.push(t).contains(r) <==> (r == t || s.contains(r)),
{
    let all = s.push(t);
    if all.contains(r) && r != t {
        let i = choose|i: int| 0 <= i < all.len() && all[i] == r;
        assert(s[i] == r);
    }
    if s.contains(r) {
        let i = choose|i: int| 0 <= i < s.len() && s[i] == r;
        assert(all[i] == r);
    }
    if r == t {
        assert(all[s.len() as int] == r);
    }
}

proof fn lemma_first_overfull(levels: Seq<Seq<TableView>>, opts: Options, level: int)
    requires
        level >= 1,
    ensures
        compact::first_overfull(levels, opts, level) matches Some(l) ==> level <= l
            < opts.max_levels - 1 && compact::overfull(levels, opts, l),
    decreases opts.max_levels - level,
{
    if level < opts.max_levels - 1 && !compact::overfull(levels, opts, level) {
        lemma_first_overfull(levels, opts, level + 1);
    }
}

/// The job that is due has the tables that a job should have.
pub proof fn law_job_is_ok(levels: Seq<Seq<TableView>>, opts: Options, job: JobView)
    requires
        compact::pickable(levels, opts),
        compact::job_for(levels, opts) == Some(job),
    ensures
        job_ok(levels, job),
{
    if version::l0_count(levels) >= opts.l0_compaction_trigger {
        assert forall|t: TableView| #[trigger] job.lower.contains(t) <==> (levels[1].contains(t)
            && compact::overlaps(
            t,
            compact::range_min(job.upper),
            compact::range_max(job.upper),
        )) by {
            lemma_overlap(
                levels[1],
                compact::range_min(levels[0]),
                compact::range_max(levels[0]),
                t,
            );
        }
    } else {
        lemma_first_overfull(levels, opts, 1);
        let l = compact::first_overfull(levels, opts, 1)->Some_0;
        assert(levels[l].len() > 0);
        let u = levels[l][0];
        assert(job.upper =~= seq![u]);
        assert forall|t: TableView| #[trigger] job.upper.contains(t) implies levels[l].contains(
            t,
        ) by {
            assert(t == u);
        }
        assert forall|t: TableView| #[trigger] job.lower.contains(t) <==> (levels[l + 1].contains(
            t,
        ) && compact::overlaps(
            t,
            compact::range_min(job.upper),
            compact::range_max(job.upper),
        )) by {
            lemma_overlap(levels[l + 1], u.smallest, u.largest, t);
        }
    }
}

/// The key range of a run of tables spans that of each.
pub proof fn lemma_range(s: Seq<TableView>, i: int)
    requires
        0 <= i < s.len(),
    ensures
        codec::bytes_le(compact::range_min(s), s[i].smallest),
        codec::bytes_le(s[i].largest, compact::range_max(s)),
    decreases s.len(),
{
    if s.len() > 1 {
        let p = s.drop_last();
        let l = s.last();
        let lo = compact::range_min(p);
        let hi = compact::range_max(p);
        codec::lemma_bytes_lt_total(l.smallest, lo);
        codec::lemma_bytes_lt_total(hi, l.largest);
        if i < p.len() {
            lemma_range(p, i);
            assert(p[i] == s[i]);
            if codec::bytes_lt(l.smallest, lo) {
                tree::lemma_bytes_le_transitive(l.smallest, lo, s[i].smallest);
            }
            if codec::bytes_lt(hi, l.largest) {
                tree::lemma_bytes_le_transitive(s[i].largest, hi, l.largest);
            }
        }
    }
}

/// What compaction keeps of sorted records: those that it may not drop, in their order.
pub proof fn lemma_kept(s: Seq<Record>, output_level: int, watermark: u64, max_levels: usize)
    requires
        model::sorted(s),
    ensures
        ({
            let k = compact::kept(s, output_level, watermark, max_levels);
            &&& model::sorted(k)
            &&& forall|r: Record| #[trigger]
                k.contains(r) <==> (s.contains(r) && !compact::droppable(
                    r,
                    output_level,
                    watermark,
                    max_levels,
                ))
        }),
    decreases s.len(),
{
    let k = compact::kept(s, output_level, watermark, max_levels);
    if s.len() > 0 {
        let t = s.skip(1);
        let x = s[0];
        assert forall|i: int, j: int| 0 <= i < j < t.len() implies key::key_lt(
            (#[trigger] t[i]).0,
            (#[trigger] t[j]).0,
        ) by {
            assert(t[i] == s[i + 1] && t[j] == s[j + 1]);
        }
        lemma_kept(t, output_level, watermark, max_levels);
        let q = compact::kept(t, output_level, watermark, max_levels);
        assert forall|r: Record| #[trigger] k.contains(r) <==> (s.contains(r)
            && !compact::droppable(r, output_level, watermark, max_levels)) by {
            lemma_first_or_rest(s, r);
            if !compact::droppable(x, output_level, watermark, max_levels) {
                assert(k.skip(1) =~= q);
                lemma_first_or_rest(k, r);
            }
        }
        if !compact::droppable(x, output_level, watermark, max_levels) {
            assert forall|i: int, j: int| 0 <= i < j < k.len() implies key::key_lt(
                (#[trigger] k[i]).0,
                (#[trigger] k[j]).0,
            ) by {
                assert(k[j] == q[j - 1]);
                if i > 0 {
                    assert(k[i] == q[i - 1]);
                } else {
                    assert(q.contains(q[j - 1]));
                    let b = choose|b: int| 0 <= b < t.len() && t[b] == q[j - 1];
                    assert(s[b + 1] == t[b]);
                    assert(key::key_lt(s[0].0, s[b + 1].0));
                }
            }
        }
    } else {
        assert forall|r: Record| !#[trigger] k.contains(r) by {}
    }
}

/// A record of a run is its first one or one of the others.
proof fn lemma_first_or_rest(s: Seq<Record>, r: Record)
    requires
        s.len() > 0,
    ensures
        s.contains(r) <==> (r == s[0] || s.skip(1).contains(r)),
{
    let t = s.skip(1);
    if s.contains(r) && r != s[0] {
        let i = choose|i: int| 0 <= i < s.len() && s[i] == r;
        assert(t[i - 1] == r);
    }
    if t.contains(r) {
        let i = choose|i: int| 0 <= i < t.len() && t[i] == r;
        assert(s[i + 1] == r);
    }
}

/// No record of the run comes before `before`.
spec fn all_after(s: Seq<Record>, before: Option<KeyView>) -> bool {
    before matches Some(b) ==> forall|i: int|
        0 <= i < s.len() ==> !key::key_lt((#[trigger] s[i]).0, b)
}

/// Behind its first record an ordered run is ordered, and nothing in it comes before that record.
proof fn lemma_ordered_rest(s: Seq<Record>)
    requires
        iter::ordered(s),
        s.len() > 0,
    ensures
        iter::ordered(s.skip(1)),
        all_after(s.skip(1), Some(s[0].0)),
{
    let t = s.skip(1);
    assert forall|i: int, j: int| 0 <= i < j < t.len() implies !key::key_lt(
        (#[trigger] t[j]).0,
        (#[trigger] t[i]).0,
    ) by {
        assert(t[i] == s[i + 1] && t[j] == s[j + 1]);
    }
    assert forall|i: int| 0 <= i < t.len() implies !key::key_lt((#[trigger] t[i]).0, s[0].0) by {
        assert(t[i] == s[i + 1]);
    }
}

/// The needed records of an ordered run are sorted, and come behind what came before the run.
proof fn lemma_needed_sorted(s: Seq<Record>, before: Option<KeyView>, watermark: u64)
    requires
        iter::ordered(s),
        all_after(s, before),
    ensures
        ({
            let n = compact::needed(s, before, watermark);
            &&& model::sorted(n)
            &&& before matches Some(b) ==> forall|i: int|
                0 <= i < n.len() ==> key::key_lt(b, (#[trigger] n[i]).0)
        }),
    decreases s.len(),
{
    let n = compact::needed(s, before, watermark);
    if s.len() > 0 {
        let x = s[0].0;
        lemma_ordered_rest(s);
        lemma_needed_sorted(s.skip(1), Some(x), watermark);
        let q = compact::needed(s.skip(1), Some(x), watermark);
        let gone = compact::superseded(before, x, watermark);
        if !gone {
            assert forall|i: int, j: int| 0 <= i < j < n.len() implies key::key_lt(
                (#[trigger] n[i]).0,
                (#[trigger] n[j]).0,
            ) by {
                assert(n[j] == q[j - 1]);
                if i > 0 {
                    assert(n[i] == q[i - 1]);
                }
            }
        }
        if let Some(b) = before {
            key::law_key_order_total(b, x);
            assert(!key::key_lt(s[0].0, b));
            assert forall|i: int| 0 <= i < n.len() implies key::key_lt(b, (#[trigger] n[i]).0) by {
                let y = if gone {
                    q[i]
                } else if i > 0 {
                    q[i - 1]
                } else {
                    s[0]
                };
                assert(n[i] == y);
                if gone || i > 0 {
                    assert(key::key_lt(x, y.0));
                    if b != x {
                        key::law_key_order_transitive(b, x, y.0);
                    }
                }
            }
        }
    }
}

/// A needed record stands in the run, and a newer version of its key is above the watermark.
proof fn lemma_needed_only(
    s: Seq<Record>,
    before: Option<KeyView>,
    watermark: u64,
    r: Record,
    x: Record,
)
    requires
        iter::ordered(s),
        all_after(s, before),
        compact::needed(s, before, watermark).contains(r),
    ensures
        s.contains(r),
        before matches Some(b) ==> b.user_key == r.0.user_key ==> b.seq > watermark,
        s.contains(x) && x.0.user_key == r.0.user_key && x.0.seq > r.0.seq ==> x.0.seq > watermark,
    decreases s.len(),
{
    let n = compact::needed(s, before, watermark);
    let h = s[0];
    let t = s.skip(1);
    lemma_ordered_rest(s);
    lemma_first_or_rest(s, r);
    lemma_first_or_rest(s, x);
    codec::lemma_bytes_lt_irreflexive(r.0.user_key);
    let q = compact::needed(t, Some(h.0), watermark);
    if !compact::superseded(before, h.0, watermark) {
        assert(n.skip(1) =~= q);
        lemma_first_or_rest(n, r);
    }
    if q.contains(r) {
        lemma_needed_only(t, Some(h.0), watermark, r, x);
        if let Some(b) = before {
            if b.user_key == r.0.user_key {
                let i = choose|i: int| 0 <= i < t.len() && t[i] == r;
                assert(!key::key_lt(t[i].0, h.0));
                assert(!key::key_lt(s[0].0, b));
                assert(s[i + 1] == r);
                assert(!key::key_lt(s[i + 1].0, b));
                codec::lemma_bytes_lt_total(h.0.user_key, b.user_key);
                if h.0.user_key != b.user_key {
                    codec::lemma_bytes_lt_asymmetric(b.user_key, h.0.user_key);
                }
            }
        }
    } else {
        assert(r == h);
        if t.contains(x) {
            let i = choose|i: int| 0 <= i < t.len() && t[i] == x;
            assert(!key::key_lt(t[i].0, h.0));
        }
    }
}

/// A record of the run that is not needed is another record of a version that is, or there is a
/// newer version up to the watermark.
proof fn lemma_needed_all(s: Seq<Record>, before: Option<KeyView>, watermark: u64, x: Record)
    requires
        iter::ordered(s),
        s.contains(x),
        !compact::superseded(before, x.0, watermark),
    ensures
        (exists|y: Record| #[trigger]
            compact::needed(s, before, watermark).contains(y) && y.0.user_key == x.0.user_key
                && y.0.seq == x.0.seq) || (exists|y: Record| #[trigger]
            s.contains(y) && y.0.user_key == x.0.user_key && x.0.seq < y.0.seq <= watermark),
    decreases s.len(),
{
    let n = compact::needed(s, before, watermark);
    let h = s[0];
    let t = s.skip(1);
    let q = compact::needed(t, Some(h.0), watermark);
    lemma_ordered_rest(s);
    lemma_first_or_rest(s, x);
    codec::lemma_bytes_lt_irreflexive(x.0.user_key);
    if !compact::superseded(before, h.0, watermark) {
        assert(n[0] == h);
        assert(n.contains(h));
        assert(n.skip(1) =~= q);
    }
    assert(s.contains(h));
    if h != x {
        let i = choose|i: int| 0 <= i < t.len() && t[i] == x;
        assert(!key::key_lt(t[i].0, h.0));
        if h.0.user_key == x.0.user_key && (h.0.seq == x.0.seq || h.0.seq <= watermark) {
            if h.0.seq > x.0.seq {
                assert(s.contains(h) && x.0.seq < h.0.seq <= watermark);
            }
        } else {
            lemma_needed_all(t, Some(h.0), watermark, x);
            if exists|y: Record| #[trigger]
                q.contains(y) && y.0.user_key == x.0.user_key && y.0.seq == x.0.seq {
                let y = choose|y: Record| #[trigger]
                    q.contains(y) && y.0.user_key == x.0.user_key && y.0.seq == x.0.seq;
                if !compact::superseded(before, h.0, watermark) {
                    lemma_first_or_rest(n, y);
                }
                assert(n.contains(y));
            } else {
                let y = choose|y: Record| #[trigger]
                    t.contains(y) && y.0.user_key == x.0.user_key && x.0.seq < y.0.seq <= watermark;
                lemma_first_or_rest(s, y);
                assert(s.contains(y));
            }
        }
    }
}

/// Every reader who sees `r`, those of open snapshots too, sees a newer version of its key.
pub open spec fn outdated(runs: Seq<Seq<Record>>, r: Record, watermark: u64) -> bool {
    exists|x: Record| #[trigger]
        iter::held(runs, x) && x.0.user_key == r.0.user_key && r.0.seq < x.0.seq <= watermark
}

/// Compaction keeps, in the order of the keys, what its tables hold, but for the versions that no
/// reader can see and the tombstones that may go; and it keeps nothing else.
pub proof fn law_compaction_keeps_needed(
    runs: Seq<Seq<Record>>,
    output_level: int,
    watermark: u64,
    max_levels: usize,
    r: Record,
)
    requires
        iter::all_sorted(runs),
        coherence::agree(runs),
    ensures
        ({
            let s = compact::survivors(runs, output_level, watermark, max_levels);
            &&& model::sorted(s)
            &&& s.contains(r) <==> iter::held(runs, r) && !outdated(runs, r, watermark) && !(
            r.0.kind == ValueKind::Delete && r.0.seq <= watermark && output_level + 1 >= max_levels)
        }),
{
    let m = iter::merged(runs);
    let n = compact::needed(m, None, watermark);
    let s = compact::survivors(runs, output_level, watermark, max_levels);
    iter::law_merge_is_ordered(runs);
    lemma_needed_sorted(m, None, watermark);
    lemma_kept(n, output_level, watermark, max_levels);
    iter::law_merge_keeps_records(runs, r);
    if n.contains(r) {
        lemma_needed_only(m, None, watermark, r, r);
        if outdated(runs, r, watermark) {
            let x = choose|x: Record| #[trigger]
                iter::held(runs, x) && x.0.user_key == r.0.user_key && r.0.seq < x.0.seq
                    <= watermark;
            iter::law_merge_keeps_records(runs, x);
            lemma_needed_only(m, None, watermark, r, x);
        }
    }
    if iter::held(runs, r) && !outdated(runs, r, watermark) {
        lemma_needed_all(m, None, watermark, r);
        if exists|y: Record| #[trigger]
            n.contains(y) && y.0.user_key == r.0.user_key && y.0.seq == r.0.seq {
            let y = choose|y: Record| #[trigger]
                n.contains(y) && y.0.user_key == r.0.user_key && y.0.seq == r.0.seq;
            lemma_needed_only(m, None, watermark, y, y);
            iter::law_merge_keeps_records(runs, y);
            assert(coherence::compatible(y, r));
        } else {
            let y = choose|y: Record| #[trigger]
                m.contains(y) && y.0.user_key == r.0.user_key && r.0.seq < y.0.seq <= watermark;
            iter::law_merge_keeps_records(runs, y);
        }
    }
}

/// What a reader at a snapshot finds among the inputs of a compaction, it finds among what the
/// compaction keeps, unless that is a tombstone that may go.
pub proof fn law_snapshot_version_is_retained(
    runs: Seq<Seq<Record>>,
    output_level: int,
    watermark: u64,
    max_levels: usize,
    r: Record,
    max_seq: u64,
)
    requires
        iter::all_sorted(runs),
        coherence::agree(runs),
        max_seq >= watermark,
        iter::held(runs, r),
        r.0.seq <= max_seq,
        forall|x: Record| #[trigger]
            iter::held(runs, x) && model::visible(x, r.0.user_key, max_seq) ==> x.0.seq <= r.0.seq,
        r.0.kind == ValueKind::Put || r.0.seq > watermark || output_level + 1 < max_levels,
    ensures
        compact::survivors(runs, output_level, watermark, max_levels).contains(r),
{
    law_compaction_keeps_needed(runs, output_level, watermark, max_levels, r);
    if outdated(runs, r, watermark) {
        let x = choose|x: Record| #[trigger]
            iter::held(runs, x) && x.0.user_key == r.0.user_key && r.0.seq < x.0.seq <= watermark;
        assert(model::visible(x, r.0.user_key, max_seq));
    }
}

/// If every reader sees everything, what is needed is the first record of each user key.
proof fn lemma_needed_is_firsts(s: Seq<Record>, before: Option<KeyView>)
    ensures
        compact::needed(s, before, u64::MAX) == model::firsts(
            s,
            match before {
                Some(b) => Some(b.user_key),
                None => None,
            },
        ),
    decreases s.len(),
{
    if s.len() > 0 {
        lemma_needed_is_firsts(s.skip(1), Some(s[0].0));
    }
}

/// While no snapshot is open, compaction keeps of each user key the newest version alone, unless
/// that is a tombstone that may go.
pub proof fn law_newest_survive_without_snapshots(
    runs: Seq<Seq<Record>>,
    output_level: int,
    max_levels: usize,
)
    ensures
        compact::survivors(
            runs,
            output_level,
            snapshot::watermark_of(Seq::empty()),
            max_levels,
        ) == compact::kept(iter::newest(runs), output_level, u64::MAX, max_levels),
{
    lemma_needed_is_firsts(iter::merged(runs), None);
}

/// The full files and the one being filled hold the records in order, no full file is empty, and
/// what follows a file starts with another user key than the file ends with.
proof fn lemma_file_cut(s: Seq<Record>, target: usize)
    ensures
        ({
            let c = compact::file_cut(s, target);
            &&& contents::join(c.full) + c.open == s
            &&& s.len() > 0 ==> c.open.len() > 0
            &&& parted(c.full.push(c.open))
            &&& forall|i: int| 0 <= i < c.full.len() ==> (#[trigger] c.full[i]).len() > 0
        }),
    decreases s.len(),
{
    let c = compact::file_cut(s, target);
    if s.len() == 0 {
        assert(contents::join(c.full) + c.open =~= s);
    } else {
        let p = s.drop_last();
        lemma_file_cut(p, target);
        let d = compact::file_cut(p, target);
        let r = s.last();
        let front = contents::join(d.full);
        let was = d.full.push(d.open);
        let now = c.full.push(c.open);
        assert(p.push(r) =~= s);
        if compact::closes(d.open, d.size, r, target) {
            assert(c.full.drop_last() =~= d.full);
            assert(contents::join(c.full) == front + d.open);
            assert(contents::join(c.full) + c.open =~= s);
            assert forall|i: int| 0 <= i < c.full.len() implies (#[trigger] c.full[i]).len() > 0 by {
                if i < d.full.len() {
                    assert(c.full[i] == d.full[i]);
                }
            }
            assert forall|i: int, j: int| 0 <= i < j < now.len() && j == i + 1 implies (
            #[trigger] now[i]).last().0.user_key != (#[trigger] now[j])[0].0.user_key by {
                if i < d.full.len() {
                    assert(now[i] == was[i] && now[j] == was[j]);
                } else {
                    assert(now[i] == d.open && now[j] == seq![r]);
                }
            }
        } else {
            assert(front + d.open.push(r) =~= (front + d.open).push(r));
            assert forall|i: int, j: int| 0 <= i < j < now.len() && j == i + 1 implies (
            #[trigger] now[i]).last().0.user_key != (#[trigger] now[j])[0].0.user_key by {
                assert(now[i] == was[i]);
                if j < d.full.len() {
                    assert(now[j] == was[j]);
                } else {
                    assert(p.len() > 0) by {
                        if p.len() == 0 {
                            assert(d.full.len() == 0);
                        }
                    }
                    assert(now[j][0] == was[j][0]);
                }
            }
        }
    }
}

/// Each file starts with another user key than the one before it ends with.
pub open spec fn parted(files: Seq<Seq<Record>>) -> bool {
    forall|i: int, j: int|
        0 <= i < j < files.len() && j == i + 1 ==> (#[trigger] files[i]).last().0.user_key != (
        #[trigger] files[j])[0].0.user_key
}

/// The output files hold the records in order, none is empty, and no user key is in two of them.
pub proof fn lemma_output_files(s: Seq<Record>, target: usize)
    ensures
        contents::join(compact::output_files(s, target)) == s,
        parted(compact::output_files(s, target)),
        forall|i: int|
            0 <= i < compact::output_files(s, target).len() ==> (#[trigger] compact::output_files(
                s,
                target,
            )[i]).len() > 0,
{
    lemma_file_cut(s, target);
    let c = compact::file_cut(s, target);
    let files = compact::output_files(s, target);
    if c.open.len() > 0 {
        assert(files.drop_last() =~= c.full);
        assert forall|i: int| 0 <= i < files.len() implies (#[trigger] files[i]).len() > 0 by {
            if i < c.full.len() {
                assert(files[i] == c.full[i]);
            }
        }
    } else {
        assert(contents::join(files) =~= s);
    }
}

/// Files that hold sorted records, no user key in two of them, are sorted each, and their user keys
/// rise from one to the next.
pub proof fn lemma_files_rise(files: Seq<Seq<Record>>, i: int, j: int)
    requires
        model::sorted(contents::join(files)),
        parted(files),
        forall|x: int| 0 <= x < files.len() ==> (#[trigger] files[x]).len() > 0,
        0 <= i < files.len(),
        0 <= j < files.len(),
    ensures
        model::sorted(files[i]),
        i < j ==> codec::bytes_lt(files[i].last().0.user_key, files[j][0].0.user_key),
{
    let s = contents::join(files);
    let f = files[i];
    let a = lemma_file_at(files, i);
    assert forall|x: int, y: int| 0 <= x < y < f.len() implies key::key_lt(
        (#[trigger] f[x]).0,
        (#[trigger] f[y]).0,
    ) by {
        assert(key::key_lt(s[a + x].0, s[a + y].0));
    }
    if i < j {
        let g = files[i + 1];
        let h = files[j];
        let b = lemma_file_at(files, i + 1);
        let c = lemma_file_at(files, j);
        lemma_file_order(files, i, i + 1);
        lemma_file_order(files, i + 1, j);
        let last = f[f.len() - 1];
        assert(last == s[a + f.len() - 1] && g[0] == s[b] && h[0] == s[c]);
        contents::lemma_sorted_user_keys(s, a + f.len() - 1, b);
        contents::lemma_sorted_user_keys(s, b, c);
        assert(f.last().0.user_key != files[i + 1][0].0.user_key);
        placing::lemma_lt_le(last.0.user_key, g[0].0.user_key, h[0].0.user_key);
    }
}

/// Where a file stands among the records of all files.
proof fn lemma_file_at(files: Seq<Seq<Record>>, i: int) -> (a: int)
    requires
        0 <= i < files.len(),
    ensures
        a == contents::join(files.take(i)).len(),
        0 <= a,
        a + files[i].len() <= contents::join(files).len(),
        forall|x: int|
            0 <= x < files[i].len() ==> #[trigger] files[i][x] == contents::join(files)[a + x],
{
    let s = contents::join(files);
    contents::lemma_join_at(files, i);
    let a = contents::join(files.take(i)).len() as int;
    let f = files[i];
    assert forall|x: int| 0 <= x < f.len() implies #[trigger] f[x] == s[a + x] by {
        assert(s.subrange(a, a + f.len())[x] == s[a + x]);
    }
    a
}

/// A file stands behind those before it.
proof fn lemma_file_order(files: Seq<Seq<Record>>, i: int, j: int)
    requires
        0 <= i <= j < files.len(),
    ensures
        i < j ==> contents::join(files.take(i)).len() + files[i].len() <= contents::join(
            files.take(j),
        ).len(),
{
    if i < j {
        let pre = files.take(j);
        contents::lemma_join_at(pre, i);
        assert(pre.take(i) =~= files.take(i));
        assert(pre[i] == files[i]);
    }
}

/// A tombstone that is the newest version of its key is kept as long as a snapshot is open that is
/// older than it, or a level below the output could hold what it hides.
pub proof fn law_tombstone_is_retained(
    runs: Seq<Seq<Record>>,
    output_level: int,
    watermark: u64,
    max_levels: usize,
    r: Record,
)
    requires
        iter::all_sorted(runs),
        coherence::agree(runs),
        iter::held(runs, r),
        forall|x: Record| #[trigger]
            iter::held(runs, x) && x.0.user_key == r.0.user_key ==> x.0.seq <= r.0.seq,
        r.0.seq > watermark || output_level + 1 < max_levels,
    ensures
        compact::survivors(runs, output_level, watermark, max_levels).contains(r),
{
    law_compaction_keeps_needed(runs, output_level, watermark, max_levels, r);
}

} // verus!

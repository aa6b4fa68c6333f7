//! What a scan gives.

use crate::codec;
use crate::db;
use crate::db::DbView;
use crate::iter;
use crate::key;
use crate::key::{Record, ValueKind};
use crate::laws::coherence;
use crate::laws::soundness;
use crate::model;
use crate::model::StartView;
use crate::sstable::contents;
use crate::sstable::reader;
use crate::sstable::reader::{Disk, TableView};
use crate::tree;
use crate::version;
use vstd::prelude::*;

verus! {

/// The keys and the values of the records that are not tombstones.
pub open spec fn put_rows(s: Seq<Record>) -> Seq<(Seq<u8>, Seq<u8>)>
    decreases s.len(),
{
    if s.len() == 0 {
        Seq::empty()
    } else if s[0].0.kind == ValueKind::Put {
        seq![(s[0].0.user_key, s[0].1)] + put_rows(s.skip(1))
    } else {
        put_rows(s.skip(1))
    }
}

proof fn lemma_with_value_concat(
    a: Seq<(Seq<u8>, Option<Seq<u8>>)>,
    b: Seq<(Seq<u8>, Option<Seq<u8>>)>,
)
    ensures
        db::with_value(a + b) == db::with_value(a) + db::with_value(b),
    decreases b.len(),
{
    if b.len() == 0 {
        assert(a + b =~= a);
        assert(db::with_value(a) + db::with_value(b) =~= db::with_value(a));
    } else {
        lemma_with_value_concat(a, b.drop_last());
        assert((a + b).drop_last() =~= a + b.drop_last());
        assert((a + b).last() == b.last());
        assert(db::with_value(a + b) =~= db::with_value(a) + db::with_value(b));
    }
}

proof fn lemma_told_rows(s: Seq<Record>)
    ensures
        db::with_value(iter::told(s, true)) == put_rows(s),
    decreases s.len(),
{
    if s.len() > 0 {
        lemma_told_rows(s.skip(1));
        if s[0].0.kind == ValueKind::Put {
            let x = (s[0].0.user_key, Some(s[0].1));
            lemma_with_value_concat(seq![x], iter::told(s.skip(1), true));
            assert(seq![x].drop_last() =~= Seq::<(Seq<u8>, Option<Seq<u8>>)>::empty());
            reveal_with_fuel(db::with_value, 2);
            assert(db::with_value(seq![x]) =~= seq![(s[0].0.user_key, s[0].1)]);
        }
    }
}

/// The rows of records with rising user keys have rising keys, and are those of the records.
proof fn lemma_put_rows(s: Seq<Record>)
    requires
        iter::keys_rise(s),
    ensures
        forall|i: int, j: int|
            0 <= i < j < put_rows(s).len() ==> codec::bytes_lt(
                (#[trigger] put_rows(s)[i]).0,
                (#[trigger] put_rows(s)[j]).0,
            ),
        forall|row: (Seq<u8>, Seq<u8>)| #[trigger]
            put_rows(s).contains(row) <==> model::answer(model::find(s, row.0, u64::MAX)) == Some(
                row.1,
            ),
    decreases s.len(),
{
    if s.len() > 0 {
        let t = s.skip(1);
        let x = s[0];
        assert forall|i: int, j: int| 0 <= i < j < t.len() implies codec::bytes_lt(
            (#[trigger] t[i]).0.user_key,
            (#[trigger] t[j]).0.user_key,
        ) by {
            assert(t[i] == s[i + 1] && t[j] == s[j + 1]);
        }
        lemma_put_rows(t);
        let rows = put_rows(s);
        let more = put_rows(t);
        // A row of the other records has a key behind the first.
        assert forall|row: (Seq<u8>, Seq<u8>)| #[trigger] more.contains(row) implies codec::bytes_lt(
            x.0.user_key,
            row.0,
        ) by {
            let f = model::find(t, row.0, u64::MAX);
            assert(f is Some);
            let i = model::lemma_find_some(t, row.0, u64::MAX);
            assert(t[i] == s[i + 1]);
            assert(codec::bytes_lt(s[0].0.user_key, s[i + 1].0.user_key));
        }
        codec::lemma_bytes_lt_irreflexive(x.0.user_key);
        assert forall|row: (Seq<u8>, Seq<u8>)| #[trigger]
            rows.contains(row) <==> model::answer(model::find(s, row.0, u64::MAX)) == Some(row.1) by {
            let first = (x.0.user_key, x.1);
            if x.0.kind == ValueKind::Put {
                assert(rows == seq![first] + more);
                if rows.contains(row) && row != first {
                    let i = choose|i: int| 0 <= i < rows.len() && rows[i] == row;
                    assert(more[i - 1] == row);
                    assert(more.contains(row));
                }
                if row == first {
                    assert(rows[0] == row);
                }
                if more.contains(row) {
                    let i = choose|i: int| 0 <= i < more.len() && more[i] == row;
                    assert(rows[i + 1] == row);
                }
            }
            if row.0 == x.0.user_key {
                assert(!more.contains(row));
            }
        }
        if x.0.kind == ValueKind::Put {
            assert forall|i: int, j: int| 0 <= i < j < rows.len() implies codec::bytes_lt(
                (#[trigger] rows[i]).0,
                (#[trigger] rows[j]).0,
            ) by {
                assert(rows[j] == more[j - 1]);
                assert(more.contains(more[j - 1]));
                if i > 0 {
                    assert(rows[i] == more[i - 1]);
                }
            }
        }
    }
}

/// What a scan takes into account of a sorted run is sorted, and is that of its records that the
/// scan admits.
pub proof fn lemma_select(s: Seq<Record>, start: StartView, max_seq: u64)
    requires
        model::sorted(s),
    ensures
        model::sorted(model::select(s, start, max_seq)),
        forall|r: Record| #[trigger]
            model::select(s, start, max_seq).contains(r) <==> (s.contains(r) && model::admits(
                start,
                max_seq,
                r,
            )),
    decreases s.len(),
{
    if s.len() > 0 {
        let t = s.skip(1);
        let x = s[0];
        assert forall|i: int, j: int| 0 <= i < j < t.len() implies key::key_lt(
            #[trigger] t[i].0,
            #[trigger] t[j].0,
        ) by {
            assert(t[i] == s[i + 1] && t[j] == s[j + 1]);
        }
        lemma_select(t, start, max_seq);
        let all = model::select(s, start, max_seq);
        let more = model::select(t, start, max_seq);
        assert forall|r: Record| #[trigger] all.contains(r) <==> (s.contains(r) && model::admits(
            start,
            max_seq,
            r,
        )) by {
            if s.contains(r) && r != x {
                let i = choose|i: int| 0 <= i < s.len() && s[i] == r;
                assert(t[i - 1] == r);
                assert(t.contains(r));
            }
            if t.contains(r) {
                let i = choose|i: int| 0 <= i < t.len() && t[i] == r;
                assert(s[i + 1] == r);
            }
            assert(s.contains(x)) by {
                assert(s[0] == x);
            }
            if model::admits(start, max_seq, x) {
                assert(all == seq![x] + more);
                if all.contains(r) && r != x {
                    let i = choose|i: int| 0 <= i < all.len() && all[i] == r;
                    assert(more[i - 1] == r);
                    assert(more.contains(r));
                }
                if more.contains(r) {
                    let i = choose|i: int| 0 <= i < more.len() && more[i] == r;
                    assert(all[i + 1] == r);
                }
                if r == x {
                    assert(all[0] == r);
                }
            } else {
                assert(all == more);
            }
        }
        if model::admits(start, max_seq, x) {
            assert forall|i: int, j: int| 0 <= i < j < all.len() implies key::key_lt(
                #[trigger] all[i].0,
                #[trigger] all[j].0,
            ) by {
                assert(all[j] == more[j - 1]);
                if i > 0 {
                    assert(all[i] == more[i - 1]);
                } else {
                    assert(more.contains(all[j]));
                    assert(t.contains(all[j]));
                    let b = choose|b: int| 0 <= b < t.len() && t[b] == all[j];
                    assert(s[b + 1] == t[b]);
                    assert(key::key_lt(s[0].0, s[b + 1].0));
                }
            }
        }
    }
}

proof fn lemma_sorted_is_ordered(s: Seq<Record>)
    requires
        model::sorted(s),
    ensures
        iter::ordered(s),
{
    assert forall|i: int, j: int| 0 <= i < j < s.len() implies !key::key_lt(
        (#[trigger] s[j]).0,
        (#[trigger] s[i]).0,
    ) by {
        assert(key::key_lt(s[i].0, s[j].0));
        key::law_key_order_asymmetric(s[i].0, s[j].0);
    }
}

/// Records with rising user keys are sorted.
pub proof fn lemma_rising_is_sorted(s: Seq<Record>)
    requires
        iter::keys_rise(s),
    ensures
        model::sorted(s),
{
    assert forall|i: int, j: int| 0 <= i < j < s.len() implies key::key_lt(
        #[trigger] s[i].0,
        #[trigger] s[j].0,
    ) by {
        assert(codec::bytes_lt(s[i].0.user_key, s[j].0.user_key));
    }
}

/// What is left of a source for a scan: it is sorted, holds nothing that the source does not hold
/// and nothing that the scan does not admit, and holds the version that a reader of the source
/// finds.
pub open spec fn reduces(run: Seq<Record>, s: Seq<Record>, start: StartView, max_seq: u64) -> bool {
    &&& model::sorted(run)
    &&& forall|r: Record| #[trigger]
        run.contains(r) ==> s.contains(r) && model::admits(start, max_seq, r)
    &&& forall|k: Seq<u8>|
        model::at_or_after(start, k) && (#[trigger] model::find(s, k, max_seq)) is Some
            ==> run.contains(model::find(s, k, max_seq)->Some_0)
}

proof fn lemma_select_reduces(s: Seq<Record>, start: StartView, max_seq: u64)
    requires
        model::sorted(s),
    ensures
        reduces(model::select(s, start, max_seq), s, start, max_seq),
{
    lemma_select(s, start, max_seq);
    let run = model::select(s, start, max_seq);
    assert forall|k: Seq<u8>|
        model::at_or_after(start, k) && (#[trigger] model::find(s, k, max_seq)) is Some implies run.contains(
    model::find(s, k, max_seq)->Some_0) by {
        let i = model::lemma_find_some(s, k, max_seq);
        assert(s.contains(s[i]));
    }
}

proof fn lemma_memory_run_reduces(s: Seq<Record>, start: StartView, max_seq: u64)
    requires
        model::sorted(s),
    ensures
        reduces(db::memory_run(s, start, max_seq), s, start, max_seq),
{
    let q = model::select(s, start, max_seq);
    let run = db::memory_run(s, start, max_seq);
    lemma_select(s, start, max_seq);
    lemma_sorted_is_ordered(q);
    iter::lemma_firsts_rise(q, None);
    lemma_rising_is_sorted(run);
    assert forall|r: Record| #[trigger] run.contains(r) implies s.contains(r) && model::admits(
        start,
        max_seq,
        r,
    ) by {
        let i = choose|i: int| 0 <= i < run.len() && run[i] == r;
        assert(q.contains(run[i]));
    }
    assert forall|k: Seq<u8>|
        model::at_or_after(start, k) && (#[trigger] model::find(s, k, max_seq)) is Some implies run.contains(
    model::find(s, k, max_seq)->Some_0) by {
        let i = model::lemma_find_some(s, k, max_seq);
        let f = s[i];
        assert(s.contains(f));
        assert(q.contains(f));
        let j = choose|j: int| 0 <= j < q.len() && q[j] == f;
        model::law_find_is_newest(q, k, u64::MAX, j);
        let g = model::lemma_find_some(q, k, u64::MAX);
        assert(q.contains(q[g]));
        let h = choose|h: int| 0 <= h < s.len() && s[h] == q[g];
        model::law_find_is_newest(s, k, max_seq, h);
        assert(q[g].0 == f.0) by {
            assert(key::kind_code(q[g].0.kind) == key::kind_code(f.0.kind));
        }
        key::law_key_order_irreflexive(f.0);
        if g < j {
            assert(key::key_lt(q[g].0, q[j].0));
        }
        if j < g {
            assert(key::key_lt(q[j].0, q[g].0));
        }
        iter::lemma_firsts_find(q, None, k);
        let a = model::lemma_find_some(run, k, u64::MAX);
        assert(run.contains(run[a]));
    }
}

/// A run that is already reduced is left as it is by a second look at sequence numbers.
proof fn lemma_reduced_twice(run: Seq<Record>, s: Seq<Record>, start: StartView, max_seq: u64)
    requires
        reduces(run, s, start, max_seq),
    ensures
        reduces(model::select(run, StartView::Unbounded, max_seq), s, start, max_seq),
{
    lemma_select(run, StartView::Unbounded, max_seq);
}

/// A run of runs holds what its runs hold.
pub proof fn lemma_join_contains(gs: Seq<Seq<Record>>, r: Record)
    ensures
        contents::join(gs).contains(r) <==> iter::held(gs, r),
    decreases gs.len(),
{
    if gs.len() == 0 {
        assert(!contents::join(gs).contains(r));
    } else {
        let p = gs.drop_last();
        let l = gs.last();
        lemma_join_contains(p, r);
        let a = contents::join(p);
        let all = a + l;
        if all.contains(r) {
            let i = choose|i: int| 0 <= i < all.len() && all[i] == r;
            if i < a.len() {
                assert(a[i] == r);
                assert(a.contains(r));
                let j = choose|j: int| 0 <= j < p.len() && (#[trigger] p[j]).contains(r);
                assert(gs[j] == p[j]);
            } else {
                assert(l[i - a.len()] == r);
                assert(gs[gs.len() - 1].contains(r));
            }
        }
        if iter::held(gs, r) {
            let j = choose|j: int| 0 <= j < gs.len() && (#[trigger] gs[j]).contains(r);
            if j < p.len() {
                assert(p[j] == gs[j]);
                let i = choose|i: int| 0 <= i < a.len() && a[i] == r;
                assert(all[i] == r);
            } else {
                let i = choose|i: int| 0 <= i < l.len() && l[i] == r;
                assert(all[a.len() + i] == r);
            }
        }
    }
}

/// All tables are those of the levels.
pub proof fn lemma_flat(levels: Seq<Seq<TableView>>, t: TableView)
    ensures
        version::flat(levels).contains(t) <==> exists|l: int|
            0 <= l < levels.len() && (#[trigger] levels[l]).contains(t),
    decreases levels.len(),
{
    if levels.len() == 0 {
        assert(!version::flat(levels).contains(t));
    } else {
        let p = levels.drop_last();
        let s = levels.last();
        lemma_flat(p, t);
        let a = version::flat(p);
        let all = a + s;
        if all.contains(t) {
            let i = choose|i: int| 0 <= i < all.len() && all[i] == t;
            if i < a.len() {
                assert(a[i] == t);
                assert(a.contains(t));
                let l = choose|l: int| 0 <= l < p.len() && (#[trigger] p[l]).contains(t);
                assert(levels[l] == p[l]);
            } else {
                assert(s[i - a.len()] == t);
                assert(levels[levels.len() - 1].contains(t));
            }
        }
        if exists|l: int| 0 <= l < levels.len() && (#[trigger] levels[l]).contains(t) {
            let l = choose|l: int| 0 <= l < levels.len() && (#[trigger] levels[l]).contains(t);
            if l < p.len() {
                assert(p[l] == levels[l]);
                let i = choose|i: int| 0 <= i < a.len() && a[i] == t;
                assert(all[i] == t);
            } else {
                let i = choose|i: int| 0 <= i < s.len() && s[i] == t;
                assert(all[a.len() + i] == t);
            }
        }
    }
}

/// What a table of some level holds is held.
pub proof fn lemma_table_held(
    levels: Seq<Seq<TableView>>,
    disk: Disk,
    l: int,
    t: TableView,
    r: Record,
)
    requires
        0 <= l < levels.len(),
        levels[l].contains(t),
        contents::contents(t, disk).contains(r),
    ensures
        iter::held(tree::table_sources(levels, disk), r),
{
    let ss = tree::table_sources(levels, disk);
    let i = choose|i: int| 0 <= i < levels[l].len() && levels[l][i] == t;
    let n = levels[0].len() as int;
    if l == 0 {
        assert(tree::each_contents(levels[0].reverse(), disk)[n - 1 - i] == contents::contents(
            t,
            disk,
        ));
        assert(ss[n - 1 - i].contains(r));
    } else {
        let gs = tree::each_contents(levels[l], disk);
        assert(gs[i].contains(r));
        lemma_join_contains(gs, r);
        assert(levels.skip(1)[l - 1] == levels[l]);
        assert(tree::leveled_sources(levels.skip(1), disk)[l - 1] == tree::level_contents(
            levels[l],
            disk,
        ));
        assert(ss[n + l - 1].contains(r));
    }
}

/// What a source on disk finds is what one table finds.
proof fn lemma_source_table(
    levels: Seq<Seq<TableView>>,
    disk: Disk,
    i: int,
    user_key: Seq<u8>,
    max_seq: u64,
) -> (t: TableView)
    requires
        tree::levels_ok(levels, disk),
        0 <= i < tree::table_sources(levels, disk).len(),
        model::find(tree::table_sources(levels, disk)[i], user_key, max_seq) is Some,
    ensures
        version::flat(levels).contains(t),
        contents::table_ok(t, disk),
        model::find(contents::contents(t, disk), user_key, max_seq) == model::find(
            tree::table_sources(levels, disk)[i],
            user_key,
            max_seq,
        ),
{
    let ss = tree::table_sources(levels, disk);
    let n = levels[0].len() as int;
    if i < n {
        let t = levels[0][n - 1 - i];
        assert(tree::each_contents(levels[0].reverse(), disk)[i] == contents::contents(t, disk));
        assert(levels[0].contains(t));
        assert(tree::tables_ok(levels[0], disk));
        lemma_flat(levels, t);
        t
    } else {
        let l = i - n + 1;
        assert(levels.skip(1)[i - n] == levels[l]);
        assert(ss[i] == tree::level_contents(levels[l], disk));
        assert(tree::tables_ok(levels[l], disk));
        tree::lemma_level_find(levels[l], disk, user_key, max_seq);
        let t = version::spanning(levels[l], user_key)->Some_0;
        let j = choose|j: int| 0 <= j < levels[l].len() && levels[l][j] == t;
        assert(contents::table_ok(levels[l][j], disk));
        lemma_flat(levels, t);
        t
    }
}

/// The runs that a scan merges.
pub open spec fn merged_runs(v: DbView, disk: Disk, start: StartView, max_seq: u64) -> Seq<
    Seq<Record>,
> {
    iter::visible_runs(
        db::scan_runs(v, tree::each_contents(version::flat(v.levels), disk), start, max_seq),
        max_seq,
    )
}

/// Each run that a scan merges reduces a source, or a table.
proof fn lemma_runs_reduce(v: DbView, disk: Disk, start: StartView, max_seq: u64)
    requires
        soundness::sound(v, disk),
    ensures
        ({
            let runs = merged_runs(v, disk, start, max_seq);
            let n = db::memory(v).len() as int;
            let ts = version::flat(v.levels);
            &&& runs.len() == n + ts.len()
            &&& forall|i: int|
                0 <= i < n ==> reduces(#[trigger] runs[i], db::memory(v)[i], start, max_seq)
            &&& forall|i: int|
                n <= i < runs.len() ==> reduces(
                    #[trigger] runs[i],
                    contents::contents(ts[i - n], disk),
                    start,
                    max_seq,
                )
        }),
{
    let runs = merged_runs(v, disk, start, max_seq);
    let mem = db::memory(v);
    let n = mem.len() as int;
    let ts = version::flat(v.levels);
    let tables = tree::each_contents(ts, disk);
    let all = db::scan_runs(v, tables, start, max_seq);
    assert forall|i: int| 0 <= i < n implies reduces(#[trigger] runs[i], mem[i], start, max_seq) by {
        assert(db::sources(v, disk)[i] == mem[i]);
        assert(model::sorted(db::sources(v, disk)[i]));
        lemma_memory_run_reduces(mem[i], start, max_seq);
        assert(all[i] == db::memory_run(mem[i], start, max_seq));
        lemma_reduced_twice(all[i], mem[i], start, max_seq);
    }
    assert forall|i: int| n <= i < runs.len() implies reduces(
        #[trigger] runs[i],
        contents::contents(ts[i - n], disk),
        start,
        max_seq,
    ) by {
        let t = ts[i - n];
        assert(ts.contains(t));
        lemma_flat(v.levels, t);
        let l = choose|l: int| 0 <= l < v.levels.len() && (#[trigger] v.levels[l]).contains(t);
        let j = choose|j: int| 0 <= j < v.levels[l].len() && v.levels[l][j] == t;
        assert(tree::tables_ok(v.levels[l], disk));
        assert(contents::table_ok(v.levels[l][j], disk));
        let c = contents::contents(t, disk);
        lemma_select_reduces(c, start, max_seq);
        assert(all[i] == model::select(tables[i - n], start, max_seq));
        lemma_reduced_twice(all[i], c, start, max_seq);
    }
}

/// What the runs of a scan hold is held by the database and admitted by the scan.
proof fn lemma_runs_held(v: DbView, disk: Disk, start: StartView, max_seq: u64, r: Record)
    requires
        soundness::sound(v, disk),
        iter::held(merged_runs(v, disk, start, max_seq), r),
    ensures
        iter::held(db::sources(v, disk), r),
        model::admits(start, max_seq, r),
{
    let runs = merged_runs(v, disk, start, max_seq);
    let mem = db::memory(v);
    let n = mem.len() as int;
    let ts = version::flat(v.levels);
    lemma_runs_reduce(v, disk, start, max_seq);
    let i = choose|i: int| 0 <= i < runs.len() && (#[trigger] runs[i]).contains(r);
    let ss = db::sources(v, disk);
    if i < n {
        assert(ss[i] == mem[i]);
        assert(ss[i].contains(r));
    } else {
        let t = ts[i - n];
        assert(ts.contains(t));
        lemma_flat(v.levels, t);
        let l = choose|l: int| 0 <= l < v.levels.len() && (#[trigger] v.levels[l]).contains(t);
        lemma_table_held(v.levels, disk, l, t, r);
        let us = tree::table_sources(v.levels, disk);
        let j = choose|j: int| 0 <= j < us.len() && (#[trigger] us[j]).contains(r);
        assert(ss[n + j] == us[j]);
    }
}

/// What a reader is told of a key that a scan comes past is what the runs of the scan have as its
/// newest version.
proof fn lemma_scan_finds(
    v: DbView,
    disk: Disk,
    start: StartView,
    max_seq: u64,
    user_key: Seq<u8>,
)
    requires
        soundness::sound(v, disk),
    ensures
        model::find(iter::newest(merged_runs(v, disk, start, max_seq)), user_key, u64::MAX) == (
        if model::at_or_after(start, user_key) {
            model::read(db::sources(v, disk), user_key, max_seq)
        } else {
            None
        }),
{
    let runs = merged_runs(v, disk, start, max_seq);
    let ss = db::sources(v, disk);
    let mem = db::memory(v);
    let n = mem.len() as int;
    let ts = version::flat(v.levels);
    lemma_runs_reduce(v, disk, start, max_seq);
    assert forall|i: int| 0 <= i < runs.len() implies model::sorted(#[trigger] runs[i]) by {}
    coherence::law_read_is_newest(ss, user_key, max_seq);
    let f = model::find(iter::newest(runs), user_key, u64::MAX);
    let r = model::read(ss, user_key, max_seq);
    if f is Some {
        let a = model::lemma_find_some(iter::newest(runs), user_key, u64::MAX);
        iter::lemma_newest_held(runs, a);
        lemma_runs_held(v, disk, start, max_seq, f->Some_0);
        assert(model::visible(f->Some_0, user_key, max_seq));
    }
    if r is Some && model::at_or_after(start, user_key) {
        let i = coherence::lemma_read_source(ss, user_key, max_seq);
        let x = r->Some_0;
        if i < n {
            assert(ss[i] == mem[i]);
            assert(model::find(mem[i], user_key, max_seq) is Some);
            assert(runs[i].contains(x));
        } else {
            let us = tree::table_sources(v.levels, disk);
            assert(ss[i] == us[i - n]);
            let t = lemma_source_table(v.levels, disk, i - n, user_key, max_seq);
            let j = choose|j: int| 0 <= j < ts.len() && ts[j] == t;
            assert(model::find(contents::contents(ts[j], disk), user_key, max_seq) is Some);
            assert(runs[n + j].contains(x));
        }
        assert(iter::held(runs, x));
        iter::law_merge_keeps_newest(runs, x);
        assert(coherence::compatible(f->Some_0, x));
    }
}

/// A scan gives, in the order of the keys and each key once, exactly the keys from its start on
/// that a reader is told a value of, with that value.
pub proof fn law_scan_agrees_with_get(
    v: DbView,
    disk: Disk,
    start: StartView,
    max_seq: u64,
    user_key: Seq<u8>,
    value: Seq<u8>,
)
    requires
        soundness::sound(v, disk),
    ensures
        ({
            let rows = db::scan_rows(
                v,
                tree::each_contents(version::flat(v.levels), disk),
                start,
                max_seq,
            );
            &&& rows.contains((user_key, value)) <==> model::at_or_after(start, user_key)
                && model::answer(model::read(db::sources(v, disk), user_key, max_seq)) == Some(value)
            &&& forall|i: int, j: int|
                0 <= i < j < rows.len() ==> codec::bytes_lt(
                    (#[trigger] rows[i]).0,
                    (#[trigger] rows[j]).0,
                )
        }),
{
    let runs = merged_runs(v, disk, start, max_seq);
    let s = iter::newest(runs);
    lemma_runs_reduce(v, disk, start, max_seq);
    assert forall|i: int| 0 <= i < runs.len() implies model::sorted(#[trigger] runs[i]) by {}
    iter::law_merge_is_ordered(runs);
    iter::lemma_firsts_rise(iter::merged(runs), None);
    lemma_told_rows(s);
    lemma_put_rows(s);
    lemma_scan_finds(v, disk, start, max_seq, user_key);
}

/// The entries of a table, from its blocks as they are on disk, are what the table holds.
pub proof fn law_blocks_hold_contents(t: TableView, disk: Disk)
    ensures
        reader::blocks_entries(
            Seq::new(t.index.len(), |i: int| disk(reader::nth_read(t, i))),
        ) == contents::contents(t, disk),
{
    let bs = Seq::new(t.index.len(), |i: int| disk(reader::nth_read(t, i)));
    lemma_blocks_join(bs, contents::table_groups(t, disk));
}

/// The entries of blocks are those of each, joined.
pub proof fn lemma_blocks_join(bs: Seq<Seq<u8>>, gs: Seq<Seq<Record>>)
    requires
        bs.len() == gs.len(),
        forall|i: int|
            0 <= i < bs.len() ==> #[trigger] gs[i] == crate::sstable::block::block_entries(bs[i]),
    ensures
        reader::blocks_entries(bs) == contents::join(gs),
    decreases bs.len(),
{
    if bs.len() > 0 {
        assert forall|i: int| 0 <= i < bs.len() - 1 implies #[trigger] gs.drop_last()[i]
            == crate::sstable::block::block_entries(bs.drop_last()[i]) by {
            assert(gs.drop_last()[i] == gs[i]);
        }
        lemma_blocks_join(bs.drop_last(), gs.drop_last());
        assert(gs[bs.len() - 1] == crate::sstable::block::block_entries(bs[bs.len() - 1]));
    }
}

} // verus!

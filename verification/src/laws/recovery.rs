//! What a database that is opened after a crash gives back.

use crate::compact;
use crate::compact::JobView;
use crate::db;
use crate::db::DbView;
use crate::iter;
use crate::key::{Record, ValueKind};
use crate::laws::coherence;
use crate::laws::compaction;
use crate::laws::files;
use crate::laws::installs;
use crate::laws::jobs;
use crate::laws::levels as placing;
use crate::laws::scans;
use crate::laws::soundness;
use crate::laws::writes;
use crate::manifest;
use crate::manifest::{EditView, FileView, StateView};
use crate::model;
use crate::options::Options;
use crate::sstable::contents;
use crate::sstable::reader::{Disk, TableView};
use crate::tree;
use crate::version;
use vstd::prelude::*;

verus! {

/// The sequence numbers of the writes rise.
pub open spec fn seqs_rise(log: Seq<Record>) -> bool {
    forall|i: int, j: int|
        0 <= i < j < log.len() ==> (#[trigger] log[i]).0.seq < (#[trigger] log[j]).0.seq
}

/// The log holds, in order, the writes after `start`: at least all of those that memory holds, and
/// all of those that are held anywhere; and of a key that it has a write of, a reader is told what
/// the newest of these says.
pub open spec fn log_covers(v: DbView, disk: Disk, log: Seq<Record>, start: u64) -> bool {
    &&& seqs_rise(log)
    &&& forall|i: int| 0 <= i < log.len() ==> start < (#[trigger] log[i]).0.seq <= v.next_seq
    &&& forall|x: Record| #[trigger]
        iter::held(db::sources(v, disk), x) && x.0.seq > start ==> log.contains(x)
    &&& forall|x: Record| #[trigger] iter::held(db::memory(v), x) ==> x.0.seq > start
    &&& forall|k: Seq<u8>|
        (#[trigger] model::find(db::memtable_of(log), k, u64::MAX)) is Some ==> model::answer(
            model::read(db::sources(v, disk), k, u64::MAX),
        ) == model::answer(model::find(db::memtable_of(log), k, u64::MAX))
}

/// A memtable that took writes with rising sequence numbers holds these, and is sorted.
pub proof fn lemma_memtable_of(log: Seq<Record>)
    requires
        seqs_rise(log),
    ensures
        model::sorted(db::memtable_of(log)),
        forall|r: Record| #[trigger] db::memtable_of(log).contains(r) <==> log.contains(r),
    decreases log.len(),
{
    let m = db::memtable_of(log);
    if log.len() == 0 {
        assert forall|r: Record| #[trigger] m.contains(r) <==> log.contains(r) by {}
    } else {
        let p = log.drop_last();
        let l = log.last();
        assert(log[log.len() - 1] == l);
        assert forall|i: int, j: int| 0 <= i < j < p.len() implies (#[trigger] p[i]).0.seq < (
        #[trigger] p[j]).0.seq by {
            assert(p[i] == log[i] && p[j] == log[j]);
        }
        lemma_memtable_of(p);
        let q = db::memtable_of(p);
        model::lemma_with_record(q, l.0, l.1);
        assert forall|r: Record| #[trigger] m.contains(r) <==> log.contains(r) by {
            if log.contains(r) && r != l {
                let i = choose|i: int| 0 <= i < log.len() && log[i] == r;
                assert(p[i] == r);
                assert(p.contains(r));
                assert(q.contains(r));
                assert(r.0.seq < l.0.seq);
            }
            if m.contains(r) && r != l {
                assert(q.contains(r));
                let i = choose|i: int| 0 <= i < p.len() && p[i] == r;
                assert(log[i] == r);
            }
        }
    }
}

/// Two writes with the same sequence number are the same.
proof fn lemma_one_per_seq(log: Seq<Record>, a: Record, b: Record)
    requires
        seqs_rise(log),
        log.contains(a),
        log.contains(b),
        a.0.seq == b.0.seq,
    ensures
        a == b,
{
    let i = choose|i: int| 0 <= i < log.len() && log[i] == a;
    let j = choose|j: int| 0 <= j < log.len() && log[j] == b;
    if i < j {
        assert(log[i].0.seq < log[j].0.seq);
    }
    if j < i {
        assert(log[j].0.seq < log[i].0.seq);
    }
}

/// No write of a memtable that took the log is newer than the newest of the log.
proof fn lemma_memtable_below(log: Seq<Record>, r: Record)
    requires
        seqs_rise(log),
        forall|i: int| 0 <= i < log.len() ==> (#[trigger] log[i]).0.seq < r.0.seq,
    ensures
        forall|i: int|
            0 <= i < db::memtable_of(log).len() ==> (#[trigger] db::memtable_of(log)[i]).0.seq
                < r.0.seq,
{
    let m = db::memtable_of(log);
    lemma_memtable_of(log);
    assert forall|i: int| 0 <= i < m.len() implies (#[trigger] m[i]).0.seq < r.0.seq by {
        assert(m.contains(m[i]));
        let j = choose|j: int| 0 <= j < log.len() && log[j] == m[i];
        assert(log[j].0.seq < r.0.seq);
    }
}

/// Once the log holds nothing and memory holds nothing, the log covers what is written from now on.
pub proof fn law_empty_log_covers(v: DbView, disk: Disk)
    requires
        soundness::sound(v, disk),
        v.mem.len() == 0,
        v.imms.len() == 0,
    ensures
        log_covers(v, disk, Seq::empty(), v.next_seq),
        forall|n: u64| #[trigger] tables_up_to(v, disk, n) ==> seqs_known(v, disk, n, v.next_seq),
{
    let none = Seq::<Record>::empty();
    assert forall|x: Record| #[trigger] iter::held(db::memory(v), x) implies x.0.seq > v.next_seq by {
        let i = choose|i: int| 0 <= i < db::memory(v).len() && (#[trigger] db::memory(v)[i]).contains(
            x,
        );
        assert(db::memory(v)[i] == v.mem);
    }
}

/// A write that is logged and then applied is covered by the log.
pub proof fn law_logged_write_is_covered(
    v: DbView,
    disk: Disk,
    log: Seq<Record>,
    start: u64,
    user_key: Seq<u8>,
    value: Seq<u8>,
    kind: ValueKind,
)
    requires
        soundness::sound(v, disk),
        log_covers(v, disk, log, start),
        start <= v.next_seq,
        v.next_seq < u64::MAX,
    ensures
        ({
            let r = db::next_record(v, user_key, value, kind);
            log_covers(
                db::applied(DbView { next_seq: (v.next_seq + 1) as u64, ..v }, r),
                disk,
                log.push(r),
                start,
            )
        }),
{
    let r = db::next_record(v, user_key, value, kind);
    let w = db::applied(DbView { next_seq: (v.next_seq + 1) as u64, ..v }, r);
    let all = log.push(r);
    let ss = db::sources(v, disk);
    let ts = db::sources(w, disk);
    assert(ts =~= db::sources(db::applied(v, r), disk));
    assert forall|i: int, j: int| 0 <= i < j < all.len() implies (#[trigger] all[i]).0.seq < (
    #[trigger] all[j]).0.seq by {
        assert(all[i] == log[i]);
        if j < log.len() {
            assert(all[j] == log[j]);
        }
    }
    assert forall|i: int| 0 <= i < all.len() implies start < (#[trigger] all[i]).0.seq
        <= w.next_seq by {
        if i < log.len() {
            assert(all[i] == log[i]);
        }
    }
    assert forall|x: Record| #[trigger] iter::held(ts, x) && x.0.seq > start implies all.contains(
        x,
    ) by {
        if x == r {
            assert(all[log.len() as int] == x);
        } else {
            lemma_written_held(v, disk, r, x);
            let i = choose|i: int| 0 <= i < log.len() && log[i] == x;
            assert(all[i] == x);
        }
    }
    assert forall|x: Record| #[trigger] iter::held(db::memory(w), x) implies x.0.seq > start by {
        if x != r {
            lemma_written_memory(v, disk, r, x);
        }
    }
    assert(all.drop_last() =~= log);
    let m = db::memtable_of(log);
    lemma_memtable_of(log);
    lemma_memtable_below(log, r);
    assert forall|k: Seq<u8>|
        (#[trigger] model::find(db::memtable_of(all), k, u64::MAX)) is Some implies model::answer(
        model::read(ts, k, u64::MAX),
    ) == model::answer(model::find(db::memtable_of(all), k, u64::MAX)) by {
        writes::lemma_find_written(m, r, k, u64::MAX);
        writes::law_write_is_read(v, disk, r, k, u64::MAX);
        if k != user_key {
            assert(model::find(m, k, u64::MAX) is Some);
        }
    }
}

/// What memory holds, the database holds.
proof fn lemma_memory_held(v: DbView, disk: Disk, x: Record)
    requires
        iter::held(db::memory(v), x),
    ensures
        iter::held(db::sources(v, disk), x),
{
    let i = choose|i: int| 0 <= i < db::memory(v).len() && (#[trigger] db::memory(v)[i]).contains(x);
    assert(db::sources(v, disk)[i] == db::memory(v)[i]);
}

/// What is held after a write was held before, but for the write.
proof fn lemma_written_held(v: DbView, disk: Disk, r: Record, x: Record)
    requires
        soundness::sound(v, disk),
        v.next_seq < r.0.seq,
        iter::held(db::sources(db::applied(v, r), disk), x),
        x != r,
    ensures
        iter::held(db::sources(v, disk), x),
{
    let ss = db::sources(v, disk);
    let w = db::applied(v, r);
    let ts = db::sources(w, disk);
    let i = choose|i: int| 0 <= i < ts.len() && (#[trigger] ts[i]).contains(x);
    if i == 0 {
        assert(ss[0] == v.mem);
        assert(model::sorted(ss[0]));
        model::lemma_with_record(v.mem, r.0, r.1);
        assert(ss[0].contains(x));
    } else {
        assert(ts[i] == ss[i]) by {
            if i < db::memory(v).len() {
                assert(db::memory(w)[i] == db::memory(v)[i]);
            }
        }
    }
}

/// What memory holds after a write, memory held before, but for the write.
proof fn lemma_written_memory(v: DbView, disk: Disk, r: Record, x: Record)
    requires
        soundness::sound(v, disk),
        v.next_seq < r.0.seq,
        iter::held(db::memory(db::applied(v, r)), x),
        x != r,
    ensures
        iter::held(db::memory(v), x),
{
    let w = db::applied(v, r);
    let i = choose|i: int| 0 <= i < db::memory(w).len() && (#[trigger] db::memory(w)[i]).contains(x);
    if i == 0 {
        assert(db::sources(v, disk)[0] == v.mem);
        assert(model::sorted(db::sources(v, disk)[0]));
        model::lemma_with_record(v.mem, r.0, r.1);
        assert(db::memory(v)[0].contains(x));
    } else {
        assert(db::memory(w)[i] == db::memory(v)[i]);
    }
}

/// The log stays sufficient through steps that change no answer, hold nothing new, and put nothing
/// into memory.
pub proof fn law_log_keeps_covering(
    v: DbView,
    w: DbView,
    disk: Disk,
    log: Seq<Record>,
    start: u64,
)
    requires
        log_covers(v, disk, log, start),
        w.next_seq >= v.next_seq,
        forall|x: Record| #[trigger]
            iter::held(db::sources(w, disk), x) ==> iter::held(db::sources(v, disk), x),
        forall|x: Record| #[trigger] iter::held(db::memory(w), x) ==> iter::held(db::memory(v), x),
        forall|k: Seq<u8>|
            model::answer(#[trigger] model::read(db::sources(w, disk), k, u64::MAX))
                == model::answer(model::read(db::sources(v, disk), k, u64::MAX)),
    ensures
        log_covers(w, disk, log, start),
{
    assert forall|k: Seq<u8>|
        (#[trigger] model::find(db::memtable_of(log), k, u64::MAX)) is Some implies model::answer(
        model::read(db::sources(w, disk), k, u64::MAX),
    ) == model::answer(model::find(db::memtable_of(log), k, u64::MAX)) by {
        assert(model::answer(model::read(db::sources(w, disk), k, u64::MAX)) == model::answer(
            model::read(db::sources(v, disk), k, u64::MAX),
        ));
    }
}

/// No table holds a record with a sequence number above `n`.
pub open spec fn tables_up_to(v: DbView, disk: Disk, n: u64) -> bool {
    writes::seqs_up_to(tree::table_sources(v.levels, disk), n)
}

/// What recovery opens: the levels as they were, and the log in the memtable.
pub open spec fn recovered_db(v: DbView, w: DbView, log: Seq<Record>) -> bool {
    &&& w.levels == v.levels
    &&& w.opts == v.opts
    &&& w.mem == db::memtable_of(log)
    &&& w.imms.len() == 0
}

proof fn lemma_recovered_sources(v: DbView, w: DbView, disk: Disk, log: Seq<Record>)
    requires
        recovered_db(v, w, log),
    ensures
        db::sources(w, disk) == seq![db::memtable_of(log)] + tree::table_sources(v.levels, disk),
        db::sources(v, disk) == db::memory(v) + tree::table_sources(v.levels, disk),
{
    assert(w.imms.reverse() =~= Seq::<Seq<Record>>::empty());
    assert(db::memory(w) =~= seq![db::memtable_of(log)]);
}

/// What is held after recovery is in the log, or a table held it.
proof fn lemma_recovered_held(v: DbView, w: DbView, disk: Disk, log: Seq<Record>, x: Record)
    requires
        recovered_db(v, w, log),
        seqs_rise(log),
        iter::held(db::sources(w, disk), x),
    ensures
        log.contains(x) || (iter::held(tree::table_sources(v.levels, disk), x) && iter::held(
            db::sources(v, disk),
            x,
        )),
{
    lemma_recovered_sources(v, w, disk, log);
    lemma_memtable_of(log);
    let ts = db::sources(w, disk);
    let us = tree::table_sources(v.levels, disk);
    let i = choose|i: int| 0 <= i < ts.len() && (#[trigger] ts[i]).contains(x);
    if i == 0 {
        assert(db::memtable_of(log).contains(x));
    } else {
        assert(ts[i] == us[i - 1]);
        assert(db::sources(v, disk)[db::memory(v).len() + i - 1] == us[i - 1]);
    }
}

/// A database that is opened again after a crash is sound.
pub proof fn law_recovery_is_sound(
    v: DbView,
    w: DbView,
    disk: Disk,
    log: Seq<Record>,
    start: u64,
)
    requires
        soundness::sound(v, disk),
        log_covers(v, disk, log, start),
        recovered_db(v, w, log),
        tables_up_to(v, disk, w.next_seq),
        forall|i: int| 0 <= i < log.len() ==> (#[trigger] log[i]).0.seq <= w.next_seq,
        soundness::numbered(w.levels, w.next_file_num),
    ensures
        soundness::sound(w, disk),
{
    let ss = db::sources(v, disk);
    let ts = db::sources(w, disk);
    let us = tree::table_sources(v.levels, disk);
    let m = db::memtable_of(log);
    let n = db::memory(v).len() as int;
    lemma_recovered_sources(v, w, disk, log);
    lemma_memtable_of(log);
    assert forall|i: int| 0 <= i < us.len() implies #[trigger] ss[n + i] == us[i] by {}
    assert forall|i: int| 0 <= i < ts.len() implies model::sorted(#[trigger] ts[i]) by {
        if i > 0 {
            assert(ts[i] == us[i - 1]);
            assert(ss[n + (i - 1)] == us[i - 1]);
            assert(model::sorted(ss[n + (i - 1)]));
        }
    }
    assert forall|k: Seq<u8>, q: u64| #[trigger] coherence::newest_first_at(ts, k, q) by {
        assert(coherence::newest_first_at(ss, k, q));
        assert forall|i: int, j: int|
            0 <= i < j < ts.len() && model::find(#[trigger] ts[i], k, q) is Some && model::find(
                #[trigger] ts[j],
                k,
                q,
            ) is Some implies model::find(ts[i], k, q)->Some_0.0.seq >= model::find(
            ts[j],
            k,
            q,
        )->Some_0.0.seq by {
            assert(ts[j] == us[j - 1]);
            assert(ss[n + (j - 1)] == us[j - 1]);
            if i > 0 {
                assert(ts[i] == us[i - 1]);
                assert(ss[n + (i - 1)] == us[i - 1]);
            } else {
                let y = model::find(ts[j], k, q)->Some_0;
                coherence::lemma_find_held(ss, n + (j - 1), k, q);
                let a = model::lemma_find_some(m, k, q);
                assert(m.contains(m[a]));
                assert(log.contains(m[a]));
                let b = choose|b: int| 0 <= b < log.len() && log[b] == m[a];
                assert(start < log[b].0.seq);
                if y.0.seq > start {
                    assert(log.contains(y));
                    assert(m.contains(y));
                    let c = choose|c: int| 0 <= c < m.len() && m[c] == y;
                    model::law_find_is_newest(m, k, q, c);
                }
            }
        }
    }
    assert forall|x: Record, y: Record| #[trigger]
        iter::held(ts, x) && #[trigger] iter::held(ts, y) implies coherence::compatible(x, y) by {
        lemma_recovered_held(v, w, disk, log, x);
        lemma_recovered_held(v, w, disk, log, y);
        if x.0.user_key == y.0.user_key && x.0.seq == y.0.seq {
            if log.contains(x) && !log.contains(y) {
                let b = choose|b: int| 0 <= b < log.len() && log[b] == x;
                assert(start < log[b].0.seq);
                assert(log.contains(y));
            }
            if log.contains(y) && !log.contains(x) {
                let b = choose|b: int| 0 <= b < log.len() && log[b] == y;
                assert(start < log[b].0.seq);
                assert(log.contains(x));
            }
            if log.contains(x) {
                lemma_one_per_seq(log, x, y);
            } else {
                assert(iter::held(ss, x) && iter::held(ss, y));
                assert(coherence::compatible(x, y));
            }
        }
    }
    assert forall|x: Record| #[trigger] iter::held(ts, x) implies x.0.seq <= w.next_seq by {
        lemma_recovered_held(v, w, disk, log, x);
        if log.contains(x) {
            let b = choose|b: int| 0 <= b < log.len() && log[b] == x;
            assert(log[b].0.seq <= w.next_seq);
        }
    }
}

/// After a crash a reader is told what it would have been told before: nothing that the log covers
/// is lost, and nothing that was deleted comes back.
pub proof fn law_recovery_keeps_reads(
    v: DbView,
    w: DbView,
    disk: Disk,
    log: Seq<Record>,
    start: u64,
    user_key: Seq<u8>,
)
    requires
        soundness::sound(v, disk),
        log_covers(v, disk, log, start),
        recovered_db(v, w, log),
    ensures
        model::answer(model::read(db::sources(w, disk), user_key, u64::MAX)) == model::answer(
            model::read(db::sources(v, disk), user_key, u64::MAX),
        ),
{
    let m = db::memtable_of(log);
    let us = tree::table_sources(v.levels, disk);
    lemma_recovered_sources(v, w, disk, log);
    lemma_memtable_of(log);
    tree::lemma_read_concat(seq![m], us, user_key, u64::MAX);
    tree::lemma_read_one(m, user_key, u64::MAX);
    tree::lemma_read_concat(db::memory(v), us, user_key, u64::MAX);
    if model::find(m, user_key, u64::MAX) is None {
        let i = coherence::lemma_read_source(db::memory(v), user_key, u64::MAX);
        if model::read(db::memory(v), user_key, u64::MAX) is Some {
            coherence::lemma_find_held(db::memory(v), i, user_key, u64::MAX);
            let x = model::find(db::memory(v)[i], user_key, u64::MAX)->Some_0;
            lemma_memory_held(v, disk, x);
            assert(log.contains(x));
            assert(m.contains(x));
            let c = choose|c: int| 0 <= c < m.len() && m[c] == x;
            model::lemma_find_none(m, user_key, u64::MAX);
            assert(model::visible(m[c], user_key, u64::MAX));
        }
    }
}

/// Setting the memtable aside leaves the log sufficient.
pub proof fn law_freeze_keeps_log(v: DbView, disk: Disk, log: Seq<Record>, start: u64)
    requires
        soundness::sound(v, disk),
        log_covers(v, disk, log, start),
    ensures
        log_covers(db::frozen(v), disk, log, start),
{
    let w = db::frozen(v);
    let ss = db::sources(v, disk);
    let ts = db::sources(w, disk);
    soundness::law_freeze_keeps_reads(v, disk);
    assert(v.imms.push(v.mem).reverse() =~= seq![v.mem] + v.imms.reverse());
    assert(db::memory(w) =~= seq![Seq::<Record>::empty()] + db::memory(v));
    assert forall|x: Record| #[trigger] iter::held(db::memory(w), x) implies iter::held(
        db::memory(v),
        x,
    ) by {
        let i = choose|i: int| 0 <= i < db::memory(w).len() && (#[trigger] db::memory(w)[i]).contains(
            x,
        );
        assert(i > 0);
        assert(db::memory(v)[i - 1] == db::memory(w)[i]);
    }
    assert(ts =~= seq![Seq::<Record>::empty()] + ss);
    assert forall|x: Record| #[trigger] iter::held(ts, x) implies iter::held(ss, x) by {
        let i = choose|i: int| 0 <= i < ts.len() && (#[trigger] ts[i]).contains(x);
        assert(i > 0);
        assert(ss[i - 1] == ts[i]);
    }
    law_log_keeps_covering(v, w, disk, log, start);
}

/// Replacing the oldest waiting memtable by a table that holds the same leaves the log sufficient.
pub proof fn law_flush_keeps_log(
    v: DbView,
    disk: Disk,
    t: TableView,
    log: Seq<Record>,
    start: u64,
)
    requires
        log_covers(v, disk, log, start),
        v.imms.len() > 0,
        v.levels.len() > 0,
        contents::contents(t, disk) == v.imms[0],
    ensures
        log_covers(db::flushed(v, t), disk, log, start),
{
    let w = db::flushed(v, t);
    soundness::lemma_flushed_sources(v, disk, t);
    assert(v.imms.reverse() =~= v.imms.skip(1).reverse() + seq![v.imms[0]]);
    assert forall|x: Record| #[trigger] iter::held(db::memory(w), x) implies iter::held(
        db::memory(v),
        x,
    ) by {
        let i = choose|i: int| 0 <= i < db::memory(w).len() && (#[trigger] db::memory(w)[i]).contains(
            x,
        );
        assert(db::memory(v)[i] == db::memory(w)[i]);
    }
    law_log_keeps_covering(v, w, disk, log, start);
}

/// A compaction leaves the log sufficient.
pub proof fn law_compaction_keeps_log(
    v: DbView,
    job: JobView,
    disk: Disk,
    opened: Seq<Option<TableView>>,
    log: Seq<Record>,
    start: u64,
)
    requires
        installs::carried_out(v, job, disk),
        installs::reopened(v, job, disk, opened),
        log_covers(v, disk, log, start),
    ensures
        log_covers(installs::compacted_db(v, job, disk, opened), disk, log, start),
{
    let w = installs::compacted_db(v, job, disk, opened);
    let after = installs::levels_after(v, job, disk, opened);
    installs::lemma_compaction(v, job, disk, opened);
    assert(db::sources(w, disk) == db::sources(compaction::with_levels(v, after), disk));
    assert forall|x: Record| #[trigger] iter::held(db::sources(w, disk), x) implies iter::held(
        db::sources(v, disk),
        x,
    ) by {
        compaction::lemma_nothing_new(v, job, disk, after, x);
    }
    assert forall|k: Seq<u8>|
        model::answer(#[trigger] model::read(db::sources(w, disk), k, u64::MAX)) == model::answer(
            model::read(db::sources(v, disk), k, u64::MAX),
        ) by {
        installs::law_compaction_changes_no_read(v, job, disk, opened, k, u64::MAX);
    }
    assert(db::memory(w) == db::memory(v));
    law_log_keeps_covering(v, w, disk, log, start);
}

/// The manifest says which tables there are: the files it knows are theirs, and no two have the
/// same number.
pub open spec fn knows_tables(v: DbView, state: StateView) -> bool {
    &&& files::distinct(state.files)
    &&& forall|f: FileView| #[trigger]
        state.files.contains(f) <==> db::level_files(v.levels).contains(f)
    &&& v.levels.len() <= u32::MAX
}

/// Every sequence number that a table holds is known: it is none above the last one that the
/// manifest names, or it is one of those after `start`, which the log holds.
pub open spec fn seqs_known(v: DbView, disk: Disk, last_seq: u64, start: u64) -> bool {
    forall|x: Record| #[trigger]
        iter::held(tree::table_sources(v.levels, disk), x) ==> x.0.seq <= last_seq || x.0.seq
            > start
}

/// Each file that the manifest knows has been opened, and is the table it was.
pub open spec fn reopens(v: DbView, state: StateView, opened: Seq<Option<TableView>>) -> bool {
    &&& opened.len() == state.files.len()
    &&& forall|i: int|
        0 <= i < opened.len() ==> {
            &&& (#[trigger] opened[i]) is Some
            &&& opened[i]->Some_0.file_num == state.files[i].file_num
            &&& version::flat(v.levels).contains(opened[i]->Some_0)
        }
}

/// A file that the manifest knows is that of a table of its level.
proof fn lemma_reopened_at(
    v: DbView,
    disk: Disk,
    state: StateView,
    opened: Seq<Option<TableView>>,
    i: int,
)
    requires
        soundness::sound(v, disk),
        knows_tables(v, state),
        reopens(v, state, opened),
        0 <= i < opened.len(),
    ensures
        0 <= state.files[i].level < v.levels.len(),
        v.levels[state.files[i].level as int].contains(opened[i]->Some_0),
{
    let f = state.files[i];
    let t = opened[i]->Some_0;
    assert(state.files.contains(f));
    files::lemma_level_files(v.levels, f);
    let (l, p) = choose|l: int, p: int| #[trigger] files::is_file_of(v.levels, f, l, p);
    assert(v.levels[l].contains(v.levels[l][p]));
    scans::lemma_flat(v.levels, t);
    let m = choose|m: int| 0 <= m < v.levels.len() && (#[trigger] v.levels[m]).contains(t);
    installs::lemma_same_place(v, m, t, l, v.levels[l][p]);
}

/// The files that the manifest knows give the levels as they were.
pub proof fn law_manifest_gives_levels(
    v: DbView,
    disk: Disk,
    state: StateView,
    opened: Seq<Option<TableView>>,
)
    requires
        soundness::sound(v, disk),
        knows_tables(v, state),
        reopens(v, state, opened),
    ensures
        version::levels_of(state.files, opened, v.opts.max_levels as nat) == v.levels,
{
    let fs = state.files;
    let after = version::levels_of(fs, opened, v.opts.max_levels as nat);
    assert forall|l: int, t: TableView|
        0 <= l < after.len() implies (#[trigger] after[l].contains(t) <==> v.levels[l].contains(
        t,
    )) by {
        version::lemma_level_tables(l, fs, opened, t);
        if after[l].contains(t) {
            let i = choose|i: int|
                0 <= i < fs.len() && #[trigger] version::is_table_of(l, fs, opened, i, t);
            lemma_reopened_at(v, disk, state, opened, i);
        }
        if v.levels[l].contains(t) {
            let p = choose|p: int| 0 <= p < v.levels[l].len() && v.levels[l][p] == t;
            let f = db::file_of(t, l);
            assert(files::is_file_of(v.levels, f, l, p));
            files::lemma_level_files(v.levels, f);
            assert(fs.contains(f));
            let i = choose|i: int| 0 <= i < fs.len() && fs[i] == f;
            lemma_reopened_at(v, disk, state, opened, i);
            installs::lemma_same_place(v, l, opened[i]->Some_0, l, t);
            assert(version::is_table_of(l, fs, opened, i, t));
        }
    }
    assert forall|l: int| 0 <= l < after.len() implies #[trigger] after[l] == v.levels[l] by {
        assert forall|t: TableView| #[trigger]
            version::level_tables(l, fs, opened).contains(t) <==> v.levels[l].contains(t) by {
            assert(after[l].contains(t) <==> v.levels[l].contains(t));
        }
        lemma_same_level(v, disk, state, opened, l);
    }
    assert(after =~= v.levels);
}

proof fn lemma_same_level(
    v: DbView,
    disk: Disk,
    state: StateView,
    opened: Seq<Option<TableView>>,
    l: int,
)
    requires
        soundness::sound(v, disk),
        knows_tables(v, state),
        reopens(v, state, opened),
        0 <= l < v.levels.len(),
        forall|t: TableView| #[trigger]
            version::level_tables(l, state.files, opened).contains(t) <==> v.levels[l].contains(t),
    ensures
        version::level_tables(l, state.files, opened) == v.levels[l],
{
    let fs = state.files;
    let s = version::level_tables(l, fs, opened);
    if l == 0 {
        assert forall|i: int, j: int, a: TableView, b: TableView|
            0 <= i < j < fs.len() && #[trigger] version::is_table_of(0, fs, opened, i, a)
                && #[trigger] version::is_table_of(0, fs, opened, j, b) implies a.file_num
            != b.file_num by {
            assert(fs[i].file_num != fs[j].file_num);
            assert(opened[i]->Some_0.file_num == fs[i].file_num);
            assert(opened[j]->Some_0.file_num == fs[j].file_num);
        }
        placing::lemma_level0_rises(fs, opened);
        placing::lemma_rising_unique(s, v.levels[0]);
    } else {
        assert forall|t: TableView| #[trigger] v.levels[l].contains(t) implies placing::ranged(t) by {
            compaction::lemma_member_ok(v.levels, disk, l, t);
            placing::lemma_table_range(t, disk, contents::contents(t, disk)[0]);
        }
        assert forall|i: int, t: TableView|
            0 <= i < fs.len() && #[trigger] version::is_table_of(l, fs, opened, i, t) implies placing::ranged(
        t) by {
            version::lemma_level_tables(l, fs, opened, t);
            assert(s.contains(t));
            assert(v.levels[l].contains(t));
        }
        assert forall|i: int, j: int, a: TableView, b: TableView|
            0 <= i < j < fs.len() && #[trigger] version::is_table_of(l, fs, opened, i, a)
                && #[trigger] version::is_table_of(l, fs, opened, j, b) implies placing::apart(
            a,
            b,
        ) by {
            version::lemma_level_tables(l, fs, opened, a);
            version::lemma_level_tables(l, fs, opened, b);
            assert(s.contains(a) && s.contains(b));
            assert(fs[i].file_num != fs[j].file_num);
            assert(opened[i]->Some_0.file_num == fs[i].file_num);
            assert(opened[j]->Some_0.file_num == fs[j].file_num);
            installs::lemma_members_apart(v.levels[l], a, b);
        }
        placing::lemma_level_disjoint(l, fs, opened);
        assert forall|i: int| 0 <= i < s.len() implies placing::ranged(#[trigger] s[i]) by {
            assert(s.contains(s[i]));
            assert(v.levels[l].contains(s[i]));
        }
        placing::lemma_disjoint_unique(s, v.levels[l]);
    }
}

proof fn lemma_largest_seq(start: u64, log: Seq<Record>)
    ensures
        db::largest_seq(start, log) >= start,
        forall|i: int|
            0 <= i < log.len() ==> (#[trigger] log[i]).0.seq <= db::largest_seq(start, log),
    decreases log.len(),
{
    if log.len() > 0 {
        let p = log.drop_last();
        lemma_largest_seq(start, p);
        assert forall|i: int| 0 <= i < log.len() implies (#[trigger] log[i]).0.seq
            <= db::largest_seq(start, log) by {
            if i < p.len() {
                assert(p[i] == log[i]);
            }
        }
    }
}

/// A reader of a database that is opened from its manifest, its tables and its log is told what it
/// would have been told before the crash.
pub proof fn law_reopened_db_reads_the_same(
    v: DbView,
    disk: Disk,
    state: StateView,
    opened: Seq<Option<TableView>>,
    log: Seq<Record>,
    start: u64,
    user_key: Seq<u8>,
)
    requires
        soundness::sound(v, disk),
        log_covers(v, disk, log, start),
        knows_tables(v, state),
        reopens(v, state, opened),
    ensures
        model::answer(
            model::read(
                db::sources(db::opened_db(v.opts, state, opened, log), disk),
                user_key,
                u64::MAX,
            ),
        ) == model::answer(model::read(db::sources(v, disk), user_key, u64::MAX)),
{
    let w = db::opened_db(v.opts, state, opened, log);
    law_manifest_gives_levels(v, disk, state, opened);
    law_recovery_keeps_reads(v, w, disk, log, start, user_key);
}

/// The number that a database that is opened starts with is above those of its files.
proof fn lemma_free_number(n: u64, fs: Seq<FileView>)
    ensures
        db::free_number(n, fs) >= n,
        forall|i: int|
            0 <= i < fs.len() && (#[trigger] fs[i]).file_num < u64::MAX ==> fs[i].file_num
                < db::free_number(n, fs),
    decreases fs.len(),
{
    if fs.len() > 0 {
        let p = fs.drop_last();
        lemma_free_number(n, p);
        assert forall|i: int|
            0 <= i < fs.len() && (#[trigger] fs[i]).file_num < u64::MAX implies fs[i].file_num
            < db::free_number(n, fs) by {
            if i < p.len() {
                assert(p[i] == fs[i]);
            }
        }
    }
}

/// A database that is opened from its manifest, its tables and its log is sound: in particular no
/// number of a file that the manifest names is given out again.
pub proof fn law_reopened_db_is_sound(
    v: DbView,
    disk: Disk,
    state: StateView,
    opened: Seq<Option<TableView>>,
    log: Seq<Record>,
    start: u64,
)
    requires
        soundness::sound(v, disk),
        log_covers(v, disk, log, start),
        knows_tables(v, state),
        reopens(v, state, opened),
        seqs_known(v, disk, state.last_seq, start),
    ensures
        soundness::sound(db::opened_db(v.opts, state, opened, log), disk),
{
    let w = db::opened_db(v.opts, state, opened, log);
    let us = tree::table_sources(v.levels, disk);
    law_manifest_gives_levels(v, disk, state, opened);
    lemma_largest_seq(state.last_seq, log);
    let n: u64 = if state.next_file_num == 0 {
        1
    } else {
        state.next_file_num
    };
    lemma_free_number(n, state.files);
    assert forall|l: int, i: int| 0 <= l < v.levels.len() && 0 <= i < v.levels[l].len() implies (
    #[trigger] v.levels[l][i]).file_num < w.next_file_num by {
        let f = db::file_of(v.levels[l][i], l);
        assert(files::is_file_of(v.levels, f, l, i));
        files::lemma_level_files(v.levels, f);
        assert(state.files.contains(f));
        let x = choose|x: int| 0 <= x < state.files.len() && state.files[x] == f;
        assert(state.files[x].file_num < u64::MAX);
    }
    assert forall|x: Record| #[trigger] iter::held(us, x) implies x.0.seq <= w.next_seq by {
        if x.0.seq > start {
            let j = choose|j: int| 0 <= j < us.len() && (#[trigger] us[j]).contains(x);
            assert(db::sources(v, disk)[db::memory(v).len() + j] == us[j]);
            assert(iter::held(db::sources(v, disk), x));
            let b = choose|b: int| 0 <= b < log.len() && log[b] == x;
            assert(log[b].0.seq <= w.next_seq);
        }
    }
    law_recovery_is_sound(v, w, disk, log, start);
}

/// What is known of a database is known of it after it has been opened again, so that a further
/// crash finds it as the first one did: its log covers it, and its manifest knows its tables.
pub proof fn law_reopened_db_is_covered(
    v: DbView,
    disk: Disk,
    state: StateView,
    opened: Seq<Option<TableView>>,
    log: Seq<Record>,
    start: u64,
)
    requires
        soundness::sound(v, disk),
        log_covers(v, disk, log, start),
        knows_tables(v, state),
        reopens(v, state, opened),
        seqs_known(v, disk, state.last_seq, start),
    ensures
        ({
            let w = db::opened_db(v.opts, state, opened, log);
            &&& log_covers(w, disk, log, start)
            &&& knows_tables(w, state)
            &&& reopens(w, state, opened)
            &&& seqs_known(w, disk, state.last_seq, start)
        }),
{
    let w = db::opened_db(v.opts, state, opened, log);
    law_manifest_gives_levels(v, disk, state, opened);
    lemma_largest_seq(state.last_seq, log);
    lemma_memtable_of(log);
    assert forall|x: Record| #[trigger]
        iter::held(db::sources(w, disk), x) && x.0.seq > start implies log.contains(x) by {
        lemma_recovered_held(v, w, disk, log, x);
    }
    assert forall|x: Record| #[trigger] iter::held(db::memory(w), x) implies x.0.seq > start by {
        let i = choose|i: int|
            0 <= i < db::memory(w).len() && (#[trigger] db::memory(w)[i]).contains(x);
        assert(i == 0);
        assert(log.contains(x));
        let b = choose|b: int| 0 <= b < log.len() && log[b] == x;
        assert(start < log[b].0.seq);
    }
    assert forall|k: Seq<u8>|
        (#[trigger] model::find(db::memtable_of(log), k, u64::MAX)) is Some implies model::answer(
        model::read(db::sources(w, disk), k, u64::MAX),
    ) == model::answer(model::find(db::memtable_of(log), k, u64::MAX)) by {
        law_recovery_keeps_reads(v, w, disk, log, start, k);
    }
}

/// What the first `cut` edits of a flush do: the table is known with the first of them.
pub proof fn lemma_flush_edits(v: DbView, t: TableView, state: StateView, cut: int)
    requires
        0 <= cut <= 3,
    ensures
        ({
            let es = db::flush_edits(db::file_of(t, 0), v);
            let after = manifest::apply_all(state, manifest::whole_runs(es.take(cut)));
            &&& manifest::whole_runs(es) == es
            &&& if cut == 0 {
                after == state
            } else {
                &&& after.files == state.files.push(db::file_of(t, 0))
                &&& after.last_seq == if cut < 3 {
                    state.last_seq
                } else {
                    v.next_seq
                }
            }
        }),
{
    let m = db::file_of(t, 0);
    let es = db::flush_edits(m, v);
    let none = Seq::<EditView>::empty();
    let a = es.take(1);
    assert(a =~= none.push(es[0]));
    manifest::lemma_one_run(none, es[0]);
    manifest::lemma_one_run(none, es[1]);
    manifest::lemma_one_run(none, es[2]);
    manifest::lemma_whole_runs_concat(a, none.push(es[1]));
    assert(es.take(2) =~= a + none.push(es[1]));
    manifest::lemma_whole_runs_concat(es.take(2), none.push(es[2]));
    assert(es.take(3) =~= es.take(2) + none.push(es[2]));
    assert(es.take(3) =~= es);
    assert(es.take(0) =~= none);
    assert(es.take(3).drop_last() =~= es.take(2));
    assert(es.take(2).drop_last() =~= a);
    assert(a.drop_last() =~= Seq::<EditView>::empty());
    reveal_with_fuel(manifest::apply_all, 4);
}

/// With the file of a flushed table added, the manifest knows the tables after the flush.
pub proof fn lemma_flushed_known(v: DbView, t: TableView, state: StateView, after: StateView)
    requires
        knows_tables(v, state),
        v.levels.len() > 0,
        soundness::numbered(v.levels, t.file_num),
        after.files == state.files.push(db::file_of(t, 0)),
    ensures
        knows_tables(db::flushed(v, t), after),
{
    let w = db::flushed(v, t);
    let all = after.files;
    let k = v.levels[0].len() as int;
    assert forall|l: int, i: int|
        0 <= l < w.levels.len() && 0 <= i < w.levels[l].len() implies (
    #[trigger] w.levels[l][i]).file_num <= t.file_num && ((l == 0 && i == k && w.levels[l][i] == t)
        || (0 <= i < v.levels[l].len() && w.levels[l][i] == v.levels[l][i]
        && v.levels[l][i].file_num < t.file_num)) by {
        if l > 0 || i < k {
            assert(w.levels[l][i] == v.levels[l][i]);
        }
    }
    assert forall|f: FileView| #[trigger] all.contains(f) <==> db::level_files(w.levels).contains(
        f,
    ) by {
        files::lemma_level_files(v.levels, f);
        files::lemma_level_files(w.levels, f);
        if all.contains(f) {
            let x = choose|x: int| 0 <= x < all.len() && all[x] == f;
            if x < state.files.len() {
                assert(state.files[x] == f);
                assert(state.files.contains(f));
                let (l, i) = choose|l: int, i: int| #[trigger] files::is_file_of(v.levels, f, l, i);
                assert(w.levels[l][i] == v.levels[l][i]);
                assert(files::is_file_of(w.levels, f, l, i));
            } else {
                assert(w.levels[0][k] == t);
                assert(files::is_file_of(w.levels, f, 0, k));
            }
        }
        if db::level_files(w.levels).contains(f) {
            let (l, i) = choose|l: int, i: int| #[trigger] files::is_file_of(w.levels, f, l, i);
            let u = w.levels[l][i];
            if l == 0 && i == k {
                assert(all[state.files.len() as int] == f);
            } else {
                assert(u == v.levels[l][i]);
                assert(files::is_file_of(v.levels, f, l, i));
                assert(state.files.contains(f));
                let x = choose|x: int| 0 <= x < state.files.len() && state.files[x] == f;
                assert(all[x] == f);
            }
        }
    }
    assert forall|x: int, y: int| 0 <= x < y < all.len() implies (#[trigger] all[x]).file_num != (
    #[trigger] all[y]).file_num by {
        assert(all[x] == state.files[x]);
        if y < state.files.len() {
            assert(all[y] == state.files[y]);
        } else {
            let f = state.files[x];
            assert(state.files.contains(f));
            files::lemma_level_files(v.levels, f);
            let (l, i) = choose|l: int, i: int| #[trigger] files::is_file_of(v.levels, f, l, i);
            assert(v.levels[l][i].file_num < t.file_num);
        }
    }
}

/// Once the edits of a flush are in the manifest, it knows the table, and the sequence numbers that
/// the tables hold are known; with the last edit, it names one that none of them is above.
pub proof fn law_flush_is_recorded(
    v: DbView,
    disk: Disk,
    t: TableView,
    state: StateView,
    log: Seq<Record>,
    start: u64,
    cut: int,
)
    requires
        soundness::sound(v, disk),
        log_covers(v, disk, log, start),
        knows_tables(v, state),
        seqs_known(v, disk, state.last_seq, start),
        v.imms.len() > 0,
        v.levels.len() > 0,
        contents::contents(t, disk) == v.imms[0],
        soundness::numbered(v.levels, t.file_num),
        1 <= cut <= 3,
    ensures
        ({
            let es = db::flush_edits(db::file_of(t, 0), v);
            let after = manifest::apply_all(state, manifest::whole_runs(es.take(cut)));
            &&& knows_tables(db::flushed(v, t), after)
            &&& seqs_known(db::flushed(v, t), disk, after.last_seq, start)
            &&& cut == 3 ==> tables_up_to(db::flushed(v, t), disk, after.last_seq)
        }),
{
    let w = db::flushed(v, t);
    let es = db::flush_edits(db::file_of(t, 0), v);
    let after = manifest::apply_all(state, manifest::whole_runs(es.take(cut)));
    lemma_flush_edits(v, t, state, cut);
    lemma_flushed_known(v, t, state, after);
    soundness::lemma_flushed_sources(v, disk, t);
    let us = tree::table_sources(v.levels, disk);
    let ts = tree::table_sources(w.levels, disk);
    let ss = db::sources(w, disk);
    let n = db::memory(w).len() as int;
    assert(v.imms.reverse() =~= v.imms.skip(1).reverse() + seq![v.imms[0]]);
    assert(db::memory(v) =~= db::memory(w) + seq![v.imms[0]]);
    assert forall|x: Record| #[trigger] iter::held(ts, x) implies x.0.seq <= after.last_seq
        || x.0.seq > start by {
        let j = choose|j: int| 0 <= j < ts.len() && (#[trigger] ts[j]).contains(x);
        assert(ss[n + j] == ts[j]);
        assert(db::sources(v, disk)[n + j] == ts[j]);
        assert(iter::held(db::sources(v, disk), x));
        if j == 0 {
            assert(db::memory(v)[n] == ts[j]);
            assert(iter::held(db::memory(v), x));
        } else {
            assert(us[j - 1] == ts[j]);
            assert(iter::held(us, x));
        }
    }
    assert forall|x: Record| #[trigger] iter::held(ts, x) && cut == 3 implies x.0.seq
        <= after.last_seq by {
        let j = choose|j: int| 0 <= j < ts.len() && (#[trigger] ts[j]).contains(x);
        assert(db::sources(v, disk)[n + j] == ts[j]);
        assert(iter::held(db::sources(v, disk), x));
    }
}

/// Once the edits of a compaction are in the manifest, it knows the tables that there now are.
#[verifier::rlimit(60)]
pub proof fn law_compaction_is_recorded(
    v: DbView,
    job: JobView,
    disk: Disk,
    opened: Seq<Option<TableView>>,
    state: StateView,
    start: u64,
)
    requires
        installs::carried_out(v, job, disk),
        installs::reopened(v, job, disk, opened),
        knows_tables(v, state),
        seqs_known(v, disk, state.last_seq, start),
    ensures
        ({
            let w = installs::compacted_db(v, job, disk, opened);
            let after = manifest::apply_all(state, installs::compaction_edits(v, job, disk));
            &&& knows_tables(w, after)
            &&& seqs_known(w, disk, after.last_seq, start)
            &&& tables_up_to(v, disk, state.last_seq) ==> tables_up_to(w, disk, after.last_seq)
        }),
{
    let w = installs::compacted_db(v, job, disk, opened);
    let es = installs::compaction_edits(v, job, disk);
    let after = manifest::apply_all(state, es);
    let ms = installs::output_metas(v, job, disk);
    let adds = compact::additions(ms);
    let dels = compact::deletions(job);
    let n = installs::next_number(v, job, disk);
    let tail = dels.push(EditView::SetNextFileNum(n));
    jobs::law_job_is_ok(v.levels, v.opts, job);
    installs::lemma_compaction(v, job, disk, opened);
    assert(es =~= adds + tail);
    manifest::lemma_apply_concat(state, adds, tail);
    files::lemma_apply_additions(state, ms);
    let s1 = manifest::apply_all(state, adds);
    let both = state.files + ms;
    assert forall|i: int| 0 <= i < tail.len() implies !((#[trigger] tail[i]) is AddFile) by {
        if i < dels.len() {
            assert(tail[i] == dels[i]);
        }
    }
    assert(files::distinct(both)) by {
        assert forall|x: int, y: int| 0 <= x < y < both.len() implies (
        #[trigger] both[x]).file_num != (#[trigger] both[y]).file_num by {
            let k = state.files.len() as int;
            if y < k {
                assert(both[x] == state.files[x] && both[y] == state.files[y]);
            } else {
                assert(both[y] == ms[y - k]);
                if x < k {
                    let f = state.files[x];
                    assert(both[x] == f);
                    assert(state.files.contains(f));
                    files::lemma_level_files(v.levels, f);
                    let (l, i) = choose|l: int, i: int| #[trigger]
                        files::is_file_of(v.levels, f, l, i);
                    assert(v.levels[l][i].file_num < v.next_file_num);
                } else {
                    assert(both[x] == ms[x - k]);
                }
            }
        }
    }
    files::lemma_apply_deletions(s1, tail, db::file_of(job.upper[0], 0));
    assert(files::distinct(after.files));
    assert forall|f: FileView| #[trigger]
        after.files.contains(f) <==> db::level_files(w.levels).contains(f) by {
        files::lemma_apply_deletions(s1, tail, f);
        installs::lemma_spared_push(f, dels, n);
        installs::lemma_files_spared(v, job, disk, f);
        lemma_same_members(state.files, db::level_files(v.levels), ms, f);
        lemma_files_are_those_of_levels(v, job, disk, opened, f);
    }
    assert(after.last_seq == state.last_seq) by {
        assert(tail.drop_last() =~= dels);
        lemma_deletions_keep_seq(s1, job);
    }
    assert forall|x: Record| #[trigger]
        iter::held(tree::table_sources(w.levels, disk), x) implies x.0.seq <= after.last_seq
        || x.0.seq > start by {
        lemma_tables_after(v, job, disk, opened, x);
    }
    assert forall|x: Record| #[trigger]
        iter::held(tree::table_sources(w.levels, disk), x) && tables_up_to(
            v,
            disk,
            state.last_seq,
        ) implies x.0.seq <= after.last_seq by {
        lemma_tables_after(v, job, disk, opened, x);
    }
}

/// Deletions do not change the last sequence number.
proof fn lemma_deletions_keep_seq(s: StateView, job: JobView)
    ensures
        manifest::apply_all(s, compact::deletions(job)).last_seq == s.last_seq,
{
    let ds = compact::deletions(job);
    assert forall|i: int| 0 <= i < ds.len() implies (#[trigger] ds[i]) is DeleteFile by {}
    lemma_deletes_keep_seq(s, ds);
}

proof fn lemma_deletes_keep_seq(s: StateView, ds: Seq<EditView>)
    requires
        forall|i: int| 0 <= i < ds.len() ==> (#[trigger] ds[i]) is DeleteFile,
    ensures
        manifest::apply_all(s, ds).last_seq == s.last_seq,
    decreases ds.len(),
{
    if ds.len() > 0 {
        let p = ds.drop_last();
        assert(ds[ds.len() - 1] is DeleteFile);
        assert forall|i: int| 0 <= i < p.len() implies (#[trigger] p[i]) is DeleteFile by {
            assert(p[i] == ds[i]);
        }
        lemma_deletes_keep_seq(s, p);
    }
}

/// Lists with the same members have the same members behind the same tail.
proof fn lemma_same_members(
    a: Seq<FileView>,
    b: Seq<FileView>,
    more: Seq<FileView>,
    f: FileView,
)
    requires
        a.contains(f) <==> b.contains(f),
    ensures
        (a + more).contains(f) <==> (b + more).contains(f),
{
    lemma_concat_contains(a, more, f);
    lemma_concat_contains(b, more, f);
}

proof fn lemma_concat_contains(a: Seq<FileView>, b: Seq<FileView>, f: FileView)
    ensures
        (a + b).contains(f) <==> (a.contains(f) || b.contains(f)),
{
    let all = a + b;
    if all.contains(f) {
        let i = choose|i: int| 0 <= i < all.len() && all[i] == f;
        if i < a.len() {
            assert(a[i] == f);
        } else {
            assert(b[i - a.len()] == f);
        }
    }
    if a.contains(f) {
        let i = choose|i: int| 0 <= i < a.len() && a[i] == f;
        assert(all[i] == f);
    }
    if b.contains(f) {
        let i = choose|i: int| 0 <= i < b.len() && b[i] == f;
        assert(all[a.len() + i] == f);
    }
}

/// The files after a compaction are those of the levels after it.
#[verifier::rlimit(60)]
proof fn lemma_files_are_those_of_levels(
    v: DbView,
    job: JobView,
    disk: Disk,
    opened: Seq<Option<TableView>>,
    f: FileView,
)
    requires
        installs::carried_out(v, job, disk),
        installs::reopened(v, job, disk, opened),
    ensures
        db::level_files(installs::levels_after(v, job, disk, opened)).contains(f)
            <==> installs::files_now(v, job, disk).contains(f),
{
    jobs::law_job_is_ok(v.levels, v.opts, job);
    installs::lemma_compaction(v, job, disk, opened);
    installs::lemma_files_now(v, job, disk, f);
    let after = installs::levels_after(v, job, disk, opened);
    let ms = installs::output_metas(v, job, disk);
    let news = compaction::new_tables(v, job, disk);
    let l1 = job.level + 1;
    files::lemma_level_files(after, f);
    if db::level_files(after).contains(f) {
        let (l, i) = choose|l: int, i: int| #[trigger] files::is_file_of(after, f, l, i);
        let t = after[l][i];
        assert(after[l].contains(t));
        if v.levels[l].contains(t) && !compaction::is_input(job, l, t) {
            let p = choose|p: int| 0 <= p < v.levels[l].len() && v.levels[l][p] == t;
            assert(files::is_file_of(v.levels, f, l, p) && !compaction::is_input(
                job,
                l,
                v.levels[l][p],
            ));
        } else {
            let j = choose|j: int| 0 <= j < news.len() && news[j] == t;
            assert(ms[j] == f);
        }
    }
    if installs::files_now(v, job, disk).contains(f) {
        if ms.contains(f) {
            let j = choose|j: int| 0 <= j < ms.len() && ms[j] == f;
            assert(news.contains(news[j]));
            assert(after[l1].contains(news[j]));
            let i = choose|i: int| 0 <= i < after[l1].len() && after[l1][i] == news[j];
            assert(files::is_file_of(after, f, l1, i));
        } else {
            let (l, p) = choose|l: int, p: int| #[trigger]
                files::is_file_of(v.levels, f, l, p) && !compaction::is_input(
                    job,
                    l,
                    v.levels[l][p],
                );
            let t = v.levels[l][p];
            assert(v.levels[l].contains(t));
            assert(after[l].contains(t));
            let i = choose|i: int| 0 <= i < after[l].len() && after[l][i] == t;
            assert(files::is_file_of(after, f, l, i));
        }
    }
}

/// What a table holds after a compaction, a table held before.
#[verifier::rlimit(60)]
proof fn lemma_tables_after(
    v: DbView,
    job: JobView,
    disk: Disk,
    opened: Seq<Option<TableView>>,
    x: Record,
)
    requires
        installs::carried_out(v, job, disk),
        installs::reopened(v, job, disk, opened),
        iter::held(
            tree::table_sources(installs::levels_after(v, job, disk, opened), disk),
            x,
        ),
    ensures
        iter::held(tree::table_sources(v.levels, disk), x),
{
    // The same database without memory holds what the tables hold.
    let e = DbView { mem: Seq::empty(), imms: Seq::empty(), ..v };
    lemma_without_memory(v, disk);
    jobs::law_job_is_ok(v.levels, v.opts, job);
    installs::lemma_compaction(v, job, disk, opened);
    let after = installs::levels_after(v, job, disk, opened);
    let us = tree::table_sources(after, disk);
    let ts = db::sources(compaction::with_levels(e, after), disk);
    let j = choose|j: int| 0 <= j < us.len() && (#[trigger] us[j]).contains(x);
    assert(ts[1 + j] == us[j]);
    assert(iter::held(ts, x));
    assert(compaction::new_tables(e, job, disk) == compaction::new_tables(v, job, disk));
    assert(compaction::compaction(e, job, disk, after));
    compaction::lemma_nothing_new(e, job, disk, after, x);
    let ss = db::sources(e, disk);
    let i = choose|i: int| 0 <= i < ss.len() && (#[trigger] ss[i]).contains(x);
    assert(i > 0);
    assert(tree::table_sources(v.levels, disk)[i - 1] == ss[i]);
}

/// A sound database is sound without its memory.
proof fn lemma_without_memory(v: DbView, disk: Disk)
    requires
        soundness::sound(v, disk),
    ensures
        soundness::sound(DbView { mem: Seq::empty(), imms: Seq::empty(), ..v }, disk),
{
    let e = DbView { mem: Seq::empty(), imms: Seq::empty(), ..v };
    let ss = db::sources(v, disk);
    let ts = db::sources(e, disk);
    let us = tree::table_sources(v.levels, disk);
    let n = db::memory(v).len() as int;
    assert(e.imms.reverse() =~= Seq::<Seq<Record>>::empty());
    assert(ts =~= seq![Seq::<Record>::empty()] + us);
    assert forall|i: int| 1 <= i < ts.len() implies #[trigger] ts[i] == ss[n + i - 1] by {}
    assert forall|i: int| 0 <= i < ts.len() implies model::sorted(#[trigger] ts[i]) by {
        if i > 0 {
            assert(model::sorted(ss[n + i - 1]));
        }
    }
    assert forall|x: Record| #[trigger] iter::held(ts, x) implies iter::held(ss, x) by {
        let i = choose|i: int| 0 <= i < ts.len() && (#[trigger] ts[i]).contains(x);
        assert(i > 0);
        assert(ss[n + i - 1].contains(x));
    }
    assert forall|k: Seq<u8>, q: u64| #[trigger] coherence::newest_first_at(ts, k, q) by {
        assert(coherence::newest_first_at(ss, k, q));
        assert forall|i: int, j: int|
            0 <= i < j < ts.len() && model::find(#[trigger] ts[i], k, q) is Some && model::find(
                #[trigger] ts[j],
                k,
                q,
            ) is Some implies model::find(ts[i], k, q)->Some_0.0.seq >= model::find(
            ts[j],
            k,
            q,
        )->Some_0.0.seq by {
            assert(i > 0);
            assert(ts[i] == ss[n + i - 1] && ts[j] == ss[n + j - 1]);
        }
    }
    assert forall|x: Record, y: Record| #[trigger]
        iter::held(ts, x) && #[trigger] iter::held(ts, y) implies coherence::compatible(x, y) by {
        assert(iter::held(ss, x) && iter::held(ss, y));
    }
    assert forall|x: Record| #[trigger] iter::held(ts, x) implies x.0.seq <= e.next_seq by {
        assert(iter::held(ss, x));
    }
}

/// Leaving out the empty memtables in front leaves the log sufficient.
pub proof fn law_skip_empty_keeps_log(v: DbView, disk: Disk, log: Seq<Record>, start: u64)
    requires
        soundness::sound(v, disk),
        log_covers(v, disk, log, start),
    ensures
        log_covers(DbView { imms: db::skip_empty(v.imms), ..v }, disk, log, start),
    decreases v.imms.len(),
{
    if v.imms.len() > 0 && v.imms[0].len() == 0 {
        let w = DbView { imms: v.imms.skip(1), ..v };
        let ss = db::sources(v, disk);
        let ts = db::sources(w, disk);
        let us = tree::table_sources(v.levels, disk);
        soundness::lemma_skip_one(v, disk);
        assert(v.imms.reverse() =~= v.imms.skip(1).reverse() + seq![v.imms[0]]);
        assert(db::memory(v) =~= db::memory(w) + seq![v.imms[0]]);
        assert forall|x: Record| #[trigger] iter::held(db::memory(w), x) implies iter::held(
            db::memory(v),
            x,
        ) by {
            let i = choose|i: int|
                0 <= i < db::memory(w).len() && (#[trigger] db::memory(w)[i]).contains(x);
            assert(db::memory(v)[i] == db::memory(w)[i]);
        }
        assert forall|x: Record| #[trigger] iter::held(ts, x) implies iter::held(ss, x) by {
            let i = choose|i: int| 0 <= i < ts.len() && (#[trigger] ts[i]).contains(x);
            if i < db::memory(w).len() {
                assert(ss[i] == ts[i]);
            } else {
                assert(ss[i + 1] == ts[i]);
            }
        }
        law_log_keeps_covering(v, w, disk, log, start);
        law_skip_empty_keeps_log(w, disk, log, start);
    } else {
        assert(v == DbView { imms: db::skip_empty(v.imms), ..v });
    }
}

/// A new database is sound, its empty log covers it, and its first edits record it.
pub proof fn law_new_db_is_sound(opts: Options, disk: Disk)
    requires
        opts.max_levels <= u32::MAX,
    ensures
        ({
            let v = db::opened_db(opts, manifest::initial_state(), Seq::empty(), Seq::empty());
            &&& soundness::sound(v, disk)
            &&& log_covers(v, disk, Seq::empty(), v.next_seq)
            &&& knows_tables(v, manifest::apply_all(manifest::initial_state(), db::first_edits(v)))
            &&& manifest::whole_runs(db::first_edits(v)) == db::first_edits(v)
            &&& seqs_known(v, disk, v.next_seq, v.next_seq)
        }),
{
    let s0 = manifest::initial_state();
    let v = db::opened_db(opts, s0, Seq::empty(), Seq::empty());
    let e = Seq::<Record>::empty();
    let ss = db::sources(v, disk);
    assert forall|l: int| 0 <= l < v.levels.len() implies (#[trigger] v.levels[l]).len() == 0 by {}
    assert forall|i: int| 0 <= i < ss.len() implies #[trigger] ss[i] == e by {
        if v.levels.len() > 0 {
            compaction::lemma_layout(v, disk);
            if i > 0 {
                let l = i - v.imms.len() - v.levels[0].len();
                assert(tree::each_contents(v.levels[l], disk) =~= Seq::<Seq<Record>>::empty());
            }
        }
        assert(db::memory(v) =~= seq![e]);
    }
    assert forall|k: Seq<u8>, m: u64| #[trigger] coherence::newest_first_at(ss, k, m) by {
        assert forall|i: int| 0 <= i < ss.len() implies model::find(#[trigger] ss[i], k, m) is None by {}
    }
    assert forall|x: Record| !#[trigger] iter::held(ss, x) by {
        if iter::held(ss, x) {
            let i = choose|i: int| 0 <= i < ss.len() && (#[trigger] ss[i]).contains(x);
            assert(ss[i] == e);
        }
    }
    assert(coherence::coherent(ss));
    law_empty_log_covers(v, disk);
    let es = db::first_edits(v);
    assert(es.drop_last() =~= seq![EditView::SetNextFileNum(v.next_file_num)]);
    assert(es.drop_last().drop_last() =~= Seq::<EditView>::empty());
    assert(es.drop_last() =~= Seq::<EditView>::empty().push(es[0]));
    manifest::lemma_one_run(Seq::empty(), es[0]);
    manifest::lemma_one_run(Seq::empty(), es[1]);
    manifest::lemma_whole_runs_concat(es.drop_last(), Seq::<EditView>::empty().push(es[1]));
    assert(es =~= es.drop_last() + Seq::<EditView>::empty().push(es[1]));
    reveal_with_fuel(manifest::apply_all, 3);
    let s = manifest::apply_all(s0, es);
    assert(s.files == s0.files);
    assert forall|f: FileView| !#[trigger] db::level_files(v.levels).contains(f) by {
        files::lemma_level_files(v.levels, f);
    }
}

} // verus!

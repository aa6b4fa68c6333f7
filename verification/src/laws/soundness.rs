//! What every operation keeps.

use crate::db;
use crate::db::DbView;
use crate::iter;
use crate::key::{Record, ValueKind};
use crate::laws::coherence;
use crate::laws::writes;
use crate::model;
use crate::sstable::builder;
use crate::sstable::contents;
use crate::sstable::reader::{Disk, TableView};
use crate::tree;
use vstd::prelude::*;

verus! {

/// Every table has a number of its own, below `n`.
pub open spec fn numbered(levels: Seq<Seq<TableView>>, n: u64) -> bool {
    &&& forall|l: int, i: int|
        0 <= l < levels.len() && 0 <= i < levels[l].len() ==> (#[trigger] levels[l][i]).file_num < n
    &&& forall|l: int, i: int, m: int, j: int|
        0 <= l < levels.len() && 0 <= i < levels[l].len() && 0 <= m < levels.len() && 0 <= j
            < levels[m].len() && (#[trigger] levels[l][i]).file_num == (
        #[trigger] levels[m][j]).file_num ==> l == m && i == j
}

/// The file numbers of a run of tables rise.
pub open spec fn numbers_rise(s: Seq<TableView>) -> bool {
    forall|i: int, j: int|
        0 <= i < j < s.len() ==> (#[trigger] s[i]).file_num < (#[trigger] s[j]).file_num
}

/// What holds of a database at all times: a reader is told the newest version there is, no sequence
/// number and no file number has been used that is still to come, and the levels are in order.
pub open spec fn sound(v: DbView, disk: Disk) -> bool {
    &&& coherence::coherent(db::sources(v, disk))
    &&& writes::seqs_up_to(db::sources(v, disk), v.next_seq)
    &&& tree::levels_ok(v.levels, disk)
    &&& numbered(v.levels, v.next_file_num)
    &&& v.levels.len() > 0 ==> numbers_rise(v.levels[0])
    &&& v.levels.len() == v.opts.max_levels
}

/// A reader is told the same in both states, whatever the key and whatever the reader sees.
pub open spec fn same_reads(v: DbView, w: DbView, disk: Disk) -> bool {
    forall|user_key: Seq<u8>, max_seq: u64|
        #[trigger] model::read(db::sources(w, disk), user_key, max_seq) == model::read(
            db::sources(v, disk),
            user_key,
            max_seq,
        )
}

/// A write keeps the database sound.
pub proof fn law_write_keeps_sound(
    v: DbView,
    disk: Disk,
    user_key: Seq<u8>,
    value: Seq<u8>,
    kind: ValueKind,
)
    requires
        sound(v, disk),
        v.next_seq < u64::MAX,
    ensures
        sound(
            db::applied(
                DbView { next_seq: (v.next_seq + 1) as u64, ..v },
                db::next_record(v, user_key, value, kind),
            ),
            disk,
        ),
{
    let r = db::next_record(v, user_key, value, kind);
    let w = DbView { next_seq: (v.next_seq + 1) as u64, ..v };
    assert(db::sources(db::applied(v, r), disk) =~= db::sources(db::applied(w, r), disk));
    writes::law_write_keeps_coherence(v, disk, r);
}

/// A write that could not be logged uses up its sequence number and changes nothing else.
pub proof fn law_lost_write_keeps_sound(v: DbView, disk: Disk)
    requires
        sound(v, disk),
        v.next_seq < u64::MAX,
    ensures
        sound(DbView { next_seq: (v.next_seq + 1) as u64, ..v }, disk),
        same_reads(v, DbView { next_seq: (v.next_seq + 1) as u64, ..v }, disk),
{
    let w = DbView { next_seq: (v.next_seq + 1) as u64, ..v };
    assert(db::sources(w, disk) =~= db::sources(v, disk));
}

/// Setting the memtable aside changes nothing for readers and keeps the database sound.
pub proof fn law_freeze_keeps_reads(v: DbView, disk: Disk)
    requires
        sound(v, disk),
    ensures
        same_reads(v, db::frozen(v), disk),
        sound(db::frozen(v), disk),
{
    let w = db::frozen(v);
    let ss = db::sources(v, disk);
    let ts = db::sources(w, disk);
    let none = Seq::<Seq<Record>>::empty();
    let e = Seq::<Record>::empty();
    assert(v.imms.push(v.mem).reverse() =~= seq![v.mem] + v.imms.reverse());
    assert(ts =~= none + seq![e] + ss);
    assert(none + ss =~= ss);
    assert forall|k: Seq<u8>, m: u64| #[trigger] model::read(ts, k, m) == model::read(ss, k, m) by {
        coherence::law_empty_source(none, ss, k, m);
    }
    coherence::law_empty_source_coherent(none, ss);
    assert forall|x: Record| #[trigger] iter::held(ts, x) implies x.0.seq <= w.next_seq by {
        lemma_held_skips_empty(none, ss, x);
    }
}

/// A source that holds nothing adds nothing.
proof fn lemma_held_skips_empty(a: Seq<Seq<Record>>, b: Seq<Seq<Record>>, x: Record)
    ensures
        iter::held(a + seq![Seq::<Record>::empty()] + b, x) <==> iter::held(a + b, x),
{
    let e = Seq::<Record>::empty();
    let ss = a + seq![e] + b;
    let ts = a + b;
    let n = a.len() as int;
    if iter::held(ss, x) {
        let i = choose|i: int| 0 <= i < ss.len() && (#[trigger] ss[i]).contains(x);
        if i < n {
            assert(ts[i] == ss[i]);
        } else {
            assert(i != n);
            assert(ts[i - 1] == ss[i]);
        }
    }
    if iter::held(ts, x) {
        let i = choose|i: int| 0 <= i < ts.len() && (#[trigger] ts[i]).contains(x);
        if i < n {
            assert(ts[i] == ss[i]);
        } else {
            assert(ts[i] == ss[i + 1]);
        }
    }
}

/// Leaving out an empty memtable in front changes nothing for readers.
pub proof fn lemma_skip_one(v: DbView, disk: Disk)
    requires
        sound(v, disk),
        v.imms.len() > 0,
        v.imms[0].len() == 0,
    ensures
        same_reads(v, DbView { imms: v.imms.skip(1), ..v }, disk),
        sound(DbView { imms: v.imms.skip(1), ..v }, disk),
{
    let w = DbView { imms: v.imms.skip(1), ..v };
    let ss = db::sources(v, disk);
    let ts = db::sources(w, disk);
    let e = Seq::<Record>::empty();
    let a = db::memory(w);
    let b = tree::table_sources(v.levels, disk);
    assert(v.imms[0] =~= e);
    assert(v.imms.reverse() =~= v.imms.skip(1).reverse() + seq![e]);
    assert(db::memory(v) =~= a + seq![e]);
    assert(ss =~= a + seq![e] + b);
    assert(ts =~= a + b);
    assert forall|k: Seq<u8>, m: u64| #[trigger] model::read(ts, k, m) == model::read(ss, k, m) by {
        coherence::law_empty_source(a, b, k, m);
    }
    coherence::law_empty_source_coherent(a, b);
    assert forall|x: Record| #[trigger] iter::held(ts, x) implies x.0.seq <= w.next_seq by {
        lemma_held_skips_empty(a, b, x);
    }
}

/// Leaving out the empty memtables in front changes nothing for readers and keeps the database
/// sound.
pub proof fn law_skip_empty_keeps_reads(v: DbView, disk: Disk)
    requires
        sound(v, disk),
    ensures
        same_reads(v, DbView { imms: db::skip_empty(v.imms), ..v }, disk),
        sound(DbView { imms: db::skip_empty(v.imms), ..v }, disk),
    decreases v.imms.len(),
{
    if v.imms.len() > 0 && v.imms[0].len() == 0 {
        let w = DbView { imms: v.imms.skip(1), ..v };
        lemma_skip_one(v, disk);
        law_skip_empty_keeps_reads(w, disk);
    } else {
        assert(v == DbView { imms: db::skip_empty(v.imms), ..v });
    }
}

/// With a table that holds what the oldest waiting memtable held, readers ask the same sources in
/// the same order.
pub proof fn lemma_flushed_sources(v: DbView, disk: Disk, t: TableView)
    requires
        v.imms.len() > 0,
        v.levels.len() > 0,
        contents::contents(t, disk) == v.imms[0],
    ensures
        db::sources(db::flushed(v, t), disk) == db::sources(v, disk),
{
    let w = db::flushed(v, t);
    let c = seq![v.imms[0]];
    assert(v.imms.reverse() =~= v.imms.skip(1).reverse() + c);
    assert(db::memory(v) =~= db::memory(w) + c);
    let l0 = v.levels[0];
    assert(w.levels.skip(1) =~= v.levels.skip(1));
    assert(w.levels[0] == l0.push(t));
    assert(tree::each_contents(l0.push(t).reverse(), disk) =~= c + tree::each_contents(
        l0.reverse(),
        disk,
    ));
    assert(tree::table_sources(w.levels, disk) =~= c + tree::table_sources(v.levels, disk));
    assert(db::sources(w, disk) =~= db::sources(v, disk));
}

/// Flushing the oldest waiting memtable into a table whose number is new changes nothing for
/// readers and keeps the database sound.
pub proof fn law_flush_keeps_reads(v: DbView, disk: Disk, file_num: u64)
    requires
        sound(v, disk),
        v.imms.len() > 0,
        v.imms[0].len() > 0,
        v.levels.len() > 0,
        numbered(v.levels, file_num),
        file_num < v.next_file_num,
        contents::table_fits(v.imms[0], v.opts.block_size, v.opts.bloom_bits_per_key),
        contents::disk_has(
            disk,
            file_num,
            builder::table_file(v.imms[0], v.opts.block_size, v.opts.bloom_bits_per_key),
        ),
    ensures
        ({
            let t = contents::table_view(
                file_num,
                v.imms[0],
                v.opts.block_size,
                v.opts.bloom_bits_per_key,
            );
            &&& same_reads(v, db::flushed(v, t), disk)
            &&& sound(db::flushed(v, t), disk)
        }),
{
    let s = v.imms[0];
    let t = contents::table_view(file_num, s, v.opts.block_size, v.opts.bloom_bits_per_key);
    let w = db::flushed(v, t);
    let ss = db::sources(v, disk);
    let n = v.imms.len() as int;
    assert(db::memory(v)[n] == s);
    assert(ss[n] == s);
    assert(model::sorted(ss[n]));
    contents::law_table_holds_records(
        disk,
        file_num,
        s,
        v.opts.block_size,
        v.opts.bloom_bits_per_key,
    );
    lemma_flushed_sources(v, disk, t);
    assert forall|l: int| 0 <= l < w.levels.len() implies tree::tables_ok(
        #[trigger] w.levels[l],
        disk,
    ) by {
        assert(tree::tables_ok(v.levels[l], disk));
    }
    assert forall|l: int| 1 <= l < w.levels.len() implies tree::disjoint(
        #[trigger] w.levels[l],
    ) by {
        assert(w.levels[l] == v.levels[l]);
    }
    let k = v.levels[0].len() as int;
    assert forall|l: int, i: int|
        0 <= l < w.levels.len() && 0 <= i < w.levels[l].len() implies (
    #[trigger] w.levels[l][i]).file_num <= file_num && ((l == 0 && i == k) || (0 <= i
        < v.levels[l].len() && w.levels[l][i] == v.levels[l][i] && v.levels[l][i].file_num
        < file_num)) by {
        if l > 0 || i < k {
            assert(w.levels[l][i] == v.levels[l][i]);
        }
    }
    assert forall|i: int, j: int| 0 <= i < j < w.levels[0].len() implies (
    #[trigger] w.levels[0][i]).file_num < (#[trigger] w.levels[0][j]).file_num by {
        assert(w.levels[0][i] == v.levels[0][i]);
        if j < k {
            assert(w.levels[0][j] == v.levels[0][j]);
        } else {
            assert(w.levels[0][j] == t);
            assert(v.levels[0][i].file_num < file_num);
        }
    }
}

} // verus!

//! What readers are told, in terms of the records that are there.

use crate::codec;
use crate::db;
use crate::db::{DbView, ReadStep};
use crate::iter;
use crate::key;
use crate::key::{Record, ValueKind};
use crate::laws::coherence;
use crate::laws::compaction;
use crate::laws::scans;
use crate::laws::soundness;
use crate::model;
use crate::model::StartView;
use crate::sstable::contents;
use crate::sstable::reader::{Disk, TableView};
use crate::tree;
use crate::version;
use vstd::prelude::*;

verus! {

/// Some waiting memtable holds the record.
pub open spec fn waits(v: DbView, x: Record) -> bool {
    exists|i: int| 0 <= i < v.imms.len() && (#[trigger] v.imms[i]).contains(x)
}

/// Some table of some level holds the record.
pub open spec fn stored(v: DbView, disk: Disk, x: Record) -> bool {
    exists|l: int, i: int|
        0 <= l < v.levels.len() && 0 <= i < v.levels[l].len() && contents::contents(
            #[trigger] v.levels[l][i],
            disk,
        ).contains(x)
}

/// The record is in the memtable, in one that waits to be flushed, or in a table.
pub open spec fn holds(v: DbView, disk: Disk, x: Record) -> bool {
    v.mem.contains(x) || waits(v, x) || stored(v, disk, x)
}

/// Of the versions of a key up to a sequence number, `x` is the newest that the database holds.
pub open spec fn newest_version(
    v: DbView,
    disk: Disk,
    user_key: Seq<u8>,
    max_seq: u64,
    x: Record,
) -> bool {
    &&& holds(v, disk, x)
    &&& x.0.user_key == user_key
    &&& x.0.seq <= max_seq
    &&& forall|y: Record| #[trigger]
        holds(v, disk, y) && y.0.user_key == user_key && y.0.seq <= max_seq ==> y.0.seq <= x.0.seq
}

/// The newest version of a key up to a sequence number is this value.
pub open spec fn has_value(
    v: DbView,
    disk: Disk,
    user_key: Seq<u8>,
    max_seq: u64,
    value: Seq<u8>,
) -> bool {
    exists|x: Record| #[trigger]
        newest_version(v, disk, user_key, max_seq, x) && x.0.kind == ValueKind::Put && x.1 == value
}

proof fn lemma_holds(v: DbView, disk: Disk, x: Record)
    ensures
        iter::held(db::sources(v, disk), x) <==> holds(v, disk, x),
{
    let ss = db::sources(v, disk);
    let mem = db::memory(v);
    let us = tree::table_sources(v.levels, disk);
    let n = v.imms.len() as int;
    assert(mem[0] == v.mem);
    assert forall|i: int| 0 <= i < n implies #[trigger] mem[n - i] == v.imms[i] by {}
    if iter::held(ss, x) {
        let i = choose|i: int| 0 <= i < ss.len() && (#[trigger] ss[i]).contains(x);
        if i == 0 {
            assert(v.mem.contains(x));
        } else if i <= n {
            assert(ss[i] == mem[n - (n - i)]);
            assert(v.imms[n - i].contains(x));
        } else {
            assert(ss[i] == us[i - n - 1]);
            lemma_table_source(v.levels, disk, i - n - 1, x);
        }
    }
    if v.mem.contains(x) {
        assert(ss[0].contains(x));
    }
    if waits(v, x) {
        let i = choose|i: int| 0 <= i < v.imms.len() && (#[trigger] v.imms[i]).contains(x);
        assert(ss[n - i] == mem[n - i]);
        assert(ss[n - i].contains(x));
    }
    if stored(v, disk, x) {
        let (l, i) = choose|l: int, i: int|
            0 <= l < v.levels.len() && 0 <= i < v.levels[l].len() && contents::contents(
                #[trigger] v.levels[l][i],
                disk,
            ).contains(x);
        assert(v.levels[l].contains(v.levels[l][i]));
        compaction::lemma_held_in_level(v, disk, l, v.levels[l][i], x);
    }
}

proof fn lemma_table_source(levels: Seq<Seq<TableView>>, disk: Disk, j: int, x: Record)
    requires
        0 <= j < tree::table_sources(levels, disk).len(),
        tree::table_sources(levels, disk)[j].contains(x),
    ensures
        exists|l: int, i: int|
            0 <= l < levels.len() && 0 <= i < levels[l].len() && contents::contents(
                #[trigger] levels[l][i],
                disk,
            ).contains(x),
{
    let us = tree::table_sources(levels, disk);
    let n0 = levels[0].len() as int;
    if j < n0 {
        assert(us[j] == tree::each_contents(levels[0].reverse(), disk)[j]);
        assert(contents::contents(levels[0][n0 - 1 - j], disk).contains(x));
    } else {
        let l = j - n0 + 1;
        assert(us[j] == tree::leveled_sources(levels.skip(1), disk)[l - 1]);
        assert(levels.skip(1)[l - 1] == levels[l]);
        let gs = tree::each_contents(levels[l], disk);
        scans::lemma_join_contains(gs, x);
        let i = choose|i: int| 0 <= i < gs.len() && (#[trigger] gs[i]).contains(x);
        assert(contents::contents(levels[l][i], disk).contains(x));
    }
}

proof fn lemma_answer(v: DbView, disk: Disk, user_key: Seq<u8>, max_seq: u64, value: Seq<u8>)
    requires
        soundness::sound(v, disk),
    ensures
        model::answer(model::read(db::sources(v, disk), user_key, max_seq)) == Some(value)
            <==> has_value(v, disk, user_key, max_seq, value),
{
    let ss = db::sources(v, disk);
    coherence::law_read_is_newest(ss, user_key, max_seq);
    let r = model::read(ss, user_key, max_seq);
    assert forall|y: Record| #[trigger] holds(v, disk, y) implies iter::held(ss, y) by {
        lemma_holds(v, disk, y);
    }
    if let Some(x) = r {
        lemma_holds(v, disk, x);
        assert(newest_version(v, disk, user_key, max_seq, x));
    }
    if has_value(v, disk, user_key, max_seq, value) {
        let x = choose|x: Record| #[trigger]
            newest_version(v, disk, user_key, max_seq, x) && x.0.kind == ValueKind::Put && x.1
                == value;
        assert(iter::held(ss, x));
        assert(model::visible(x, user_key, max_seq));
        let z = r->Some_0;
        lemma_holds(v, disk, z);
        assert(coherence::compatible(x, z));
    }
}

/// A read is told a value exactly if that is the newest version of the key, up to the sequence
/// number that the reader sees, of all that memory and tables hold.
pub proof fn law_read_tells_newest(
    v: DbView,
    disk: Disk,
    step: ReadStep,
    user_key: Seq<u8>,
    max_seq: u64,
    value: Seq<u8>,
)
    requires
        soundness::sound(v, disk),
        db::read_step_is(Ok(step), v, user_key, max_seq),
    ensures
        step.outcome(disk) == Some(value) <==> has_value(v, disk, user_key, max_seq, value),
{
    db::law_read_outcome(v, step, user_key, max_seq, disk);
    lemma_answer(v, disk, user_key, max_seq, value);
}

/// A scan gives a key and a value exactly if the key is not before the start of the scan and the
/// value is the newest version of the key that the reader sees; and the keys rise.
pub proof fn law_scan_tells_newest(
    v: DbView,
    disk: Disk,
    start: StartView,
    max_seq: u64,
    user_key: Seq<u8>,
    value: Seq<u8>,
)
    requires
        soundness::sound(v, disk),
    ensures
        ({
            let rows = db::scan_rows(
                v,
                tree::each_contents(version::flat(v.levels), disk),
                start,
                max_seq,
            );
            let after_start = match start {
                StartView::Included(k) => k == user_key || codec::bytes_lt(k, user_key),
                StartView::Excluded(k) => codec::bytes_lt(k, user_key),
                StartView::Unbounded => true,
            };
            &&& rows.contains((user_key, value)) <==> after_start && has_value(
                v,
                disk,
                user_key,
                max_seq,
                value,
            )
            &&& forall|i: int, j: int|
                0 <= i < j < rows.len() ==> codec::bytes_lt(
                    (#[trigger] rows[i]).0,
                    (#[trigger] rows[j]).0,
                )
        }),
{
    scans::law_scan_agrees_with_get(v, disk, start, max_seq, user_key, value);
    lemma_answer(v, disk, user_key, max_seq, value);
}

/// What a reader who merges runs is told of a record: its key, and its value or that it is deleted.
pub open spec fn row_of(x: Record) -> (Seq<u8>, Option<Seq<u8>>) {
    (
        x.0.user_key,
        if x.0.kind == ValueKind::Put {
            Some(x.1)
        } else {
            None
        },
    )
}

/// The rows of a run of records are those of the records, in their order; on request without those
/// of tombstones.
pub proof fn law_rows_are_those_of_records(s: Seq<Record>, skip: bool)
    ensures
        iter::told(s, skip) == s.filter(|x: Record| x.0.kind == ValueKind::Put || !skip).map_values(
            |x: Record| row_of(x),
        ),
    decreases s.len(),
{
    let p = |x: Record| x.0.kind == ValueKind::Put || !skip;
    let f = |x: Record| row_of(x);
    if s.len() == 0 {
        reveal(Seq::filter);
        assert(iter::told(s, skip) =~= s.filter(p).map_values(f));
    } else {
        let t = s.skip(1);
        law_rows_are_those_of_records(t, skip);
        assert(s =~= seq![s[0]] + t);
        Seq::filter_distributes_over_add(seq![s[0]], t, p);
        assert(seq![s[0]].filter(p) =~= if p(s[0]) {
            seq![s[0]]
        } else {
            Seq::empty()
        }) by {
            reveal(Seq::filter);
            assert(seq![s[0]].drop_last() =~= Seq::<Record>::empty());
            reveal_with_fuel(Seq::filter, 2);
        }
        assert(s.filter(p) =~= seq![s[0]].filter(p) + t.filter(p));
        assert(iter::told(s, skip) =~= s.filter(p).map_values(f));
    }
}

/// The records that a scan takes into account are those up to its sequence number that are not
/// before its start, in their order.
pub proof fn law_scan_selects(s: Seq<Record>, start: StartView, max_seq: u64)
    ensures
        model::select(s, start, max_seq) == s.filter(
            |x: Record|
                x.0.seq <= max_seq && match start {
                    StartView::Included(k) => k == x.0.user_key || codec::bytes_lt(
                        k,
                        x.0.user_key,
                    ),
                    StartView::Excluded(k) => codec::bytes_lt(k, x.0.user_key),
                    StartView::Unbounded => true,
                },
        ),
    decreases s.len(),
{
    let p = |x: Record|
        x.0.seq <= max_seq && match start {
            StartView::Included(k) => k == x.0.user_key || codec::bytes_lt(k, x.0.user_key),
            StartView::Excluded(k) => codec::bytes_lt(k, x.0.user_key),
            StartView::Unbounded => true,
        };
    if s.len() == 0 {
        reveal(Seq::filter);
        assert(model::select(s, start, max_seq) =~= s.filter(p));
    } else {
        let t = s.skip(1);
        law_scan_selects(t, start, max_seq);
        assert(s =~= seq![s[0]] + t);
        Seq::filter_distributes_over_add(seq![s[0]], t, p);
        assert(seq![s[0]].filter(p) =~= if p(s[0]) {
            seq![s[0]]
        } else {
            Seq::empty()
        }) by {
            assert(seq![s[0]].drop_last() =~= Seq::<Record>::empty());
            reveal_with_fuel(Seq::filter, 2);
        }
        assert(model::select(s, start, max_seq) =~= seq![s[0]].filter(p) + t.filter(p));
    }
}

/// Of an ordered run, the first record of each user key is kept: a record stands in what is kept
/// exactly if it stands in the run and none before it has its user key; and the user keys rise.
pub proof fn law_first_of_each_key(s: Seq<Record>, i: int)
    requires
        iter::ordered(s),
        0 <= i < s.len(),
        forall|j: int| 0 <= j < i ==> (#[trigger] s[j]).0.user_key != s[i].0.user_key,
    ensures
        model::firsts(s, None).contains(s[i]),
        iter::keys_rise(model::firsts(s, None)),
        forall|r: Record| #[trigger] model::firsts(s, None).contains(r) ==> s.contains(r),
{
    let k = s[i].0.user_key;
    let f = model::firsts(s, None);
    iter::lemma_firsts_rise(s, None);
    iter::lemma_firsts_find(s, None, k);
    assert forall|j: int| 0 <= j < i implies !model::visible(#[trigger] s[j], k, u64::MAX) by {}
    model::lemma_find_at(s, k, u64::MAX, i);
    let a = model::lemma_find_some(f, k, u64::MAX);
    assert(f[a] == s[i]);
    assert forall|r: Record| #[trigger] f.contains(r) implies s.contains(r) by {
        let b = choose|b: int| 0 <= b < f.len() && f[b] == r;
        assert(s.contains(f[b]));
    }
}

/// A memtable finds the newest version of a key that a reader sees: the one it gives is there, is
/// of the key, is seen, and none of the others that are is newer; if it gives none, there is none.
pub proof fn law_memtable_finds_newest(s: Seq<Record>, user_key: Seq<u8>, max_seq: u64, i: int)
    requires
        model::sorted(s),
        0 <= i < s.len(),
    ensures
        match model::find(s, user_key, max_seq) {
            Some(r) => {
                &&& s.contains(r)
                &&& r.0.user_key == user_key
                &&& r.0.seq <= max_seq
                &&& s[i].0.user_key == user_key && s[i].0.seq <= max_seq ==> s[i].0.seq <= r.0.seq
            },
            None => s[i].0.user_key != user_key || s[i].0.seq > max_seq,
        },
{
    model::lemma_find_none(s, user_key, max_seq);
    if model::find(s, user_key, max_seq) is Some {
        let j = model::lemma_find_some(s, user_key, max_seq);
        assert(s.contains(s[j]));
        if model::visible(s[i], user_key, max_seq) {
            model::law_find_is_newest(s, user_key, max_seq, i);
        }
    } else {
        assert(!model::visible(s[i], user_key, max_seq));
    }
}

/// Putting a record into a memtable sets the value of its internal key, leaves all others as they
/// were, and keeps the records in order.
pub proof fn law_memtable_takes_a_record(s: Seq<Record>, r: Record, x: Record)
    requires
        model::sorted(s),
    ensures
        ({
            let t = model::with_record(s, r.0, r.1);
            &&& t.contains(x) <==> (x == r || (s.contains(x) && x.0 != r.0))
            &&& t.len() <= s.len() + 1
            &&& forall|i: int, j: int|
                0 <= i < j < t.len() ==> key::key_lt((#[trigger] t[i]).0, (#[trigger] t[j]).0)
        }),
{
    model::lemma_with_record(s, r.0, r.1);
    model::lemma_position(s, r.0);
}

} // verus!

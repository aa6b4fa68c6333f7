//! What a write changes for readers, and what it leaves as it is.

use crate::db;
use crate::db::DbView;
use crate::iter;
use crate::key;
use crate::key::{Record, ValueKind};
use crate::laws::coherence;
use crate::model;
use crate::sstable::reader::Disk;
use crate::tree;
use vstd::prelude::*;

verus! {

/// No record that is held has a sequence number above `n`.
pub open spec fn seqs_up_to(ss: Seq<Seq<Record>>, n: u64) -> bool {
    forall|x: Record| #[trigger] iter::held(ss, x) ==> x.0.seq <= n
}

/// In sorted runs that hold the same visible records a reader finds the same.
pub proof fn lemma_find_by_members(
    s: Seq<Record>,
    t: Seq<Record>,
    user_key: Seq<u8>,
    max_seq: u64,
)
    requires
        model::sorted(s),
        model::sorted(t),
        forall|r: Record|
            model::visible(r, user_key, max_seq) ==> (#[trigger] s.contains(r) <==> t.contains(r)),
    ensures
        model::find(s, user_key, max_seq) == model::find(t, user_key, max_seq),
{
    model::lemma_find_none(s, user_key, max_seq);
    model::lemma_find_none(t, user_key, max_seq);
    if model::find(s, user_key, max_seq) is Some {
        let i = model::lemma_find_some(s, user_key, max_seq);
        assert(s.contains(s[i]));
        let i2 = choose|i2: int| 0 <= i2 < t.len() && t[i2] == s[i];
        model::law_find_is_newest(t, user_key, max_seq, i2);
        let j = model::lemma_find_some(t, user_key, max_seq);
        assert(t.contains(t[j]));
        assert(s.contains(t[j]));
        let j2 = choose|j2: int| 0 <= j2 < s.len() && s[j2] == t[j];
        model::law_find_is_newest(s, user_key, max_seq, j2);
        assert(s[i].0 == s[j2].0) by {
            assert(key::kind_code(s[i].0.kind) == key::kind_code(s[j2].0.kind));
        }
        key::law_key_order_irreflexive(s[i].0);
        if i < j2 {
            assert(key::key_lt(s[i].0, s[j2].0));
        }
        if j2 < i {
            assert(key::key_lt(s[j2].0, s[i].0));
        }
    } else if model::find(t, user_key, max_seq) is Some {
        let j = model::lemma_find_some(t, user_key, max_seq);
        assert(t.contains(t[j]));
        assert(s.contains(t[j]));
        let j2 = choose|j2: int| 0 <= j2 < s.len() && s[j2] == t[j];
        assert(model::visible(s[j2], user_key, max_seq));
    }
}

/// What a reader finds in a memtable that took a write newer than all it held.
pub proof fn lemma_find_written(s: Seq<Record>, r: Record, user_key: Seq<u8>, max_seq: u64)
    requires
        model::sorted(s),
        forall|i: int| 0 <= i < s.len() ==> (#[trigger] s[i]).0.seq < r.0.seq,
    ensures
        model::find(model::with_record(s, r.0, r.1), user_key, max_seq) == (if user_key
            == r.0.user_key && r.0.seq <= max_seq {
            Some(r)
        } else {
            model::find(s, user_key, max_seq)
        }),
{
    let t = model::with_record(s, r.0, r.1);
    model::lemma_with_record(s, r.0, r.1);
    if user_key == r.0.user_key && r.0.seq <= max_seq {
        assert(t.contains(r));
        let i = choose|i: int| 0 <= i < t.len() && t[i] == r;
        model::law_find_is_newest(t, user_key, max_seq, i);
        let f = model::lemma_find_some(t, user_key, max_seq);
        assert(t.contains(t[f]));
        if t[f] != r {
            assert(s.contains(t[f]));
            let g = choose|g: int| 0 <= g < s.len() && s[g] == t[f];
            assert(s[g].0.seq < r.0.seq);
        }
    } else {
        assert forall|x: Record|
            model::visible(x, user_key, max_seq) implies (#[trigger] t.contains(x) <==> s.contains(
            x,
        )) by {
            if s.contains(x) && x.0 == r.0 {
                assert(model::visible(r, user_key, max_seq));
            }
        }
        lemma_find_by_members(t, s, user_key, max_seq);
    }
}

/// A write newer than all that is held goes into the first source: readers who see it are told of
/// it, the others and those of other keys are told what they were told before.
proof fn lemma_write(
    mem: Seq<Record>,
    rest: Seq<Seq<Record>>,
    r: Record,
    n: u64,
    user_key: Seq<u8>,
    max_seq: u64,
)
    requires
        coherence::coherent(seq![mem] + rest),
        seqs_up_to(seq![mem] + rest, n),
        n < r.0.seq,
    ensures
        model::read(seq![model::with_record(mem, r.0, r.1)] + rest, user_key, max_seq) == (if user_key
            == r.0.user_key && r.0.seq <= max_seq {
            Some(r)
        } else {
            model::read(seq![mem] + rest, user_key, max_seq)
        }),
        coherence::newest_first_at(
            seq![model::with_record(mem, r.0, r.1)] + rest,
            user_key,
            max_seq,
        ),
{
    let ss = seq![mem] + rest;
    let m2 = model::with_record(mem, r.0, r.1);
    let ts = seq![m2] + rest;
    assert(ss[0] == mem);
    assert(model::sorted(ss[0]));
    assert forall|i: int| 0 <= i < mem.len() implies (#[trigger] mem[i]).0.seq < r.0.seq by {
        coherence::lemma_held(ss, 0, i);
    }
    lemma_find_written(mem, r, user_key, max_seq);
    assert(ss.skip(1) =~= rest);
    assert(ts.skip(1) =~= rest);
    assert(coherence::newest_first_at(ss, user_key, max_seq));
    assert forall|i: int, j: int|
        0 <= i < j < ts.len() && model::find(#[trigger] ts[i], user_key, max_seq) is Some
            && model::find(#[trigger] ts[j], user_key, max_seq) is Some implies model::find(
        ts[i],
        user_key,
        max_seq,
    )->Some_0.0.seq >= model::find(ts[j], user_key, max_seq)->Some_0.0.seq by {
        assert(ts[j] == ss[j]);
        coherence::lemma_find_held(ss, j, user_key, max_seq);
        if i > 0 {
            assert(ts[i] == ss[i]);
        } else if !(user_key == r.0.user_key && r.0.seq <= max_seq) {
            assert(model::find(ts[0], user_key, max_seq) == model::find(ss[0], user_key, max_seq));
        }
    }
}

/// A write newer than all that is held adds its record to what is held.
proof fn lemma_write_held(mem: Seq<Record>, rest: Seq<Seq<Record>>, r: Record, n: u64, x: Record)
    requires
        iter::all_sorted(seq![mem] + rest),
        seqs_up_to(seq![mem] + rest, n),
        n < r.0.seq,
    ensures
        iter::held(seq![model::with_record(mem, r.0, r.1)] + rest, x) <==> (x == r || iter::held(
            seq![mem] + rest,
            x,
        )),
{
    let ss = seq![mem] + rest;
    let m2 = model::with_record(mem, r.0, r.1);
    let ts = seq![m2] + rest;
    assert(ss[0] == mem && ts[0] == m2);
    assert(model::sorted(ss[0]));
    model::lemma_with_record(mem, r.0, r.1);
    if iter::held(ts, x) && x != r {
        let i = choose|i: int| 0 <= i < ts.len() && (#[trigger] ts[i]).contains(x);
        if i == 0 {
            assert(ss[0].contains(x));
        } else {
            assert(ss[i].contains(x));
        }
    }
    if x == r {
        assert(ts[0].contains(x));
    }
    if iter::held(ss, x) {
        let i = choose|i: int| 0 <= i < ss.len() && (#[trigger] ss[i]).contains(x);
        if i == 0 {
            assert(x.0 != r.0);
            assert(ts[0].contains(x));
        } else {
            assert(ts[i].contains(x));
        }
    }
}

/// Once a write with a new sequence number is applied, readers of its key who see it are told of
/// it, and all other reads, those of other keys and those of older snapshots, are told what they
/// were told before.
pub proof fn law_write_is_read(v: DbView, disk: Disk, r: Record, user_key: Seq<u8>, max_seq: u64)
    requires
        coherence::coherent(db::sources(v, disk)),
        seqs_up_to(db::sources(v, disk), v.next_seq),
        v.next_seq < r.0.seq,
    ensures
        model::read(db::sources(db::applied(v, r), disk), user_key, max_seq) == (if user_key
            == r.0.user_key && r.0.seq <= max_seq {
            Some(r)
        } else {
            model::read(db::sources(v, disk), user_key, max_seq)
        }),
{
    let rest = v.imms.reverse() + tree::table_sources(v.levels, disk);
    assert(db::sources(v, disk) =~= seq![v.mem] + rest);
    let w = db::applied(v, r);
    assert(db::sources(w, disk) =~= seq![w.mem] + rest);
    lemma_write(v.mem, rest, r, v.next_seq, user_key, max_seq);
}

/// A write with a new sequence number keeps the sources coherent.
pub proof fn law_write_keeps_coherence(v: DbView, disk: Disk, r: Record)
    requires
        coherence::coherent(db::sources(v, disk)),
        seqs_up_to(db::sources(v, disk), v.next_seq),
        v.next_seq < r.0.seq,
    ensures
        coherence::coherent(db::sources(db::applied(v, r), disk)),
        seqs_up_to(db::sources(db::applied(v, r), disk), r.0.seq),
{
    let rest = v.imms.reverse() + tree::table_sources(v.levels, disk);
    let ss = db::sources(v, disk);
    assert(ss =~= seq![v.mem] + rest);
    let w = db::applied(v, r);
    let ts = db::sources(w, disk);
    assert(ts =~= seq![w.mem] + rest);
    assert(ss[0] == v.mem);
    assert(model::sorted(ss[0]));
    model::lemma_with_record(v.mem, r.0, r.1);
    assert forall|i: int| 0 <= i < ts.len() implies model::sorted(#[trigger] ts[i]) by {
        if i > 0 {
            assert(ts[i] == ss[i]);
        }
    }
    assert forall|k: Seq<u8>, m: u64| #[trigger] coherence::newest_first_at(ts, k, m) by {
        lemma_write(v.mem, rest, r, v.next_seq, k, m);
    }
    assert forall|x: Record| #[trigger] iter::held(ts, x) implies x == r || iter::held(ss, x) by {
        lemma_write_held(v.mem, rest, r, v.next_seq, x);
    }
    assert forall|x: Record, y: Record| #[trigger]
        iter::held(ts, x) && #[trigger] iter::held(ts, y) implies coherence::compatible(x, y) by {
        if x != r && y != r {
            assert(iter::held(ss, x) && iter::held(ss, y));
        } else if x != r {
            assert(x.0.seq <= v.next_seq);
        } else if y != r {
            assert(y.0.seq <= v.next_seq);
        }
    }
}

/// A value that was put is read back, until the key is written again; reads of other keys are told
/// what they were told before the write.
pub proof fn law_put_then_get(
    v: DbView,
    disk: Disk,
    user_key: Seq<u8>,
    value: Seq<u8>,
    other: Seq<u8>,
)
    requires
        coherence::coherent(db::sources(v, disk)),
        seqs_up_to(db::sources(v, disk), v.next_seq),
        v.next_seq < u64::MAX,
        other != user_key,
    ensures
        ({
            let w = db::applied(v, db::next_record(v, user_key, value, ValueKind::Put));
            &&& model::answer(model::read(db::sources(w, disk), user_key, u64::MAX)) == Some(value)
            &&& model::read(db::sources(w, disk), other, u64::MAX) == model::read(
                db::sources(v, disk),
                other,
                u64::MAX,
            )
        }),
{
    let r = db::next_record(v, user_key, value, ValueKind::Put);
    law_write_is_read(v, disk, r, user_key, u64::MAX);
    law_write_is_read(v, disk, r, other, u64::MAX);
}

/// A key that was deleted has no value; reads of other keys are told what they were told before.
pub proof fn law_delete_then_get(v: DbView, disk: Disk, user_key: Seq<u8>, other: Seq<u8>)
    requires
        coherence::coherent(db::sources(v, disk)),
        seqs_up_to(db::sources(v, disk), v.next_seq),
        v.next_seq < u64::MAX,
        other != user_key,
    ensures
        ({
            let w = db::applied(v, db::next_record(v, user_key, Seq::empty(), ValueKind::Delete));
            &&& model::answer(model::read(db::sources(w, disk), user_key, u64::MAX)) is None
            &&& model::read(db::sources(w, disk), other, u64::MAX) == model::read(
                db::sources(v, disk),
                other,
                u64::MAX,
            )
        }),
{
    let r = db::next_record(v, user_key, Seq::empty(), ValueKind::Delete);
    law_write_is_read(v, disk, r, user_key, u64::MAX);
    law_write_is_read(v, disk, r, other, u64::MAX);
}

/// A reader at a snapshot is told the same whatever is written after the snapshot was taken.
pub proof fn law_snapshot_is_isolated(
    v: DbView,
    disk: Disk,
    snap_seq: u64,
    written: Seq<u8>,
    value: Seq<u8>,
    kind: ValueKind,
    user_key: Seq<u8>,
)
    requires
        coherence::coherent(db::sources(v, disk)),
        seqs_up_to(db::sources(v, disk), v.next_seq),
        v.next_seq < u64::MAX,
        snap_seq <= v.next_seq,
    ensures
        model::read(
            db::sources(db::applied(v, db::next_record(v, written, value, kind)), disk),
            user_key,
            snap_seq,
        ) == model::read(db::sources(v, disk), user_key, snap_seq),
{
    law_write_is_read(v, disk, db::next_record(v, written, value, kind), user_key, snap_seq);
}

} // verus!

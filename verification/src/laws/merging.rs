//! What merging runs of records gives, step by step and as a whole.

use crate::codec;
use crate::iter;
use crate::key;
use crate::key::{Record, ValueKind};
use crate::laws::answers;
use crate::laws::coherence;
use crate::model;
use crate::model::StartView;
use vstd::prelude::*;

verus! {

/// How many records the runs hold together.
pub open spec fn count(ps: Seq<Seq<Record>>) -> int {
    ps.fold_left(0int, |n: int, s: Seq<Record>| n + s.len())
}

proof fn lemma_least_is_first(ps: Seq<Seq<Record>>)
    ensures
        iter::least(ps) matches Some(i) ==> forall|j: int|
            0 <= j < i && (#[trigger] ps[j]).len() > 0 ==> key::key_lt(ps[i][0].0, ps[j][0].0),
    decreases ps.len(),
{
    if ps.len() > 0 {
        let p = ps.drop_last();
        let n = ps.len() - 1;
        lemma_least_is_first(p);
        iter::lemma_least(p);
        if let Some(i) = iter::least(ps) {
            assert forall|j: int| 0 <= j < i && (#[trigger] ps[j]).len() > 0 implies key::key_lt(
                ps[i][0].0,
                ps[j][0].0,
            ) by {
                assert(p[j] == ps[j]);
                match iter::least(p) {
                    None => {
                        assert(p[j].len() == 0);
                    },
                    Some(b) => {
                        assert(p[b] == ps[b]);
                        if i == n {
                            let x = ps[n][0].0;
                            assert(key::key_lt(x, ps[b][0].0));
                            key::law_key_order_total(ps[b][0].0, ps[j][0].0);
                            assert(!key::key_lt(p[j][0].0, p[b][0].0));
                            if ps[b][0].0 != ps[j][0].0 {
                                key::law_key_order_transitive(x, ps[b][0].0, ps[j][0].0);
                            }
                        }
                    },
                }
            }
        }
    }
}

/// One step of a merge: if any run has a record left, the next one is the first record of a run
/// before which no first record of another comes, and of several such runs that of the first; the
/// rest is the merge of what is left.
pub proof fn law_merge_step(ps: Seq<Seq<Record>>) -> (i: int)
    ensures
        (forall|j: int| 0 <= j < ps.len() ==> (#[trigger] ps[j]).len() == 0) ==> iter::merged(
            ps,
        ).len() == 0,
        (exists|j: int| 0 <= j < ps.len() && (#[trigger] ps[j]).len() > 0) ==> {
            &&& 0 <= i < ps.len()
            &&& ps[i].len() > 0
            &&& forall|j: int|
                0 <= j < ps.len() && (#[trigger] ps[j]).len() > 0 ==> !key::key_lt(
                    ps[j][0].0,
                    ps[i][0].0,
                )
            &&& forall|j: int|
                0 <= j < i && (#[trigger] ps[j]).len() > 0 ==> ps[j][0].0 != ps[i][0].0
            &&& iter::merged(ps) == seq![ps[i][0]] + iter::merged(ps.update(i, ps[i].skip(1)))
        },
{
    iter::lemma_least(ps);
    lemma_least_is_first(ps);
    match iter::least(ps) {
        None => 0,
        Some(i) => {
            key::law_key_order_irreflexive(ps[i][0].0);
            i
        },
    }
}

/// A merge has as many records as its runs.
pub proof fn law_merge_counts(ps: Seq<Seq<Record>>)
    ensures
        iter::merged(ps).len() == count(ps),
        iter::total(ps) == count(ps),
    decreases iter::total(ps),
{
    lemma_count(ps);
    iter::lemma_least(ps);
    match iter::least(ps) {
        None => {
            lemma_nothing(ps);
        },
        Some(i) => {
            iter::lemma_total_update(ps, i);
            let qs = iter::without_head(ps, i);
            law_merge_counts(qs);
        },
    }
}

proof fn lemma_count(ps: Seq<Seq<Record>>)
    ensures
        iter::total(ps) == count(ps),
    decreases ps.len(),
{
    reveal(Seq::fold_left);
    if ps.len() > 0 {
        lemma_count(ps.drop_last());
    }
}

proof fn lemma_nothing(ps: Seq<Seq<Record>>)
    requires
        forall|j: int| 0 <= j < ps.len() ==> (#[trigger] ps[j]).len() == 0,
    ensures
        iter::total(ps) == 0,
    decreases ps.len(),
{
    if ps.len() > 0 {
        let p = ps.drop_last();
        assert forall|j: int| 0 <= j < p.len() implies (#[trigger] p[j]).len() == 0 by {
            assert(p[j] == ps[j]);
        }
        lemma_nothing(p);
        assert(ps[ps.len() - 1].len() == 0);
    }
}

/// Of the versions of its key up to a sequence number, `x` is the newest that the runs hold.
pub open spec fn leads(ps: Seq<Seq<Record>>, max_seq: u64, x: Record) -> bool {
    &&& iter::held(ps, x)
    &&& x.0.seq <= max_seq
    &&& forall|y: Record| #[trigger]
        iter::held(ps, y) && y.0.user_key == x.0.user_key && y.0.seq <= max_seq ==> y.0.seq
            <= x.0.seq
}

/// What a merge tells a reader: the rows of the newest versions that the runs hold up to the
/// reader's sequence number, one for each user key, in the order of the keys; on request without
/// those that are deleted.
pub proof fn law_merge_tells_newest(
    ps: Seq<Seq<Record>>,
    max_seq: u64,
    skip: bool,
    row: (Seq<u8>, Option<Seq<u8>>),
)
    requires
        iter::all_sorted(ps),
        coherence::agree(ps),
    ensures
        ({
            let rows = iter::told(model::firsts(iter::merged(iter::visible_runs(ps, max_seq)), None), skip);
            &&& rows.contains(row) <==> exists|x: Record| #[trigger]
                leads(ps, max_seq, x) && answers::row_of(x) == row && (x.0.kind == ValueKind::Put
                    || !skip)
            &&& forall|i: int, j: int|
                0 <= i < j < rows.len() ==> codec::bytes_lt(
                    (#[trigger] rows[i]).0,
                    (#[trigger] rows[j]).0,
                )
        }),
{
    let qs = iter::visible_runs(ps, max_seq);
    let s = iter::newest(qs);
    lemma_visible_sorted(ps, max_seq);
    iter::law_merge_is_ordered(qs);
    iter::lemma_firsts_rise(iter::merged(qs), None);
    lemma_rows(s, skip, row);
    lemma_rows_rise(s, skip);
    let rows = iter::told(s, skip);
    if rows.contains(row) {
        let i = choose|i: int|
            0 <= i < s.len() && answers::row_of(#[trigger] s[i]) == row && (s[i].0.kind
                == ValueKind::Put || !skip);
        let x = s[i];
        iter::lemma_newest_held(qs, i);
        lemma_visible_held(ps, max_seq, x);
        assert(s.contains(x));
        lemma_rising_find(s, i);
        assert forall|y: Record| #[trigger]
            iter::held(ps, y) && y.0.user_key == x.0.user_key && y.0.seq <= max_seq implies y.0.seq
            <= x.0.seq by {
            lemma_visible_held(ps, max_seq, y);
            iter::law_merge_keeps_newest(qs, y);
        }
        assert(leads(ps, max_seq, x));
    }
    if exists|x: Record| #[trigger]
        leads(ps, max_seq, x) && answers::row_of(x) == row && (x.0.kind == ValueKind::Put || !skip) {
        let x = choose|x: Record| #[trigger]
            leads(ps, max_seq, x) && answers::row_of(x) == row && (x.0.kind == ValueKind::Put
                || !skip);
        lemma_visible_held(ps, max_seq, x);
        iter::law_merge_keeps_newest(qs, x);
        let z = model::find(s, x.0.user_key, u64::MAX)->Some_0;
        lemma_visible_held(ps, max_seq, z);
        let i = model::lemma_find_some(s, x.0.user_key, u64::MAX);
        assert(coherence::compatible(x, z));
        assert(s[i] == x);
        assert(answers::row_of(s[i]) == row);
    }
}

/// Of records with rising user keys each is the only version of its key.
proof fn lemma_rising_find(s: Seq<Record>, i: int)
    requires
        iter::keys_rise(s),
        0 <= i < s.len(),
    ensures
        model::find(s, s[i].0.user_key, u64::MAX) == Some(s[i]),
{
    let k = s[i].0.user_key;
    codec::lemma_bytes_lt_irreflexive(k);
    assert forall|j: int| 0 <= j < i implies !model::visible(#[trigger] s[j], k, u64::MAX) by {
        assert(codec::bytes_lt(s[j].0.user_key, s[i].0.user_key));
    }
    model::lemma_find_at(s, k, u64::MAX, i);
}

proof fn lemma_visible(s: Seq<Record>, max_seq: u64, r: Record)
    ensures
        model::select(s, StartView::Unbounded, max_seq).contains(r) <==> s.contains(r) && r.0.seq
            <= max_seq,
    decreases s.len(),
{
    let q = model::select(s, StartView::Unbounded, max_seq);
    if s.len() == 0 {
        assert(!q.contains(r));
    } else {
        let t = s.skip(1);
        let p = model::select(t, StartView::Unbounded, max_seq);
        lemma_visible(t, max_seq, r);
        lemma_head(s, r);
        if s[0].0.seq <= max_seq {
            assert(q.skip(1) =~= p);
            lemma_head(q, r);
        }
    }
}

proof fn lemma_head(s: Seq<Record>, r: Record)
    requires
        s.len() > 0,
    ensures
        s.contains(r) <==> (r == s[0] || s.skip(1).contains(r)),
{
    let t = s.skip(1);
    if s.contains(r) && r != s[0] {
        let i = choose|i: int| 0 <= i < s.len() && s[i] == r;
        assert(t[i - 1] == r);
    }
    if t.contains(r) {
        let i = choose|i: int| 0 <= i < t.len() && t[i] == r;
        assert(s[i + 1] == r);
    }
}

proof fn lemma_visible_held(ps: Seq<Seq<Record>>, max_seq: u64, r: Record)
    ensures
        iter::held(iter::visible_runs(ps, max_seq), r) <==> iter::held(ps, r) && r.0.seq <= max_seq,
{
    let qs = iter::visible_runs(ps, max_seq);
    if iter::held(qs, r) {
        let i = choose|i: int| 0 <= i < qs.len() && (#[trigger] qs[i]).contains(r);
        lemma_visible(ps[i], max_seq, r);
    }
    if iter::held(ps, r) && r.0.seq <= max_seq {
        let i = choose|i: int| 0 <= i < ps.len() && (#[trigger] ps[i]).contains(r);
        lemma_visible(ps[i], max_seq, r);
        assert(qs[i].contains(r));
    }
}

proof fn lemma_sorted_visible(s: Seq<Record>, max_seq: u64)
    requires
        model::sorted(s),
    ensures
        model::sorted(model::select(s, StartView::Unbounded, max_seq)),
    decreases s.len(),
{
    let q = model::select(s, StartView::Unbounded, max_seq);
    if s.len() > 0 {
        let t = s.skip(1);
        assert forall|i: int, j: int| 0 <= i < j < t.len() implies key::key_lt(
            (#[trigger] t[i]).0,
            (#[trigger] t[j]).0,
        ) by {
            assert(t[i] == s[i + 1] && t[j] == s[j + 1]);
        }
        lemma_sorted_visible(t, max_seq);
        let p = model::select(t, StartView::Unbounded, max_seq);
        if s[0].0.seq <= max_seq {
            assert forall|i: int, j: int| 0 <= i < j < q.len() implies key::key_lt(
                (#[trigger] q[i]).0,
                (#[trigger] q[j]).0,
            ) by {
                assert(q[j] == p[j - 1]);
                if i > 0 {
                    assert(q[i] == p[i - 1]);
                } else {
                    assert(p.contains(p[j - 1]));
                    lemma_visible(t, max_seq, p[j - 1]);
                    let b = choose|b: int| 0 <= b < t.len() && t[b] == p[j - 1];
                    assert(s[b + 1] == t[b]);
                    assert(key::key_lt(s[0].0, s[b + 1].0));
                }
            }
        }
    }
}

proof fn lemma_visible_sorted(ps: Seq<Seq<Record>>, max_seq: u64)
    requires
        iter::all_sorted(ps),
    ensures
        iter::all_sorted(iter::visible_runs(ps, max_seq)),
{
    let qs = iter::visible_runs(ps, max_seq);
    assert forall|i: int| 0 <= i < qs.len() implies model::sorted(#[trigger] qs[i]) by {
        assert(model::sorted(ps[i]));
        lemma_sorted_visible(ps[i], max_seq);
    }
}

proof fn lemma_rows(s: Seq<Record>, skip: bool, row: (Seq<u8>, Option<Seq<u8>>))
    ensures
        iter::told(s, skip).contains(row) <==> exists|i: int|
            0 <= i < s.len() && answers::row_of(#[trigger] s[i]) == row && (s[i].0.kind
                == ValueKind::Put || !skip),
    decreases s.len(),
{
    let rows = iter::told(s, skip);
    if s.len() == 0 {
        assert(!rows.contains(row));
    } else {
        let t = s.skip(1);
        let more = iter::told(t, skip);
        lemma_rows(t, skip, row);
        let taken = s[0].0.kind == ValueKind::Put || !skip;
        if taken {
            assert(rows == seq![answers::row_of(s[0])] + more);
            assert(rows[0] == answers::row_of(s[0]));
        }
        if rows.contains(row) {
            if taken && row == answers::row_of(s[0]) {
                assert(answers::row_of(s[0]) == row);
            } else {
                let a = choose|a: int| 0 <= a < rows.len() && rows[a] == row;
                if taken {
                    assert(more[a - 1] == row);
                }
                assert(more.contains(row));
                let i = choose|i: int|
                    0 <= i < t.len() && answers::row_of(#[trigger] t[i]) == row && (t[i].0.kind
                        == ValueKind::Put || !skip);
                assert(s[i + 1] == t[i]);
            }
        }
        if exists|i: int|
            0 <= i < s.len() && answers::row_of(#[trigger] s[i]) == row && (s[i].0.kind
                == ValueKind::Put || !skip) {
            let i = choose|i: int|
                0 <= i < s.len() && answers::row_of(#[trigger] s[i]) == row && (s[i].0.kind
                    == ValueKind::Put || !skip);
            if i > 0 {
                assert(t[i - 1] == s[i]);
                let a = choose|a: int| 0 <= a < more.len() && more[a] == row;
                if taken {
                    assert(rows[a + 1] == row);
                } else {
                    assert(rows[a] == row);
                }
            }
        }
    }
}

proof fn lemma_rows_rise(s: Seq<Record>, skip: bool)
    requires
        iter::keys_rise(s),
    ensures
        ({
            let rows = iter::told(s, skip);
            forall|i: int, j: int|
                0 <= i < j < rows.len() ==> codec::bytes_lt(
                    (#[trigger] rows[i]).0,
                    (#[trigger] rows[j]).0,
                )
        }),
    decreases s.len(),
{
    let rows = iter::told(s, skip);
    if s.len() > 0 {
        let t = s.skip(1);
        let more = iter::told(t, skip);
        assert forall|i: int, j: int| 0 <= i < j < t.len() implies codec::bytes_lt(
            (#[trigger] t[i]).0.user_key,
            (#[trigger] t[j]).0.user_key,
        ) by {
            assert(t[i] == s[i + 1] && t[j] == s[j + 1]);
        }
        lemma_rows_rise(t, skip);
        if s[0].0.kind == ValueKind::Put || !skip {
            assert forall|i: int, j: int| 0 <= i < j < rows.len() implies codec::bytes_lt(
                (#[trigger] rows[i]).0,
                (#[trigger] rows[j]).0,
            ) by {
                assert(rows[j] == more[j - 1]);
                if i > 0 {
                    assert(rows[i] == more[i - 1]);
                } else {
                    assert(more.contains(more[j - 1]));
                    lemma_rows(t, skip, more[j - 1]);
                    let b = choose|b: int|
                        0 <= b < t.len() && answers::row_of(#[trigger] t[b]) == more[j - 1] && (
                        t[b].0.kind == ValueKind::Put || !skip);
                    assert(s[b + 1] == t[b]);
                    assert(codec::bytes_lt(s[0].0.user_key, s[b + 1].0.user_key));
                }
            }
        }
    }
}

/// What a lookup takes from a block, in whatever order its entries stand: a version of the key that
/// the reader sees, before which no other such version comes; and none only if there is none.
pub proof fn law_block_gives_best(s: Seq<Record>, user_key: Seq<u8>, max_seq: u64, i: int)
    requires
        0 <= i < s.len(),
    ensures
        match model::best(s, user_key, max_seq) {
            Some(r) => {
                &&& s.contains(r)
                &&& r.0.user_key == user_key
                &&& r.0.seq <= max_seq
                &&& s[i].0.user_key == user_key && s[i].0.seq <= max_seq ==> !key::key_lt(
                    s[i].0,
                    r.0,
                )
            },
            None => s[i].0.user_key != user_key || s[i].0.seq > max_seq,
        },
    decreases s.len(),
{
    let p = s.drop_last();
    let l = s.last();
    let b = model::best(p, user_key, max_seq);
    assert(s[s.len() - 1] == l);
    key::law_key_order_irreflexive(l.0);
    if p.len() > 0 {
        let j = if i < p.len() {
            i
        } else {
            0
        };
        law_block_gives_best(p, user_key, max_seq, j);
        assert(p[j] == s[j]);
        if let Some(r) = b {
            let k = choose|k: int| 0 <= k < p.len() && p[k] == r;
            assert(s[k] == r);
            if i < p.len() && key::key_lt(s[i].0, l.0) && key::key_lt(l.0, r.0) {
                key::law_key_order_transitive(s[i].0, l.0, r.0);
            }
        }
    }
    assert(s.contains(l));
}

} // verus!

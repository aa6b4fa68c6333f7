//! Sources that agree with each other, and what a reader who asks them in turn finds.

use crate::iter;
use crate::key::Record;
use crate::model;
use crate::tree;
use vstd::prelude::*;

verus! {

/// Where two sources hold a version that a reader sees, the first of them holds the newer one.
pub open spec fn newest_first_at(ss: Seq<Seq<Record>>, user_key: Seq<u8>, max_seq: u64) -> bool {
    forall|i: int, j: int|
        0 <= i < j < ss.len() && model::find(#[trigger] ss[i], user_key, max_seq) is Some
            && model::find(#[trigger] ss[j], user_key, max_seq) is Some ==> model::find(
            ss[i],
            user_key,
            max_seq,
        )->Some_0.0.seq >= model::find(ss[j], user_key, max_seq)->Some_0.0.seq
}

/// Newer versions come first, whatever the key and whatever the reader sees.
pub open spec fn newest_first(ss: Seq<Seq<Record>>) -> bool {
    forall|user_key: Seq<u8>, max_seq: u64| #[trigger] newest_first_at(ss, user_key, max_seq)
}

/// Two records are the same, or differ in user key or in sequence number.
pub open spec fn compatible(a: Record, b: Record) -> bool {
    a.0.user_key == b.0.user_key && a.0.seq == b.0.seq ==> a == b
}

/// A user key and a sequence number name one record.
pub open spec fn agree(ss: Seq<Seq<Record>>) -> bool {
    forall|a: Record, b: Record| #[trigger]
        iter::held(ss, a) && #[trigger] iter::held(ss, b) ==> compatible(a, b)
}

/// Every source is sorted, newer versions come first, and a user key and a sequence number name one
/// record.
pub open spec fn coherent(ss: Seq<Seq<Record>>) -> bool {
    &&& iter::all_sorted(ss)
    &&& newest_first(ss)
    &&& agree(ss)
}

/// A record of a source is held.
pub proof fn lemma_held(ss: Seq<Seq<Record>>, i: int, j: int)
    requires
        0 <= i < ss.len(),
        0 <= j < ss[i].len(),
    ensures
        iter::held(ss, ss[i][j]),
{
    assert(ss[i].contains(ss[i][j]));
}

/// What a source finds is held, and is visible.
pub proof fn lemma_find_held(ss: Seq<Seq<Record>>, i: int, user_key: Seq<u8>, max_seq: u64)
    requires
        0 <= i < ss.len(),
        model::find(ss[i], user_key, max_seq) is Some,
    ensures
        iter::held(ss, model::find(ss[i], user_key, max_seq)->Some_0),
        model::visible(model::find(ss[i], user_key, max_seq)->Some_0, user_key, max_seq),
{
    let j = model::lemma_find_some(ss[i], user_key, max_seq);
    lemma_held(ss, i, j);
}

/// Which source decides a read.
pub proof fn lemma_read_source(ss: Seq<Seq<Record>>, user_key: Seq<u8>, max_seq: u64) -> (i: int)
    ensures
        match model::read(ss, user_key, max_seq) {
            None => forall|j: int|
                0 <= j < ss.len() ==> model::find(#[trigger] ss[j], user_key, max_seq) is None,
            Some(r) => {
                &&& 0 <= i < ss.len()
                &&& model::find(ss[i], user_key, max_seq) == Some(r)
                &&& forall|j: int|
                    0 <= j < i ==> model::find(#[trigger] ss[j], user_key, max_seq) is None
            },
        },
    decreases ss.len(),
{
    if ss.len() == 0 {
        0
    } else if model::find(ss[0], user_key, max_seq) is Some {
        0
    } else {
        let t = ss.skip(1);
        let k = lemma_read_source(t, user_key, max_seq);
        assert forall|j: int|
            0 <= j < ss.len() && (model::read(t, user_key, max_seq) is None || j
                < k + 1) implies model::find(#[trigger] ss[j], user_key, max_seq) is None by {
            if j > 0 {
                assert(ss[j] == t[j - 1]);
            }
        }
        if model::read(t, user_key, max_seq) is Some {
            assert(ss[k + 1] == t[k]);
        }
        k + 1
    }
}

/// A reader is told the newest of all versions that are held and that the reader sees.
pub proof fn law_read_is_newest(ss: Seq<Seq<Record>>, user_key: Seq<u8>, max_seq: u64)
    requires
        coherent(ss),
    ensures
        match model::read(ss, user_key, max_seq) {
            None => forall|x: Record| #[trigger]
                iter::held(ss, x) ==> !model::visible(x, user_key, max_seq),
            Some(r) => {
                &&& iter::held(ss, r)
                &&& model::visible(r, user_key, max_seq)
                &&& forall|x: Record| #[trigger]
                    iter::held(ss, x) && model::visible(x, user_key, max_seq) ==> x.0.seq
                        <= r.0.seq
            },
        },
{
    let i = lemma_read_source(ss, user_key, max_seq);
    let found = model::read(ss, user_key, max_seq);
    if found is Some {
        lemma_find_held(ss, i, user_key, max_seq);
    }
    assert forall|x: Record| #[trigger]
        iter::held(ss, x) && model::visible(x, user_key, max_seq) implies found is Some && x.0.seq
        <= found->Some_0.0.seq by {
        let a = choose|a: int| 0 <= a < ss.len() && (#[trigger] ss[a]).contains(x);
        let b = choose|b: int| 0 <= b < ss[a].len() && ss[a][b] == x;
        assert(model::sorted(ss[a]));
        model::law_find_is_newest(ss[a], user_key, max_seq, b);
        assert(newest_first_at(ss, user_key, max_seq));
        if a > i {
            assert(model::find(ss[i], user_key, max_seq)->Some_0.0.seq >= model::find(
                ss[a],
                user_key,
                max_seq,
            )->Some_0.0.seq);
        }
    }
}

/// What a reader is told depends on what is held, not on how it is spread over sources.
pub proof fn law_read_depends_on_contents(
    ss: Seq<Seq<Record>>,
    ts: Seq<Seq<Record>>,
    user_key: Seq<u8>,
    max_seq: u64,
)
    requires
        coherent(ss),
        coherent(ts),
        forall|x: Record|
            model::visible(x, user_key, max_seq) ==> (#[trigger] iter::held(ss, x) <==> iter::held(
                ts,
                x,
            )),
    ensures
        model::read(ss, user_key, max_seq) == model::read(ts, user_key, max_seq),
{
    law_read_is_newest(ss, user_key, max_seq);
    law_read_is_newest(ts, user_key, max_seq);
    let a = model::read(ss, user_key, max_seq);
    let b = model::read(ts, user_key, max_seq);
    if a is Some {
        assert(iter::held(ts, a->Some_0));
    }
    if b is Some {
        assert(iter::held(ss, b->Some_0));
    }
    if a is Some && b is Some {
        assert(compatible(a->Some_0, b->Some_0));
    }
}

/// A source that holds nothing changes nothing.
pub proof fn law_empty_source(
    a: Seq<Seq<Record>>,
    b: Seq<Seq<Record>>,
    user_key: Seq<u8>,
    max_seq: u64,
)
    ensures
        model::read(a + seq![Seq::<Record>::empty()] + b, user_key, max_seq) == model::read(
            a + b,
            user_key,
            max_seq,
        ),
{
    let e = Seq::<Record>::empty();
    tree::lemma_read_concat(a + seq![e], b, user_key, max_seq);
    tree::lemma_read_concat(a, seq![e], user_key, max_seq);
    tree::lemma_read_concat(a, b, user_key, max_seq);
    tree::lemma_read_one(e, user_key, max_seq);
}

/// A source that holds nothing keeps the sources coherent.
pub proof fn law_empty_source_coherent(a: Seq<Seq<Record>>, b: Seq<Seq<Record>>)
    ensures
        coherent(a + seq![Seq::<Record>::empty()] + b) <==> coherent(a + b),
{
    let e = Seq::<Record>::empty();
    let ss = a + seq![e] + b;
    let ts = a + b;
    let n = a.len() as int;
    assert(ss[n] == e);
    assert forall|i: int| 0 <= i < n implies #[trigger] ss[i] == ts[i] by {}
    assert forall|i: int| n < i < ss.len() implies #[trigger] ss[i] == ts[i - 1] by {}
    assert forall|i: int| n <= i < ts.len() implies #[trigger] ts[i] == ss[i + 1] by {}
    assert forall|x: Record| #[trigger] iter::held(ss, x) <==> iter::held(ts, x) by {
        if iter::held(ss, x) {
            let i = choose|i: int| 0 <= i < ss.len() && (#[trigger] ss[i]).contains(x);
            if i < n {
                assert(ts[i].contains(x));
            } else {
                assert(i != n);
                assert(ts[i - 1].contains(x));
            }
        }
        if iter::held(ts, x) {
            let i = choose|i: int| 0 <= i < ts.len() && (#[trigger] ts[i]).contains(x);
            if i < n {
                assert(ss[i].contains(x));
            } else {
                assert(ss[i + 1].contains(x));
            }
        }
    }
    if coherent(ss) {
        assert forall|i: int| 0 <= i < ts.len() implies model::sorted(#[trigger] ts[i]) by {
            if i < n {
                assert(model::sorted(ss[i]));
            } else {
                assert(model::sorted(ss[i + 1]));
            }
        }
        assert forall|k: Seq<u8>, m: u64| #[trigger] newest_first_at(ts, k, m) by {
            assert(newest_first_at(ss, k, m));
            assert forall|i: int, j: int|
                0 <= i < j < ts.len() && model::find(#[trigger] ts[i], k, m) is Some && model::find(
                    #[trigger] ts[j],
                    k,
                    m,
                ) is Some implies model::find(ts[i], k, m)->Some_0.0.seq >= model::find(
                ts[j],
                k,
                m,
            )->Some_0.0.seq by {
                let i2 = if i < n { i } else { i + 1 };
                let j2 = if j < n { j } else { j + 1 };
                assert(ss[i2] == ts[i] && ss[j2] == ts[j]);
            }
        }
        assert(agree(ts)) by {
            assert forall|x: Record, y: Record| #[trigger]
                iter::held(ts, x) && #[trigger] iter::held(ts, y) implies compatible(x, y) by {
                assert(iter::held(ss, x) && iter::held(ss, y));
            }
        }
    }
    if coherent(ts) {
        assert forall|i: int| 0 <= i < ss.len() implies model::sorted(#[trigger] ss[i]) by {
            if i < n {
                assert(model::sorted(ts[i]));
            } else if i > n {
                assert(model::sorted(ts[i - 1]));
            }
        }
        assert forall|k: Seq<u8>, m: u64| #[trigger] newest_first_at(ss, k, m) by {
            assert(newest_first_at(ts, k, m));
            assert(model::find(e, k, m) is None);
            assert forall|i: int, j: int|
                0 <= i < j < ss.len() && model::find(#[trigger] ss[i], k, m) is Some && model::find(
                    #[trigger] ss[j],
                    k,
                    m,
                ) is Some implies model::find(ss[i], k, m)->Some_0.0.seq >= model::find(
                ss[j],
                k,
                m,
            )->Some_0.0.seq by {
                assert(i != n && j != n);
                let i2 = if i < n { i } else { i - 1 };
                let j2 = if j < n { j } else { j - 1 };
                assert(ss[i] == ts[i2] && ss[j] == ts[j2]);
            }
        }
        assert(agree(ss)) by {
            assert forall|x: Record, y: Record| #[trigger]
                iter::held(ss, x) && #[trigger] iter::held(ss, y) implies compatible(x, y) by {
                assert(iter::held(ts, x) && iter::held(ts, y));
            }
        }
    }
}

} // verus!

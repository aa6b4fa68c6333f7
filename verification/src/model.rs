//! What a run of records means to a reader.

use crate::codec;
use crate::key;
use crate::key::{KeyView, Record, ValueKind};
use vstd::prelude::*;

verus! {

/// The records follow the order of their keys, and no key occurs twice.
pub open spec fn sorted(s: Seq<Record>) -> bool {
    forall|i: int, j: int| 0 <= i < j < s.len() ==> key::key_lt(#[trigger] s[i].0, #[trigger] s[j].0)
}

/// A version of `user_key` that a reader who sees sequence numbers up to `max_seq` may see.
pub open spec fn visible(r: Record, user_key: Seq<u8>, max_seq: u64) -> bool {
    r.0.user_key == user_key && r.0.seq <= max_seq
}

/// The first version of `user_key` in `s` that a reader up to `max_seq` may see.
pub open spec fn find(s: Seq<Record>, user_key: Seq<u8>, max_seq: u64) -> Option<Record>
    decreases s.len(),
{
    if s.len() == 0 {
        None
    } else if visible(s[0], user_key, max_seq) {
        Some(s[0])
    } else {
        find(s.skip(1), user_key, max_seq)
    }
}

/// The version of `user_key` in `s` that a reader up to `max_seq` may see and that comes first in
/// the order of keys; of several with one key, the one that stands first in `s`.
pub open spec fn best(s: Seq<Record>, user_key: Seq<u8>, max_seq: u64) -> Option<Record>
    decreases s.len(),
{
    if s.len() == 0 {
        None
    } else {
        match best(s.drop_last(), user_key, max_seq) {
            None => if visible(s.last(), user_key, max_seq) {
                Some(s.last())
            } else {
                None
            },
            Some(b) => if visible(s.last(), user_key, max_seq) && key::key_lt(s.last().0, b.0) {
                Some(s.last())
            } else {
                Some(b)
            },
        }
    }
}

/// What a reader is told about the version found: its value, or nothing for a tombstone.
pub open spec fn answer(found: Option<Record>) -> Option<Seq<u8>> {
    match found {
        Some(r) => match r.0.kind {
            ValueKind::Put => Some(r.1),
            ValueKind::Delete => None,
        },
        None => None,
    }
}

/// The first run, in the order in which they are probed, that holds a version decides.
pub open spec fn read(sources: Seq<Seq<Record>>, user_key: Seq<u8>, max_seq: u64) -> Option<Record>
    decreases sources.len(),
{
    if sources.len() == 0 {
        None
    } else {
        match find(sources[0], user_key, max_seq) {
            Some(r) => Some(r),
            None => read(sources.skip(1), user_key, max_seq),
        }
    }
}

/// `find` comes back empty exactly where no record is visible.
pub proof fn lemma_find_none(s: Seq<Record>, user_key: Seq<u8>, max_seq: u64)
    ensures
        find(s, user_key, max_seq) is None <==> (forall|i: int|
            0 <= i < s.len() ==> !visible(#[trigger] s[i], user_key, max_seq)),
    decreases s.len(),
{
    if s.len() > 0 {
        lemma_find_none(s.skip(1), user_key, max_seq);
        let t = s.skip(1);
        if find(t, user_key, max_seq) is None && !visible(s[0], user_key, max_seq) {
            assert forall|i: int| 0 <= i < s.len() implies !visible(
                #[trigger] s[i],
                user_key,
                max_seq,
            ) by {
                if i > 0 {
                    assert(s[i] == t[i - 1]);
                }
            }
        }
        if find(s, user_key, max_seq) is Some && !visible(s[0], user_key, max_seq) {
            let j = choose|j: int| 0 <= j < t.len() && visible(#[trigger] t[j], user_key, max_seq);
            assert(s[j + 1] == t[j]);
        }
    }
}

/// What `find` gives is a visible record of the run, and no record before it is visible.
pub proof fn lemma_find_some(s: Seq<Record>, user_key: Seq<u8>, max_seq: u64) -> (i: int)
    requires
        find(s, user_key, max_seq) is Some,
    ensures
        0 <= i < s.len(),
        find(s, user_key, max_seq) == Some(s[i]),
        visible(s[i], user_key, max_seq),
        forall|j: int| 0 <= j < i ==> !visible(#[trigger] s[j], user_key, max_seq),
    decreases s.len(),
{
    if visible(s[0], user_key, max_seq) {
        0
    } else {
        let t = s.skip(1);
        let k = lemma_find_some(t, user_key, max_seq);
        assert forall|j: int| 0 <= j < k + 1 implies !visible(#[trigger] s[j], user_key, max_seq) by {
            if j > 0 {
                assert(s[j] == t[j - 1]);
            }
        }
        k + 1
    }
}

/// The first visible record is what `find` gives.
pub proof fn lemma_find_at(s: Seq<Record>, user_key: Seq<u8>, max_seq: u64, i: int)
    requires
        0 <= i < s.len(),
        visible(s[i], user_key, max_seq),
        forall|j: int| 0 <= j < i ==> !visible(#[trigger] s[j], user_key, max_seq),
    ensures
        find(s, user_key, max_seq) == Some(s[i]),
{
    lemma_find_none(s, user_key, max_seq);
    let k = lemma_find_some(s, user_key, max_seq);
    if k < i {
        assert(!visible(s[k], user_key, max_seq));
    }
    if i < k {
        assert(!visible(s[i], user_key, max_seq));
    }
}

/// Looking through two runs in turn is looking through them joined.
pub proof fn lemma_find_concat(a: Seq<Record>, b: Seq<Record>, user_key: Seq<u8>, max_seq: u64)
    ensures
        find(a + b, user_key, max_seq) == (match find(a, user_key, max_seq) {
            Some(r) => Some(r),
            None => find(b, user_key, max_seq),
        }),
    decreases a.len(),
{
    if a.len() == 0 {
        assert(a + b =~= b);
    } else {
        lemma_find_concat(a.skip(1), b, user_key, max_seq);
        assert((a + b).skip(1) =~= a.skip(1) + b);
        assert((a + b)[0] == a[0]);
    }
}

/// In a sorted run the first visible version is the best one.
pub proof fn lemma_best_of_sorted(s: Seq<Record>, user_key: Seq<u8>, max_seq: u64)
    requires
        sorted(s),
    ensures
        best(s, user_key, max_seq) == find(s, user_key, max_seq),
    decreases s.len(),
{
    if s.len() > 0 {
        let p = s.drop_last();
        let l = s.last();
        assert(s =~= p + seq![l]);
        lemma_best_of_sorted(p, user_key, max_seq);
        lemma_find_concat(p, seq![l], user_key, max_seq);
        assert(seq![l].skip(1) =~= Seq::<Record>::empty());
        reveal_with_fuel(find, 2);
        if find(p, user_key, max_seq) is Some {
            let i = lemma_find_some(p, user_key, max_seq);
            assert(key::key_lt(s[i].0, s[s.len() - 1].0));
            key::law_key_order_asymmetric(s[i].0, l.0);
        }
    }
}

/// In a sorted run, what `find` gives is the newest of the versions that the reader may see.
pub proof fn law_find_is_newest(s: Seq<Record>, user_key: Seq<u8>, max_seq: u64, i: int)
    requires
        sorted(s),
        0 <= i < s.len(),
        visible(s[i], user_key, max_seq),
    ensures
        find(s, user_key, max_seq) is Some,
        find(s, user_key, max_seq)->Some_0.0.seq >= s[i].0.seq,
        s[i].0.seq == find(s, user_key, max_seq)->Some_0.0.seq ==> key::kind_code(
            find(s, user_key, max_seq)->Some_0.0.kind,
        ) >= key::kind_code(s[i].0.kind),
{
    lemma_find_none(s, user_key, max_seq);
    let k = lemma_find_some(s, user_key, max_seq);
    if k < i {
        assert(key::key_lt(s[k].0, s[i].0));
        codec::lemma_bytes_lt_irreflexive(user_key);
    }
    if i < k {
        assert(!visible(s[i], user_key, max_seq));
    }
}

/// Where a scan starts.
pub enum StartView {
    Included(Seq<u8>),
    Excluded(Seq<u8>),
    Unbounded,
}

/// A scan that starts at `start` comes past `user_key`.
pub open spec fn at_or_after(start: StartView, user_key: Seq<u8>) -> bool {
    match start {
        StartView::Included(k) => codec::bytes_le(k, user_key),
        StartView::Excluded(k) => codec::bytes_lt(k, user_key),
        StartView::Unbounded => true,
    }
}

/// A scan that starts at `start` and sees sequence numbers up to `max_seq` takes `r` into account.
pub open spec fn admits(start: StartView, max_seq: u64, r: Record) -> bool {
    r.0.seq <= max_seq && at_or_after(start, r.0.user_key)
}

/// The records that a scan takes into account.
pub open spec fn select(s: Seq<Record>, start: StartView, max_seq: u64) -> Seq<Record>
    decreases s.len(),
{
    if s.len() == 0 {
        Seq::empty()
    } else if admits(start, max_seq, s[0]) {
        seq![s[0]] + select(s.skip(1), start, max_seq)
    } else {
        select(s.skip(1), start, max_seq)
    }
}

/// The first record of each run of records with one user key; `last` is the user key of the run
/// that came before `s`.
pub open spec fn firsts(s: Seq<Record>, last: Option<Seq<u8>>) -> Seq<Record>
    decreases s.len(),
{
    if s.len() == 0 {
        Seq::empty()
    } else if last == Some(s[0].0.user_key) {
        firsts(s.skip(1), last)
    } else {
        seq![s[0]] + firsts(s.skip(1), Some(s[0].0.user_key))
    }
}

/// How many records of a sorted run come before `k`.
pub open spec fn position(s: Seq<Record>, k: KeyView) -> int
    decreases s.len(),
{
    if s.len() == 0 || !key::key_lt(s[0].0, k) {
        0
    } else {
        1 + position(s.skip(1), k)
    }
}

/// The sorted run `s` with the value of `k` set to `v`.
pub open spec fn with_record(s: Seq<Record>, k: KeyView, v: Seq<u8>) -> Seq<Record> {
    let p = position(s, k);
    if p < s.len() && s[p].0 == k {
        s.update(p, (k, v))
    } else {
        s.insert(p, (k, v))
    }
}

/// In a sorted run, `position` parts the records before `k` from the others.
pub proof fn lemma_position(s: Seq<Record>, k: KeyView)
    requires
        sorted(s),
    ensures
        0 <= position(s, k) <= s.len(),
        forall|i: int| 0 <= i < position(s, k) ==> key::key_lt(#[trigger] s[i].0, k),
        forall|i: int| position(s, k) <= i < s.len() ==> !key::key_lt(#[trigger] s[i].0, k),
    decreases s.len(),
{
    if s.len() > 0 {
        let t = s.skip(1);
        if key::key_lt(s[0].0, k) {
            assert(sorted(t)) by {
                assert forall|i: int, j: int| 0 <= i < j < t.len() implies key::key_lt(
                    #[trigger] t[i].0,
                    #[trigger] t[j].0,
                ) by {
                    assert(t[i] == s[i + 1] && t[j] == s[j + 1]);
                }
            }
            lemma_position(t, k);
            assert forall|i: int| 0 <= i < position(s, k) implies key::key_lt(
                #[trigger] s[i].0,
                k,
            ) by {
                if i > 0 {
                    assert(s[i] == t[i - 1]);
                }
            }
            assert forall|i: int| position(s, k) <= i < s.len() implies !key::key_lt(
                #[trigger] s[i].0,
                k,
            ) by {
                assert(s[i] == t[i - 1]);
            }
        } else {
            assert forall|i: int| 0 <= i < s.len() implies !key::key_lt(#[trigger] s[i].0, k) by {
                if i > 0 && key::key_lt(s[i].0, k) {
                    assert(key::key_lt(s[0].0, s[i].0));
                    key::law_key_order_transitive(s[0].0, s[i].0, k);
                }
            }
        }
    }
}

/// Whatever parts the records before `k` from the others is the position of `k`.
pub proof fn lemma_position_is(s: Seq<Record>, k: KeyView, p: int)
    requires
        sorted(s),
        0 <= p <= s.len(),
        forall|i: int| 0 <= i < p ==> key::key_lt(#[trigger] s[i].0, k),
        forall|i: int| p <= i < s.len() ==> !key::key_lt(#[trigger] s[i].0, k),
    ensures
        p == position(s, k),
{
    lemma_position(s, k);
    let q = position(s, k);
    if p < q {
        assert(key::key_lt(s[p].0, k));
    }
    if q < p {
        assert(key::key_lt(s[q].0, k));
    }
}

/// Setting a record keeps the run sorted, puts the record in, and leaves the others as they are.
pub proof fn lemma_with_record(s: Seq<Record>, k: KeyView, v: Seq<u8>)
    requires
        sorted(s),
    ensures
        sorted(with_record(s, k, v)),
        forall|r: Record| #[trigger]
            with_record(s, k, v).contains(r) <==> (r == (k, v) || (s.contains(r) && r.0 != k)),
{
    lemma_position(s, k);
    let p = position(s, k);
    let t = with_record(s, k, v);
    if p < s.len() && s[p].0 == k {
        assert forall|i: int, j: int| 0 <= i < j < t.len() implies key::key_lt(
            #[trigger] t[i].0,
            #[trigger] t[j].0,
        ) by {
            assert(key::key_lt(s[i].0, s[j].0));
            assert(t[i].0 == s[i].0 && t[j].0 == s[j].0);
        }
        assert forall|r: Record| #[trigger] t.contains(r) <==> (r == (k, v) || (s.contains(r)
            && r.0 != k)) by {
            if t.contains(r) {
                let i = choose|i: int| 0 <= i < t.len() && t[i] == r;
                if i != p {
                    assert(s[i] == r);
                    if i < p {
                        assert(key::key_lt(s[i].0, s[p].0));
                    } else {
                        assert(key::key_lt(s[p].0, s[i].0));
                    }
                    key::law_key_order_irreflexive(k);
                }
            }
            if r == (k, v) {
                assert(t[p] == r);
            }
            if s.contains(r) && r.0 != k {
                let i = choose|i: int| 0 <= i < s.len() && s[i] == r;
                assert(t[i] == r);
            }
        }
    } else {
        assert forall|i: int, j: int| 0 <= i < j < t.len() implies key::key_lt(
            #[trigger] t[i].0,
            #[trigger] t[j].0,
        ) by {
            if i < p && j < p {
                assert(key::key_lt(s[i].0, s[j].0));
            } else if i < p && j == p {
                assert(key::key_lt(s[i].0, k));
            } else if i < p {
                assert(key::key_lt(s[i].0, s[j - 1].0));
            } else if i == p {
                lemma_not_before(s, k, p, j - 1);
            } else {
                assert(key::key_lt(s[i - 1].0, s[j - 1].0));
            }
        }
        assert forall|r: Record| #[trigger] t.contains(r) <==> (r == (k, v) || (s.contains(r)
            && r.0 != k)) by {
            if t.contains(r) {
                let i = choose|i: int| 0 <= i < t.len() && t[i] == r;
                if i < p {
                    assert(s[i] == r);
                    key::law_key_order_irreflexive(k);
                } else if i > p {
                    assert(s[i - 1] == r);
                    lemma_not_before(s, k, p, i - 1);
                    key::law_key_order_irreflexive(k);
                }
            }
            if r == (k, v) {
                assert(t[p] == r);
            }
            if s.contains(r) && r.0 != k {
                let i = choose|i: int| 0 <= i < s.len() && s[i] == r;
                if i < p {
                    assert(t[i] == r);
                } else {
                    assert(t[i + 1] == r);
                }
            }
        }
    }
}

proof fn lemma_not_before(s: Seq<Record>, k: KeyView, p: int, i: int)
    requires
        sorted(s),
        p == position(s, k),
        p <= i < s.len(),
        s[p].0 != k,
    ensures
        key::key_lt(k, s[i].0),
{
    lemma_position(s, k);
    key::law_key_order_total(k, s[p].0);
    assert(!key::key_lt(s[p].0, k));
    if i > p {
        assert(key::key_lt(s[p].0, s[i].0));
        key::law_key_order_transitive(k, s[p].0, s[i].0);
    }
}

} // verus!

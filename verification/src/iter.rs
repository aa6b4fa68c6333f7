//! Merges sorted runs of records into one.

use crate::codec;
use crate::codec::bytes_equal;
use crate::key;
use crate::key::{copy_record, InternalKey, Record, ValueKind};
use crate::memtable;
use crate::memtable::MemTable;
use crate::model;
use crate::model::StartView;
use vstd::prelude::*;

verus! {

/// How many records the runs hold together.
pub open spec fn total(ps: Seq<Seq<Record>>) -> nat
    decreases ps.len(),
{
    if ps.len() == 0 {
        0
    } else {
        total(ps.drop_last()) + ps.last().len()
    }
}

/// The run whose first record comes first; of several, the first run. `None` if all are empty.
pub open spec fn least(ps: Seq<Seq<Record>>) -> Option<int>
    decreases ps.len(),
{
    if ps.len() == 0 {
        None
    } else {
        let b = least(ps.drop_last());
        if ps.last().len() == 0 {
            b
        } else {
            match b {
                None => Some(ps.len() - 1),
                Some(i) => if key::key_lt(ps.last()[0].0, ps[i][0].0) {
                    Some(ps.len() - 1)
                } else {
                    Some(i)
                },
            }
        }
    }
}

/// The runs without the first record of the `i`-th.
pub open spec fn without_head(ps: Seq<Seq<Record>>, i: int) -> Seq<Seq<Record>> {
    ps.update(i, ps[i].skip(1))
}

/// The runs merged: time and again the least of their first records.
pub open spec fn merged(ps: Seq<Seq<Record>>) -> Seq<Record>
    decreases total(ps),
    via merged_decreases
{
    match least(ps) {
        None => Seq::empty(),
        Some(i) => seq![ps[i][0]] + merged(without_head(ps, i)),
    }
}

#[via_fn]
proof fn merged_decreases(ps: Seq<Seq<Record>>) {
    lemma_least(ps);
    if let Some(i) = least(ps) {
        lemma_total_update(ps, i);
    }
}

/// One record less.
pub proof fn lemma_total_update(ps: Seq<Seq<Record>>, i: int)
    requires
        0 <= i < ps.len(),
        ps[i].len() > 0,
    ensures
        total(without_head(ps, i)) == total(ps) - 1,
    decreases ps.len(),
{
    let qs = without_head(ps, i);
    if i == ps.len() - 1 {
        assert(qs.drop_last() =~= ps.drop_last());
    } else {
        lemma_total_update(ps.drop_last(), i);
        assert(qs.drop_last() =~= without_head(ps.drop_last(), i));
        assert(qs.last() == ps.last());
    }
}

/// What `least` gives is a run that is not empty, and no first record comes before its own.
pub proof fn lemma_least(ps: Seq<Seq<Record>>)
    ensures
        match least(ps) {
            None => forall|j: int| 0 <= j < ps.len() ==> (#[trigger] ps[j]).len() == 0,
            Some(i) => {
                &&& 0 <= i < ps.len()
                &&& ps[i].len() > 0
                &&& forall|j: int|
                    0 <= j < ps.len() && (#[trigger] ps[j]).len() > 0 ==> !key::key_lt(
                        ps[j][0].0,
                        ps[i][0].0,
                    )
            },
        },
    decreases ps.len(),
{
    if ps.len() > 0 {
        let p = ps.drop_last();
        lemma_least(p);
        match least(p) {
            None => {
                assert forall|j: int| 0 <= j < ps.len() - 1 implies (#[trigger] ps[j]).len() == 0 by {
                    assert(ps[j] == p[j]);
                }
                if ps.last().len() > 0 {
                    key::law_key_order_irreflexive(ps.last()[0].0);
                }
            },
            Some(i) => {
                assert(p[i] == ps[i]);
                let l = ps.last();
                assert forall|j: int|
                    0 <= j < ps.len() && (#[trigger] ps[j]).len() > 0 implies !key::key_lt(
                    ps[j][0].0,
                    ps[least(ps)->Some_0][0].0,
                ) by {
                    if l.len() > 0 && key::key_lt(l[0].0, ps[i][0].0) {
                        if j < ps.len() - 1 {
                            assert(p[j] == ps[j]);
                            if key::key_lt(ps[j][0].0, l[0].0) {
                                key::law_key_order_transitive(ps[j][0].0, l[0].0, ps[i][0].0);
                            }
                        } else {
                            key::law_key_order_irreflexive(l[0].0);
                        }
                    } else {
                        if j < ps.len() - 1 {
                            assert(p[j] == ps[j]);
                        }
                    }
                }
            },
        }
    }
}

/// What a reader is told of the records of `s`: user key, and value or tombstone. Tombstones are
/// left out on request.
pub open spec fn told(s: Seq<Record>, skip_tombstones: bool) -> Seq<(Seq<u8>, Option<Seq<u8>>)>
    decreases s.len(),
{
    if s.len() == 0 {
        Seq::empty()
    } else if s[0].0.kind == ValueKind::Put {
        seq![(s[0].0.user_key, Some(s[0].1))] + told(s.skip(1), skip_tombstones)
    } else if skip_tombstones {
        told(s.skip(1), skip_tombstones)
    } else {
        seq![(s[0].0.user_key, None::<Seq<u8>>)] + told(s.skip(1), skip_tombstones)
    }
}

/// The records of each run that a reader up to `max_seq` sees.
pub open spec fn visible_runs(ps: Seq<Seq<Record>>, max_seq: u64) -> Seq<Seq<Record>> {
    Seq::new(ps.len(), |i: int| model::select(ps[i], StartView::Unbounded, max_seq))
}

/// What a run of stored runs says.
pub open spec fn runs_view(s: Seq<Vec<(InternalKey, Vec<u8>)>>) -> Seq<Seq<Record>> {
    Seq::new(s.len(), |i: int| key::records_view(s[i]@))
}

/// What a row says.
pub open spec fn row_view(r: (Vec<u8>, Option<Vec<u8>>)) -> (Seq<u8>, Option<Seq<u8>>) {
    (r.0@, memtable::option_view(r.1))
}

/// What a run of rows says.
pub open spec fn rows_view(s: Seq<(Vec<u8>, Option<Vec<u8>>)>) -> Seq<(Seq<u8>, Option<Seq<u8>>)> {
    Seq::new(s.len(), |i: int| row_view(s[i]))
}

/// Runs of records from which the first is taken time and again. Each run is kept back to front.
pub struct RunSet {
    runs: Vec<Vec<(InternalKey, Vec<u8>)>>,
}

impl RunSet {
    /// The records that are left of each run.
    pub closed spec fn runs(&self) -> Seq<Seq<Record>> {
        Seq::new(self.runs@.len(), |i: int| key::records_view(self.runs@[i]@).reverse())
    }

    /// A set of runs, each reduced to what a reader up to `max_seq` sees.
    pub fn new(streams: Vec<Vec<(InternalKey, Vec<u8>)>>, max_seq: u64) -> (s: Self)
        ensures
            s.runs() == visible_runs(runs_view(streams@), max_seq),
    {
        let ghost all = visible_runs(runs_view(streams@), max_seq);
        let ghost given = streams@;
        let mut streams = streams;
        let mut s = RunSet { runs: Vec::new() };
        let ghost mut done: int = 0;
        assert(s.runs() =~= all.take(0));
        assert(streams@ =~= given.skip(0));
        while streams.len() > 0
            invariant
                all == visible_runs(runs_view(given), max_seq),
                0 <= done <= given.len(),
                streams@ == given.skip(done),
                s.runs() == all.take(done),
            decreases streams@.len(),
        {
            let stream = streams.remove(0);
            assert(stream == given[done]);
            let kept = keep_visible(stream, max_seq);
            let ghost before = s.runs();
            s.runs.push(kept);
            proof {
                assert(s.runs() =~= before.push(all[done]));
                assert(all.take(done + 1) =~= all.take(done).push(all[done]));
                assert(streams@ =~= given.skip(done + 1));
                done = done + 1;
            }
        }
        assert(all.take(done) =~= all);
        s
    }

    /// Takes the least of the first records; says from which run it came.
    pub fn pop(&mut self) -> (r: Option<((InternalKey, Vec<u8>), usize)>)
        ensures
            match r {
                None => least(old(self).runs()) is None && final(self).runs() == old(self).runs(),
                Some((p, i)) => {
                    &&& least(old(self).runs()) == Some(i as int)
                    &&& i < old(self).runs().len()
                    &&& old(self).runs()[i as int].len() > 0
                    &&& key::record_view(p) == old(self).runs()[i as int][0]
                    &&& final(self).runs() == without_head(old(self).runs(), i as int)
                },
            },
    {
        let ghost all = self.runs();
        let n: usize = self.runs.len();
        let mut found: Option<usize> = None;
        let mut i: usize = 0;
        assert(all.take(0) =~= Seq::<Seq<Record>>::empty());
        while i < n
            invariant
                n == self.runs@.len(),
                all == self.runs(),
                i <= n,
                least(all.take(i as int)) == (match found {
                    None => None,
                    Some(b) => Some(b as int),
                }),
                match found {
                    None => true,
                    Some(b) => b < i && all[b as int].len() > 0,
                },
            decreases n - i,
        {
            proof {
                assert(all.take(i + 1).drop_last() =~= all.take(i as int));
                assert(all.take(i + 1).last() == all[i as int]);
                lemma_least(all.take(i as int));
            }
            let len: usize = self.runs[i].len();
            assert(all[i as int].len() == len);
            if len > 0 {
                let better: bool = match found {
                    None => true,
                    Some(b) => {
                        let blen: usize = self.runs[b].len();
                        assert(all[b as int].len() == blen);
                        assert(all[b as int][0] == key::record_view(
                            self.runs@[b as int]@[blen - 1],
                        ));
                        assert(all[i as int][0] == key::record_view(self.runs@[i as int]@[len - 1]));
                        self.runs[i][len - 1].0.precedes(&self.runs[b][blen - 1].0)
                    },
                };
                if better {
                    found = Some(i);
                }
            }
            i = i + 1;
        }
        assert(all.take(n as int) =~= all);
        match found {
            None => None,
            Some(b) => {
                let ghost was = self.runs@[b as int]@;
                let mut run: Vec<(InternalKey, Vec<u8>)> = Vec::new();
                core::mem::swap(&mut run, &mut self.runs[b]);
                let top = run.pop();
                core::mem::swap(&mut run, &mut self.runs[b]);
                proof {
                    assert(all[b as int].len() == was.len());
                    assert(self.runs@[b as int]@ =~= was.drop_last());
                    assert(key::records_view(was.drop_last()).reverse() =~= key::records_view(
                        was,
                    ).reverse().skip(1));
                    assert(self.runs() =~= without_head(all, b as int));
                }
                match top {
                    Some(p) => Some((p, b)),
                    None => None,
                }
            },
        }
    }
}

/// The records of `stream` that a reader up to `max_seq` sees, back to front.
fn keep_visible(stream: Vec<(InternalKey, Vec<u8>)>, max_seq: u64) -> (kept: Vec<
    (InternalKey, Vec<u8>),
>)
    ensures
        key::records_view(kept@).reverse() == model::select(
            key::records_view(stream@),
            StartView::Unbounded,
            max_seq,
        ),
{
    let ghost all = key::records_view(stream@);
    let ghost given = stream@;
    let mut left = stream;
    let mut kept: Vec<(InternalKey, Vec<u8>)> = Vec::new();
    assert(all.skip(all.len() as int) =~= Seq::<Record>::empty());
    assert(key::records_view(kept@).reverse() =~= Seq::<Record>::empty());
    assert(given.take(given.len() as int) =~= given);
    loop
        invariant
            all == key::records_view(given),
            given == stream@,
            left@.len() <= given.len(),
            left@ == given.take(left@.len() as int),
            key::records_view(kept@).reverse() == model::select(
                all.skip(left@.len() as int),
                StartView::Unbounded,
                max_seq,
            ),
        decreases left@.len(),
    {
        let ghost n = left@.len() as int;
        let ghost before = key::records_view(kept@).reverse();
        match left.pop() {
            None => {
                assert(all.skip(0) =~= all);
                return kept;
            },
            Some(p) => {
                proof {
                    assert(p == given[n - 1]);
                    assert(all.skip(n - 1)[0] == key::record_view(p));
                    assert(all.skip(n - 1).skip(1) =~= all.skip(n));
                    assert(left@ =~= given.take(n - 1));
                }
                if p.0.seq <= max_seq {
                    let ghost x = key::record_view(p);
                    kept.push(p);
                    assert(key::records_view(kept@).reverse() =~= seq![x] + before);
                }
            },
        }
    }
}

/// Merges multiple sorted iterators; prefers newer sources (lower source index) for same user key.
pub struct MergeIterator {
    heads: RunSet,
    last_user: Option<Vec<u8>>,
    skip_tombstones: bool,
}

impl MergeIterator {
    /// The rows that are still to come.
    pub closed spec fn rest(&self) -> Seq<(Seq<u8>, Option<Seq<u8>>)> {
        told(
            model::firsts(merged(self.heads.runs()), memtable::option_view(self.last_user)),
            self.skip_tombstones,
        )
    }

    pub fn from_sorted_streams(
        streams: Vec<Vec<(InternalKey, Vec<u8>)>>,
        max_seq: u64,
        skip_tombstones: bool,
    ) -> (it: Self)
        ensures
            it.rest() == told(
                model::firsts(merged(visible_runs(runs_view(streams@), max_seq)), None),
                skip_tombstones,
            ),
    {
        let heads = RunSet::new(streams, max_seq);
        Self { heads, last_user: None, skip_tombstones }
    }

    /// Merges memtables, newest first, and the entries of tables, newest first, behind them.
    pub fn from_mem_and_sst(
        mems: &Vec<&MemTable>,
        tables: Vec<Vec<(InternalKey, Vec<u8>)>>,
        max_seq: u64,
        skip_tombstones: bool,
    ) -> (it: Self)
        ensures
            it.rest() == told(
                model::firsts(
                    merged(visible_runs(mems_view(mems@) + runs_view(tables@), max_seq)),
                    None,
                ),
                skip_tombstones,
            ),
    {
        let mut streams: Vec<Vec<(InternalKey, Vec<u8>)>> = Vec::new();
        let ghost all = mems_view(mems@);
        let n: usize = mems.len();
        let mut i: usize = 0;
        assert(runs_view(streams@) =~= all.take(0));
        while i < n
            invariant
                n == mems@.len(),
                all == mems_view(mems@),
                i <= n,
                runs_view(streams@) == all.take(i as int),
            decreases n - i,
        {
            let copy = copy_records(mems[i].iter());
            let ghost before = runs_view(streams@);
            streams.push(copy);
            assert(runs_view(streams@) =~= before.push(all[i as int]));
            assert(all.take(i + 1) =~= all.take(i as int).push(all[i as int]));
            i = i + 1;
        }
        let mut tables = tables;
        let ghost before = streams@;
        let ghost more = tables@;
        streams.append(&mut tables);
        assert(all.take(n as int) =~= all);
        assert(runs_view(before + more) =~= runs_view(before) + runs_view(more));
        Self::from_sorted_streams(streams, max_seq, skip_tombstones)
    }

    pub fn next(&mut self) -> (r: Option<(Vec<u8>, Option<Vec<u8>>)>)
        ensures
            match r {
                Some(row) => old(self).rest().len() > 0 && old(self).rest()[0] == row_view(row)
                    && final(self).rest() == old(self).rest().skip(1),
                None => old(self).rest().len() == 0 && final(self).rest().len() == 0,
            },
    {
        let ghost goal = self.rest();
        loop
            invariant
                goal == old(self).rest(),
                goal == self.rest(),
            decreases total(self.heads.runs()),
        {
            let ghost runs = self.heads.runs();
            let ghost last = memtable::option_view(self.last_user);
            match self.heads.pop() {
                None => {
                    return None;
                },
                Some((item, i)) => {
                    let (k, v) = item;
                    let ghost x = (k@, v@);
                    let ghost more = merged(self.heads.runs());
                    proof {
                        lemma_total_update(runs, i as int);
                        assert(merged(runs) == seq![x] + more);
                        assert(merged(runs).skip(1) =~= more);
                    }
                    let repeated: bool = match &self.last_user {
                        None => false,
                        Some(u) => bytes_equal(u.as_slice(), k.user_key.as_slice()),
                    };
                    if repeated {
                        continue;
                    }
                    let user = crate::codec::copy_bytes(&k.user_key);
                    self.last_user = Some(user);
                    let ghost fs = model::firsts(more, Some(x.0.user_key));
                    proof {
                        assert(model::firsts(merged(runs), last) =~= seq![x] + fs);
                        assert((seq![x] + fs).skip(1) =~= fs);
                    }
                    match k.kind {
                        ValueKind::Delete => {
                            if self.skip_tombstones {
                                continue;
                            }
                            let row = (k.user_key, None);
                            assert(goal.skip(1) =~= self.rest());
                            return Some(row);
                        },
                        ValueKind::Put => {
                            let row = (k.user_key, Some(v));
                            assert(goal.skip(1) =~= self.rest());
                            return Some(row);
                        },
                    }
                },
            }
        }
    }

    /// The rows that are still to come, collected.
    pub fn collect(self) -> (v: Vec<(Vec<u8>, Option<Vec<u8>>)>)
        ensures
            rows_view(v@) == self.rest(),
    {
        let mut it = self;
        let ghost all = it.rest();
        let mut v: Vec<(Vec<u8>, Option<Vec<u8>>)> = Vec::new();
        assert(rows_view(v@) + all =~= all);
        loop
            invariant
                all == self.rest(),
                all == rows_view(v@) + it.rest(),
            decreases it.rest().len(),
        {
            let ghost rest = it.rest();
            match it.next() {
                None => {
                    assert(all =~= rows_view(v@));
                    return v;
                },
                Some(row) => {
                    let ghost seen = rows_view(v@);
                    let ghost x = row_view(row);
                    v.push(row);
                    assert(rows_view(v@) =~= seen.push(x));
                    assert(seen + rest =~= seen.push(x) + rest.skip(1));
                },
            }
        }
    }
}

/// What a run of memtables says.
pub open spec fn mems_view(mems: Seq<&MemTable>) -> Seq<Seq<Record>> {
    Seq::new(mems.len(), |i: int| mems[i]@)
}

/// A copy of a run of stored pairs.
pub fn copy_records(s: &Vec<(InternalKey, Vec<u8>)>) -> (c: Vec<(InternalKey, Vec<u8>)>)
    ensures
        key::records_view(c@) == key::records_view(s@),
{
    let mut c: Vec<(InternalKey, Vec<u8>)> = Vec::new();
    let ghost all = key::records_view(s@);
    let n: usize = s.len();
    let mut i: usize = 0;
    assert(key::records_view(c@) =~= all.take(0));
    while i < n
        invariant
            n == s@.len(),
            all == key::records_view(s@),
            i <= n,
            key::records_view(c@) == all.take(i as int),
        decreases n - i,
    {
        let ghost before = key::records_view(c@);
        let p = copy_record(&s[i]);
        c.push(p);
        assert(key::records_view(c@) =~= before.push(all[i as int]));
        assert(all.take(i + 1) =~= all.take(i as int).push(all[i as int]));
        i = i + 1;
    }
    assert(all.take(n as int) =~= all);
    c
}

/// Some run holds the record.
pub open spec fn held(ps: Seq<Seq<Record>>, r: Record) -> bool {
    exists|i: int| 0 <= i < ps.len() && (#[trigger] ps[i]).contains(r)
}

/// No record stands before one that comes before it.
pub open spec fn ordered(s: Seq<Record>) -> bool {
    forall|i: int, j: int| 0 <= i < j < s.len() ==> !key::key_lt((#[trigger] s[j]).0, (#[trigger] s[i]).0)
}

/// The user keys rise.
pub open spec fn keys_rise(s: Seq<Record>) -> bool {
    forall|i: int, j: int|
        0 <= i < j < s.len() ==> codec::bytes_lt(
            (#[trigger] s[i]).0.user_key,
            (#[trigger] s[j]).0.user_key,
        )
}

/// Every run is sorted.
pub open spec fn all_sorted(ps: Seq<Seq<Record>>) -> bool {
    forall|i: int| 0 <= i < ps.len() ==> model::sorted(#[trigger] ps[i])
}

/// Runs without the first record of one hold what they held, but for that record.
proof fn lemma_held_step(ps: Seq<Seq<Record>>, i: int, r: Record)
    requires
        0 <= i < ps.len(),
        ps[i].len() > 0,
    ensures
        held(ps, r) <==> (r == ps[i][0] || held(without_head(ps, i), r)),
{
    let qs = without_head(ps, i);
    let h = ps[i];
    if held(ps, r) {
        let a = choose|a: int| 0 <= a < ps.len() && (#[trigger] ps[a]).contains(r);
        if a != i {
            assert(qs[a] == ps[a]);
        } else {
            let b = choose|b: int| 0 <= b < h.len() && h[b] == r;
            if b > 0 {
                assert(qs[i] == h.skip(1));
                assert(h.skip(1)[b - 1] == r);
            }
        }
    }
    if r == h[0] {
        assert(ps[i].contains(r));
    }
    if held(qs, r) {
        let a = choose|a: int| 0 <= a < qs.len() && (#[trigger] qs[a]).contains(r);
        if a != i {
            assert(qs[a] == ps[a]);
        } else {
            let b = choose|b: int| 0 <= b < qs[i].len() && qs[i][b] == r;
            assert(h[b + 1] == r);
            assert(ps[i].contains(r));
        }
    }
}

/// Merging loses no record and adds none.
pub proof fn law_merge_keeps_records(ps: Seq<Seq<Record>>, r: Record)
    ensures
        merged(ps).contains(r) <==> held(ps, r),
    decreases total(ps),
{
    lemma_least(ps);
    match least(ps) {
        None => {
            if held(ps, r) {
                let a = choose|a: int| 0 <= a < ps.len() && (#[trigger] ps[a]).contains(r);
                assert(ps[a].len() > 0);
            }
        },
        Some(i) => {
            let qs = without_head(ps, i);
            lemma_total_update(ps, i);
            law_merge_keeps_records(qs, r);
            lemma_held_step(ps, i, r);
            let m = merged(qs);
            let all = seq![ps[i][0]] + m;
            assert(merged(ps) == all);
            if m.contains(r) {
                let b = choose|b: int| 0 <= b < m.len() && m[b] == r;
                assert(all[b + 1] == r);
            }
            if r == ps[i][0] {
                assert(all[0] == r);
            }
            if all.contains(r) && r != ps[i][0] {
                let b = choose|b: int| 0 <= b < all.len() && all[b] == r;
                assert(m[b - 1] == r);
            }
        },
    }
}

/// A sorted run is ordered, and stays so without its first record.
proof fn lemma_sorted_ordered(s: Seq<Record>)
    requires
        model::sorted(s),
    ensures
        ordered(s),
        s.len() > 0 ==> model::sorted(s.skip(1)),
{
    assert forall|i: int, j: int| 0 <= i < j < s.len() implies !key::key_lt(
        (#[trigger] s[j]).0,
        (#[trigger] s[i]).0,
    ) by {
        assert(key::key_lt(s[i].0, s[j].0));
        key::law_key_order_asymmetric(s[i].0, s[j].0);
    }
    if s.len() > 0 {
        let t = s.skip(1);
        assert forall|i: int, j: int| 0 <= i < j < t.len() implies key::key_lt(
            #[trigger] t[i].0,
            #[trigger] t[j].0,
        ) by {
            assert(t[i] == s[i + 1] && t[j] == s[j + 1]);
        }
    }
}

/// Merging sorted runs gives an ordered run.
pub proof fn law_merge_is_ordered(ps: Seq<Seq<Record>>)
    requires
        all_sorted(ps),
    ensures
        ordered(merged(ps)),
    decreases total(ps),
{
    lemma_least(ps);
    if let Some(i) = least(ps) {
        let qs = without_head(ps, i);
        lemma_total_update(ps, i);
        assert forall|a: int| 0 <= a < qs.len() implies model::sorted(#[trigger] qs[a]) by {
            lemma_sorted_ordered(ps[a]);
            if a != i {
                assert(qs[a] == ps[a]);
            }
        }
        law_merge_is_ordered(qs);
        let x = ps[i][0];
        let m = merged(qs);
        let all = seq![x] + m;
        assert(merged(ps) == all);
        assert forall|a: int, b: int| 0 <= a < b < all.len() implies !key::key_lt(
            (#[trigger] all[b]).0,
            (#[trigger] all[a]).0,
        ) by {
            if a > 0 {
                assert(all[a] == m[a - 1]);
                assert(all[b] == m[b - 1]);
            } else {
                let y = m[b - 1];
                assert(all[b] == y);
                assert(m.contains(y));
                law_merge_keeps_records(qs, y);
                lemma_held_step(ps, i, y);
                let c = choose|c: int| 0 <= c < ps.len() && (#[trigger] ps[c]).contains(y);
                let d = choose|d: int| 0 <= d < ps[c].len() && ps[c][d] == y;
                let h = ps[c][0];
                assert(!key::key_lt(h.0, x.0));
                key::law_key_order_irreflexive(x.0);
                if key::key_lt(y.0, x.0) {
                    if d > 0 {
                        assert(key::key_lt(ps[c][0].0, ps[c][d].0));
                        key::law_key_order_transitive(h.0, y.0, x.0);
                    }
                }
            }
        }
    }
}

/// Of a user key, the first record of the whole run is among the first records of its runs.
pub proof fn lemma_firsts_find(s: Seq<Record>, last: Option<Seq<u8>>, user_key: Seq<u8>)
    requires
        last != Some(user_key),
    ensures
        model::find(model::firsts(s, last), user_key, u64::MAX) == model::find(
            s,
            user_key,
            u64::MAX,
        ),
    decreases s.len(),
{
    if s.len() > 0 {
        let t = s.skip(1);
        let x = s[0];
        if last == Some(x.0.user_key) {
            lemma_firsts_find(t, last, user_key);
        } else {
            let f = model::firsts(t, Some(x.0.user_key));
            assert((seq![x] + f).skip(1) =~= f);
            assert((seq![x] + f)[0] == x);
            if x.0.user_key != user_key {
                lemma_firsts_find(t, Some(x.0.user_key), user_key);
            }
        }
    }
}

/// The first records of the runs of an ordered run are records of it, and their user keys rise.
pub proof fn lemma_firsts_rise(s: Seq<Record>, last: Option<Seq<u8>>)
    requires
        ordered(s),
        forall|i: int|
            0 <= i < s.len() ==> match last {
                Some(l) => codec::bytes_le(l, (#[trigger] s[i]).0.user_key),
                None => true,
            },
    ensures
        keys_rise(model::firsts(s, last)),
        forall|i: int|
            0 <= i < model::firsts(s, last).len() ==> s.contains(
                #[trigger] model::firsts(s, last)[i],
            ),
        forall|i: int|
            0 <= i < model::firsts(s, last).len() ==> match last {
                Some(l) => codec::bytes_lt(l, (#[trigger] model::firsts(s, last)[i]).0.user_key),
                None => true,
            },
    decreases s.len(),
{
    if s.len() > 0 {
        let t = s.skip(1);
        let x = s[0];
        assert(ordered(t)) by {
            assert forall|i: int, j: int| 0 <= i < j < t.len() implies !key::key_lt(
                (#[trigger] t[j]).0,
                (#[trigger] t[i]).0,
            ) by {
                assert(t[i] == s[i + 1] && t[j] == s[j + 1]);
            }
        }
        assert forall|i: int| 0 <= i < t.len() implies codec::bytes_le(
            x.0.user_key,
            (#[trigger] t[i]).0.user_key,
        ) by {
            assert(t[i] == s[i + 1]);
            assert(!key::key_lt(s[i + 1].0, s[0].0));
            codec::lemma_bytes_lt_total(x.0.user_key, t[i].0.user_key);
        }
        if last == Some(x.0.user_key) {
            lemma_firsts_rise(t, last);
            let f = model::firsts(t, last);
            assert forall|i: int| 0 <= i < f.len() implies s.contains(#[trigger] f[i]) by {
                lemma_skip_contains(s, f[i]);
            }
        } else {
            lemma_firsts_rise(t, Some(x.0.user_key));
            let f = model::firsts(t, Some(x.0.user_key));
            let all = seq![x] + f;
            assert(model::firsts(s, last) == all);
            assert forall|i: int| 0 <= i < all.len() implies s.contains(#[trigger] all[i]) by {
                if i > 0 {
                    assert(all[i] == f[i - 1]);
                    lemma_skip_contains(s, all[i]);
                } else {
                    assert(s[0] == all[0]);
                }
            }
            assert forall|i: int, j: int| 0 <= i < j < all.len() implies codec::bytes_lt(
                (#[trigger] all[i]).0.user_key,
                (#[trigger] all[j]).0.user_key,
            ) by {
                assert(all[j] == f[j - 1]);
                if i > 0 {
                    assert(all[i] == f[i - 1]);
                }
            }
            if let Some(l) = last {
                assert forall|i: int| 0 <= i < all.len() implies codec::bytes_lt(
                    l,
                    (#[trigger] all[i]).0.user_key,
                ) by {
                    assert(codec::bytes_le(l, s[0].0.user_key));
                    if i > 0 {
                        assert(all[i] == f[i - 1]);
                        codec::lemma_bytes_lt_transitive(l, x.0.user_key, all[i].0.user_key);
                    }
                }
            }
        }
    }
}

proof fn lemma_skip_contains(s: Seq<Record>, r: Record)
    requires
        s.len() > 0,
        s.skip(1).contains(r),
    ensures
        s.contains(r),
{
    let t = s.skip(1);
    let b = choose|b: int| 0 <= b < t.len() && t[b] == r;
    assert(s[b + 1] == r);
}

/// The newest version of each user key, in the order of the keys.
pub open spec fn newest(ps: Seq<Seq<Record>>) -> Seq<Record> {
    model::firsts(merged(ps), None)
}

/// Merging sorted runs and keeping the first record of each user key gives, in the order of the
/// keys, the newest version that any of the runs holds; of two with one sequence number the one
/// with the higher kind.
pub proof fn law_merge_keeps_newest(ps: Seq<Seq<Record>>, r: Record)
    requires
        all_sorted(ps),
        held(ps, r),
    ensures
        keys_rise(newest(ps)),
        ({
            let f = model::find(newest(ps), r.0.user_key, u64::MAX);
            &&& f is Some
            &&& held(ps, f->Some_0)
            &&& f->Some_0.0.seq >= r.0.seq
            &&& f->Some_0.0.seq == r.0.seq ==> key::kind_code(f->Some_0.0.kind) >= key::kind_code(
                r.0.kind,
            )
        }),
{
    let w = merged(ps);
    let k = r.0.user_key;
    law_merge_is_ordered(ps);
    law_merge_keeps_records(ps, r);
    lemma_firsts_rise(w, None);
    lemma_firsts_find(w, None, k);
    let b = choose|b: int| 0 <= b < w.len() && w[b] == r;
    model::lemma_find_none(w, k, u64::MAX);
    assert(model::visible(w[b], k, u64::MAX));
    let a = model::lemma_find_some(w, k, u64::MAX);
    assert(w.contains(w[a]));
    law_merge_keeps_records(ps, w[a]);
    codec::lemma_bytes_lt_irreflexive(k);
    if a < b {
        assert(!key::key_lt(w[b].0, w[a].0));
    }
}

/// What the newest versions hold comes from one of the runs.
pub proof fn lemma_newest_held(ps: Seq<Seq<Record>>, i: int)
    requires
        all_sorted(ps),
        0 <= i < newest(ps).len(),
    ensures
        held(ps, newest(ps)[i]),
        keys_rise(newest(ps)),
{
    law_merge_is_ordered(ps);
    lemma_firsts_rise(merged(ps), None);
    law_merge_keeps_records(ps, newest(ps)[i]);
}

} // verus!

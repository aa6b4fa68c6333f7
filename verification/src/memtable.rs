//! The memtable: a sorted run of records that absorbs writes.

use crate::codec;
use crate::codec::{bytes_equal, bytes_less, copy_bytes};
use crate::key;
use crate::key::{copy_record, InternalKey, KeyView, Record, ValueKind};
use crate::model;
use crate::model::StartView;
use vstd::prelude::*;

verus! {

/// A version of a user key: what was done, and the value.
#[derive(Debug)]
pub struct Entry {
    pub kind: ValueKind,
    pub value: Vec<u8>,
}

/// `e` is what a reader gets of the record `found`.
pub open spec fn entry_is(e: Option<Entry>, found: Option<Record>) -> bool {
    match e {
        Some(x) => found matches Some(r) && x.kind == r.0.kind && x.value@ == r.1,
        None => found is None,
    }
}

/// Where a scan starts.
#[derive(Debug, Clone, Copy)]
pub enum Bound<'a> {
    Included(&'a [u8]),
    Excluded(&'a [u8]),
    Unbounded,
}

/// What a bound says.
pub open spec fn start_view(b: Bound<'_>) -> StartView {
    match b {
        Bound::Included(k) => StartView::Included(k@),
        Bound::Excluded(k) => StartView::Excluded(k@),
        Bound::Unbounded => StartView::Unbounded,
    }
}

/// Whether a scan that starts at `start` comes past `user_key`.
pub fn is_at_or_after(start: &Bound<'_>, user_key: &[u8]) -> (r: bool)
    ensures
        r == model::at_or_after(start_view(*start), user_key@),
{
    match start {
        Bound::Included(k) => crate::codec::bytes_less_or_equal(k, user_key),
        Bound::Excluded(k) => bytes_less(k, user_key),
        Bound::Unbounded => true,
    }
}

/// Sorted records, no key twice.
#[derive(Debug)]
pub struct MemTable {
    entries: Vec<(InternalKey, Vec<u8>)>,
    approx_bytes: usize,
}

impl View for MemTable {
    type V = Seq<Record>;

    closed spec fn view(&self) -> Seq<Record> {
        key::records_view(self.entries@)
    }
}

impl Default for MemTable {
    fn default() -> (m: Self)
        ensures
            m.wf(),
            m@ == Seq::<Record>::empty(),
            m.size() == 0,
    {
        MemTable::new()
    }
}

impl MemTable {
    /// The records are sorted and no key occurs twice.
    pub open spec fn wf(&self) -> bool {
        model::sorted(self@)
    }

    /// Bytes that were put in, roughly.
    pub closed spec fn size(&self) -> usize {
        self.approx_bytes
    }

    pub fn new() -> (m: Self)
        ensures
            m.wf(),
            m@ == Seq::<Record>::empty(),
            m.size() == 0,
    {
        let m = Self { entries: Vec::new(), approx_bytes: 0 };
        assert(m@ =~= Seq::<Record>::empty());
        m
    }

    /// How many records come before `key`.
    fn lower_bound(&self, key: &InternalKey) -> (p: usize)
        requires
            self.wf(),
        ensures
            p == model::position(self@, key@),
            p <= self.entries@.len(),
    {
        let mut lo: usize = 0;
        let mut hi: usize = self.entries.len();
        while lo < hi
            invariant
                self.wf(),
                lo <= hi <= self.entries@.len(),
                forall|i: int| 0 <= i < lo ==> key::key_lt(#[trigger] self@[i].0, key@),
                forall|i: int| hi <= i < self@.len() ==> !key::key_lt(#[trigger] self@[i].0, key@),
            decreases hi - lo,
        {
            let mid: usize = lo + (hi - lo) / 2;
            let e = &self.entries[mid];
            assert(self@[mid as int].0 == e.0@);
            if e.0.precedes(key) {
                proof {
                    assert forall|i: int| 0 <= i < mid + 1 implies key::key_lt(
                        #[trigger] self@[i].0,
                        key@,
                    ) by {
                        if i < mid {
                            assert(key::key_lt(self@[i].0, self@[mid as int].0));
                            key::law_key_order_transitive(self@[i].0, e.0@, key@);
                        }
                    }
                }
                lo = mid + 1;
            } else {
                proof {
                    assert forall|i: int| mid <= i < self@.len() implies !key::key_lt(
                        #[trigger] self@[i].0,
                        key@,
                    ) by {
                        if i > mid && key::key_lt(self@[i].0, key@) {
                            assert(key::key_lt(self@[mid as int].0, self@[i].0));
                            key::law_key_order_transitive(e.0@, self@[i].0, key@);
                        }
                    }
                }
                hi = mid;
            }
        }
        proof {
            model::lemma_position_is(self@, key@, lo as int);
        }
        lo
    }

    pub fn put(&mut self, key: InternalKey, value: Vec<u8>)
        requires
            old(self).wf(),
        ensures
            final(self).wf(),
            final(self)@ == model::with_record(old(self)@, key@, value@),
            final(self).size() == old(self).size().wrapping_add(
                key@.user_key.len() as usize,
            ).wrapping_add(value@.len() as usize).wrapping_add(16),
    {
        let ghost before = self@;
        proof {
            model::lemma_with_record(before, key@, value@);
            model::lemma_position(before, key@);
        }
        self.approx_bytes = self.approx_bytes.wrapping_add(key.user_key.len()).wrapping_add(
            value.len(),
        ).wrapping_add(16);
        let p: usize = self.lower_bound(&key);
        let there: bool = p < self.entries.len() && self.entries[p].0.same(&key);
        let ghost rec = (key@, value@);
        if there {
            self.entries[p] = (key, value);
            assert(self@ =~= before.update(p as int, rec));
        } else {
            self.entries.insert(p, (key, value));
            assert(self@ =~= before.insert(p as int, rec));
        }
    }

    /// The newest version of `user_key` that a reader up to `max_seq` sees.
    pub fn get(&self, user_key: &[u8], max_seq: u64) -> (r: Option<Entry>)
        requires
            self.wf(),
        ensures
            entry_is(r, model::find(self@, user_key@, max_seq)),
    {
        let start = InternalKey {
            user_key: vstd::slice::slice_to_vec(user_key),
            seq: u64::MAX,
            kind: ValueKind::Put,
        };
        let mut i: usize = self.lower_bound(&start);
        proof {
            model::lemma_position(self@, start@);
            codec::lemma_bytes_lt_irreflexive(user_key@);
            assert forall|j: int| 0 <= j < i implies !model::visible(
                #[trigger] self@[j],
                user_key@,
                max_seq,
            ) by {
                assert(key::key_lt(self@[j].0, start@));
            }
            model::lemma_find_none(self@, user_key@, max_seq);
        }
        while i < self.entries.len()
            invariant
                self.wf(),
                i <= self.entries@.len(),
                start@ == (KeyView { user_key: user_key@, seq: u64::MAX, kind: ValueKind::Put }),
                forall|j: int|
                    0 <= j < i ==> !model::visible(#[trigger] self@[j], user_key@, max_seq),
                forall|j: int| i <= j < self@.len() ==> !key::key_lt(#[trigger] self@[j].0, start@),
            ensures
                forall|j: int|
                    0 <= j < self@.len() ==> !model::visible(
                        #[trigger] self@[j],
                        user_key@,
                        max_seq,
                    ),
            decreases self.entries@.len() - i,
        {
            let e = &self.entries[i];
            assert(self@[i as int] == key::record_view(*e));
            if !bytes_equal(e.0.user_key.as_slice(), user_key) {
                proof {
                    codec::lemma_bytes_lt_total(e.0.user_key@, user_key@);
                    assert(!key::key_lt(self@[i as int].0, start@));
                    assert forall|j: int| 0 <= j < self@.len() implies !model::visible(
                        #[trigger] self@[j],
                        user_key@,
                        max_seq,
                    ) by {
                        if j > i {
                            assert(key::key_lt(self@[i as int].0, self@[j].0));
                            codec::lemma_bytes_lt_asymmetric(user_key@, e.0.user_key@);
                        }
                    }
                }
                break;
            }
            if e.0.seq <= max_seq {
                proof {
                    model::lemma_find_at(self@, user_key@, max_seq, i as int);
                }
                return Some(Entry { kind: e.0.kind, value: copy_bytes(&e.1) });
            }
            i = i + 1;
        }
        proof {
            model::lemma_find_none(self@, user_key@, max_seq);
        }
        None
    }

    pub fn approx_bytes(&self) -> (n: usize)
        ensures
            n == self.size(),
    {
        self.approx_bytes
    }

    pub fn is_empty(&self) -> (r: bool)
        ensures
            r == (self@.len() == 0),
    {
        self.entries.len() == 0
    }

    pub fn len(&self) -> (n: usize)
        ensures
            n == self@.len(),
    {
        self.entries.len()
    }

    /// The records in order.
    pub fn iter(&self) -> (r: &Vec<(InternalKey, Vec<u8>)>)
        ensures
            key::records_view(r@) == self@,
    {
        &self.entries
    }

    /// The newest version that a reader up to `max_seq` sees of each user key from `start` on.
    pub fn range_from<'a>(&'a self, start: Bound<'_>, max_seq: u64) -> (it: MemTableIter<'a>)
        ensures
            it.rest() == model::firsts(model::select(self@, start_view(start), max_seq), None),
    {
        let (skip_key, exclude) = match start {
            Bound::Included(k) => (Some(vstd::slice::slice_to_vec(k)), false),
            Bound::Excluded(k) => (Some(vstd::slice::slice_to_vec(k)), true),
            Bound::Unbounded => (None, false),
        };
        let it = MemTableIter {
            entries: &self.entries,
            pos: 0,
            skip_key,
            exclude,
            max_seq,
            last_user: None,
        };
        assert(self@.skip(0) =~= self@);
        it
    }
}

/// Walks over the part of a memtable that a scan sees.
pub struct MemTableIter<'a> {
    entries: &'a Vec<(InternalKey, Vec<u8>)>,
    pos: usize,
    skip_key: Option<Vec<u8>>,
    exclude: bool,
    max_seq: u64,
    last_user: Option<Vec<u8>>,
}

/// What an optional byte string says.
pub open spec fn option_view(o: Option<Vec<u8>>) -> Option<Seq<u8>> {
    match o {
        Some(v) => Some(v@),
        None => None,
    }
}

impl<'a> MemTableIter<'a> {
    /// Where the walk starts.
    closed spec fn start(&self) -> StartView {
        match self.skip_key {
            None => StartView::Unbounded,
            Some(k) => if self.exclude {
                StartView::Excluded(k@)
            } else {
                StartView::Included(k@)
            },
        }
    }

    /// The records that are still to come.
    pub closed spec fn rest(&self) -> Seq<Record> {
        model::firsts(
            model::select(self.unread(), self.start(), self.max_seq),
            option_view(self.last_user),
        )
    }

    /// The records of the memtable that have not been looked at.
    closed spec fn unread(&self) -> Seq<Record> {
        if self.pos <= self.entries@.len() {
            key::records_view(self.entries@).skip(self.pos as int)
        } else {
            Seq::empty()
        }
    }

    fn takes(&self, e: &(InternalKey, Vec<u8>)) -> (r: bool)
        ensures
            r == model::admits(self.start(), self.max_seq, key::record_view(*e)),
    {
        if e.0.seq > self.max_seq {
            return false;
        }
        match &self.skip_key {
            None => true,
            Some(k) => if self.exclude {
                bytes_less(k.as_slice(), e.0.user_key.as_slice())
            } else {
                crate::codec::bytes_less_or_equal(k.as_slice(), e.0.user_key.as_slice())
            },
        }
    }

    pub fn next(&mut self) -> (r: Option<(InternalKey, Vec<u8>)>)
        ensures
            match r {
                Some(p) => old(self).rest().len() > 0 && old(self).rest()[0] == key::record_view(p)
                    && final(self).rest() == old(self).rest().skip(1),
                None => old(self).rest().len() == 0 && final(self).rest().len() == 0,
            },
    {
        let ghost before = self.rest();
        let ghost all = key::records_view(self.entries@);
        while self.pos < self.entries.len()
            invariant
                all == key::records_view(self.entries@),
                self.rest() == before,
                before == old(self).rest(),
            decreases self.entries@.len() - self.pos,
        {
            let e = &self.entries[self.pos];
            let ghost here = all.skip(self.pos as int);
            proof {
                assert(here[0] == key::record_view(*e));
                assert(here.skip(1) =~= all.skip(self.pos + 1));
            }
            if !self.takes(e) {
                self.pos = self.pos + 1;
                continue;
            }
            let ghost sel = model::select(here, self.start(), self.max_seq);
            let ghost more = model::select(here.skip(1), self.start(), self.max_seq);
            assert(sel.skip(1) =~= more);
            assert(sel[0] == here[0]);
            let repeated: bool = match &self.last_user {
                None => false,
                Some(u) => bytes_equal(u.as_slice(), e.0.user_key.as_slice()),
            };
            if repeated {
                self.pos = self.pos + 1;
                continue;
            }
            self.last_user = Some(copy_bytes(&e.0.user_key));
            self.pos = self.pos + 1;
            let out = copy_record(e);
            assert(self.rest() =~= before.skip(1));
            return Some(out);
        }
        assert(self.unread() =~= Seq::<Record>::empty());
        None
    }

    /// The records that are still to come, collected.
    pub fn collect(self) -> (v: Vec<(InternalKey, Vec<u8>)>)
        ensures
            key::records_view(v@) == self.rest(),
    {
        let mut it = self;
        let ghost all = it.rest();
        let mut v: Vec<(InternalKey, Vec<u8>)> = Vec::new();
        assert(key::records_view(v@) =~= Seq::<Record>::empty());
        assert(Seq::<Record>::empty() + all =~= all);
        loop
            invariant
                all == self.rest(),
                all == key::records_view(v@) + it.rest(),
            decreases it.rest().len(),
        {
            let ghost rest = it.rest();
            match it.next() {
                None => {
                    assert(all =~= key::records_view(v@));
                    return v;
                },
                Some(p) => {
                    let ghost seen = key::records_view(v@);
                    let ghost x = key::record_view(p);
                    v.push(p);
                    assert(key::records_view(v@) =~= seen.push(x));
                    assert(seen + rest =~= seen.push(x) + rest.skip(1));
                },
            }
        }
    }
}

} // verus!

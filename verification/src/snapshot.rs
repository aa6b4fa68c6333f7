//! Snapshots: reads as of a sequence number.

use vstd::prelude::*;

verus! {

/// Active read snapshot: reads only see seq <= seq.
#[derive(Debug)]
pub struct Snapshot {
    pub seq: u64,
}

/// The sequence numbers of the snapshots that are open.
#[derive(Debug)]
pub struct SnapshotTracker {
    active: Vec<u64>,
}

impl View for SnapshotTracker {
    type V = Seq<u64>;

    closed spec fn view(&self) -> Seq<u64> {
        self.active@
    }
}

/// The least sequence number of the open snapshots, or the largest there is if none is open.
pub open spec fn watermark_of(active: Seq<u64>) -> u64
    decreases active.len(),
{
    if active.len() == 0 {
        u64::MAX
    } else {
        let w = watermark_of(active.drop_last());
        if active.last() < w {
            active.last()
        } else {
            w
        }
    }
}

/// Where `seq` stands first from position `from` on; the length if it does not.
pub open spec fn first_at(active: Seq<u64>, seq: u64, from: int) -> int
    decreases active.len() - from,
{
    if from >= active.len() || active[from] == seq {
        from
    } else {
        first_at(active, seq, from + 1)
    }
}

/// The open snapshots after one at `seq` has been closed: the last one takes its place.
pub open spec fn released(active: Seq<u64>, seq: u64) -> Seq<u64> {
    let i = first_at(active, seq, 0);
    if i < active.len() {
        active.update(i, active.last()).drop_last()
    } else {
        active
    }
}

impl Default for SnapshotTracker {
    fn default() -> (t: Self)
        ensures
            t@ == Seq::<u64>::empty(),
    {
        SnapshotTracker::new()
    }
}

impl SnapshotTracker {
    pub fn new() -> (t: Self)
        ensures
            t@ == Seq::<u64>::empty(),
    {
        Self { active: Vec::new() }
    }

    /// Opens a snapshot at `seq`.
    pub fn create_snapshot(&mut self, seq: u64) -> (s: Snapshot)
        ensures
            s.seq == seq,
            final(self)@ == old(self)@.push(seq),
    {
        self.active.push(seq);
        Snapshot { seq }
    }

    /// Closes one snapshot at `seq`, if there is one.
    pub fn release(&mut self, seq: u64)
        ensures
            final(self)@ == released(old(self)@, seq),
    {
        let n: usize = self.active.len();
        let mut i: usize = 0;
        while i < n
            invariant
                n == self.active@.len(),
                self.active@ == old(self)@,
                i <= n,
                first_at(self.active@, seq, 0) == first_at(self.active@, seq, i as int),
            decreases n - i,
        {
            if self.active[i] == seq {
                self.active.swap_remove(i);
                assert(self@ =~= released(old(self)@, seq));
                return;
            }
            i = i + 1;
        }
    }

    /// Oldest active snapshot seq, or u64::MAX if none.
    pub fn watermark(&self) -> (w: u64)
        ensures
            w == watermark_of(self@),
    {
        let n: usize = self.active.len();
        let mut w: u64 = u64::MAX;
        let mut i: usize = 0;
        assert(self@.take(0) =~= Seq::<u64>::empty());
        while i < n
            invariant
                n == self.active@.len(),
                i <= n,
                w == watermark_of(self@.take(i as int)),
            decreases n - i,
        {
            proof {
                assert(self@.take(i + 1).drop_last() =~= self@.take(i as int));
                assert(self@.take(i + 1).last() == self.active@[i as int]);
            }
            let s: u64 = self.active[i];
            if s < w {
                w = s;
            }
            i = i + 1;
        }
        assert(self@.take(n as int) =~= self@);
        w
    }
}

/// No open snapshot is older than the watermark, and if one is open the watermark is that of an
/// open one.
pub proof fn law_watermark_is_oldest(active: Seq<u64>)
    ensures
        forall|i: int| 0 <= i < active.len() ==> watermark_of(active) <= #[trigger] active[i],
        active.len() > 0 ==> active.contains(watermark_of(active)),
        active.len() == 0 ==> watermark_of(active) == u64::MAX,
    decreases active.len(),
{
    if active.len() > 0 {
        let p = active.drop_last();
        law_watermark_is_oldest(p);
        let w = watermark_of(active);
        assert forall|i: int| 0 <= i < active.len() implies w <= #[trigger] active[i] by {
            if i < p.len() {
                assert(active[i] == p[i]);
            }
        }
        if w == active.last() {
            assert(active[active.len() - 1] == w);
        } else if p.len() > 0 {
            let i = choose|i: int| 0 <= i < p.len() && p[i] == w;
            assert(active[i] == w);
        } else {
            assert(active[0] == w);
        }
    }
}

proof fn lemma_first_at(active: Seq<u64>, seq: u64, from: int)
    requires
        0 <= from <= active.len(),
    ensures
        from <= first_at(active, seq, from) <= active.len(),
        first_at(active, seq, from) < active.len() ==> active[first_at(active, seq, from)] == seq,
        first_at(active, seq, from) == active.len() ==> forall|i: int|
            from <= i < active.len() ==> active[i] != seq,
    decreases active.len() - from,
{
    if from < active.len() && active[from] != seq {
        lemma_first_at(active, seq, from + 1);
    }
}

/// Closing a snapshot closes one of those at its sequence number, and leaves the others open.
pub proof fn law_release_closes_one(active: Seq<u64>, seq: u64)
    ensures
        active.contains(seq) ==> released(active, seq).to_multiset()
            == active.to_multiset().remove(seq),
        !active.contains(seq) ==> released(active, seq) == active,
{
    broadcast use vstd::seq_lib::group_to_multiset_ensures;

    lemma_first_at(active, seq, 0);
    let i = first_at(active, seq, 0);
    if i < active.len() {
        let last = active.last();
        let moved = active.update(i, last);
        assert(active[i] == seq);
        assert(active.contains(seq));
        assert(moved =~= moved.drop_last().push(last));
        assert(moved.to_multiset() =~= active.to_multiset().insert(last).remove(seq));
        assert(moved.drop_last().push(last).to_multiset()
            =~= moved.drop_last().to_multiset().insert(last));
        assert(active.to_multiset().count(seq) > 0);
        assert forall|v: u64| #[trigger] moved.drop_last().to_multiset().count(v)
            == active.to_multiset().remove(seq).count(v) by {
            let m = moved.drop_last().to_multiset();
            assert(m.insert(last).count(v) == active.to_multiset().insert(last).remove(seq).count(
                v,
            ));
        }
        assert(moved.drop_last().to_multiset() =~= active.to_multiset().remove(seq));
    } else if active.contains(seq) {
        let j = choose|j: int| 0 <= j < active.len() && active[j] == seq;
        assert(active[j] != seq);
    }
}

} // verus!

//! Data blocks and the index block of a table.

use crate::codec;
use crate::codec::{bytes_equal, bytes_less_or_equal, copy_range};
use crate::codec::{get_u32, get_u64, put_bytes, put_u32, put_u64};
use crate::error;
use crate::error::{corruption, Result};
use crate::key;
use crate::key::{InternalKey, Record};
use crate::model;
use vstd::prelude::*;

verus! {

/// An encoded internal key with its value, before they are laid out in a block.
pub type RawEntry = (Seq<u8>, Seq<u8>);

/// Layout of one entry: key length, key, value length, value.
pub open spec fn raw_entry_bytes(e: RawEntry) -> Seq<u8> {
    codec::le32(e.0.len() as u32) + e.0 + codec::le32(e.1.len() as u32) + e.1
}

/// Layout of a run of entries.
pub open spec fn raw_entries_bytes(s: Seq<RawEntry>) -> Seq<u8>
    decreases s.len(),
{
    if s.len() == 0 {
        Seq::empty()
    } else {
        raw_entries_bytes(s.drop_last()) + raw_entry_bytes(s.last())
    }
}

/// Layout of a block: the number of entries, then the entries.
pub open spec fn block_bytes(s: Seq<RawEntry>) -> Seq<u8> {
    codec::le32(s.len() as u32) + raw_entries_bytes(s)
}

/// Bytes that a run of entries takes in a block.
pub open spec fn raw_size(s: Seq<RawEntry>) -> nat
    decreases s.len(),
{
    if s.len() == 0 {
        0
    } else {
        raw_size(s.drop_last()) + s.last().0.len() + s.last().1.len() + 8
    }
}

/// What reading one entry at `offset` gives, and where the reader then stands.
pub open spec fn entry_step(data: Seq<u8>, offset: int) -> (Option<Record>, int) {
    if offset + 4 > data.len() {
        (None, offset)
    } else {
        let ik_len = codec::u32_at(data, offset) as int;
        let o1 = offset + 4;
        if o1 + ik_len + 4 > data.len() {
            (None, o1)
        } else {
            match key::decode_key(data.subrange(o1, o1 + ik_len)) {
                Err(_) => (None, o1),
                Ok(k) => {
                    let o2 = o1 + ik_len;
                    let v_len = codec::u32_at(data, o2) as int;
                    let o3 = o2 + 4;
                    if o3 + v_len > data.len() {
                        (None, o3)
                    } else {
                        (Some((k, data.subrange(o3, o3 + v_len))), o3 + v_len)
                    }
                },
            }
        }
    }
}

/// The entries that can be read from `offset` on, `remaining` of them at most, up to the first
/// that cannot be read.
pub open spec fn entries_from(data: Seq<u8>, offset: int, remaining: nat) -> Seq<Record>
    decreases remaining,
{
    if remaining == 0 {
        Seq::empty()
    } else {
        match entry_step(data, offset) {
            (None, _) => Seq::empty(),
            (Some(r), next) => seq![r] + entries_from(data, next, (remaining - 1) as nat),
        }
    }
}

/// How many entries a block claims to hold.
pub open spec fn block_count(data: Seq<u8>) -> nat {
    if data.len() >= 4 {
        codec::u32_at(data, 0) as nat
    } else {
        0
    }
}

/// The entries of a block.
pub open spec fn block_entries(data: Seq<u8>) -> Seq<Record> {
    entries_from(data, 4, block_count(data))
}

/// Uncompressed data block: [num:u32][entries...]
/// entry: [ik_len:u32][ik][v_len:u32][v]
#[derive(Debug)]
pub struct Block {
    data: Vec<u8>,
}

impl View for Block {
    type V = Seq<u8>;

    closed spec fn view(&self) -> Seq<u8> {
        self.data@
    }
}

impl Block {
    pub fn from_raw(data: Vec<u8>) -> (b: Self)
        ensures
            b@ == data@,
    {
        Self { data }
    }

    pub fn raw(&self) -> (data: &[u8])
        ensures
            data@ == self@,
    {
        self.data.as_slice()
    }

    /// The version of `user_key` in this block that a reader up to `max_seq` sees.
    pub fn get(&self, user_key: &[u8], max_seq: u64) -> (r: Option<(InternalKey, Vec<u8>)>)
        ensures
            match r {
                Some(p) => model::best(block_entries(self@), user_key@, max_seq) == Some(
                    key::record_view(p),
                ),
                None => model::best(block_entries(self@), user_key@, max_seq) is None,
            },
    {
        let mut best: Option<(InternalKey, Vec<u8>)> = None;
        let mut it = self.iter_entries();
        let ghost all = block_entries(self@);
        let ghost mut done: int = 0;
        let mut more: bool = true;
        assert(all.take(0) =~= Seq::<Record>::empty());
        assert(all.skip(0) =~= all);
        while more
            invariant
                all == block_entries(self@),
                it.wf(),
                0 <= done <= all.len(),
                more ==> it.rest() == all.skip(done),
                !more ==> done == all.len(),
                match best {
                    Some(p) => model::best(all.take(done), user_key@, max_seq) == Some(
                        key::record_view(p),
                    ),
                    None => model::best(all.take(done), user_key@, max_seq) is None,
                },
            decreases all.len() - done, (if more { 1int } else { 0int }),
        {
            match it.next() {
                None => {
                    more = false;
                },
                Some((ik, v)) => {
                    proof {
                        assert(all.skip(done)[0] == all[done]);
                        assert(all.take(done + 1).drop_last() =~= all.take(done));
                        assert(all.take(done + 1).last() == all[done]);
                        assert(all.skip(done).skip(1) =~= all.skip(done + 1));
                        done = done + 1;
                    }
                    if ik.seq <= max_seq && bytes_equal(ik.user_key.as_slice(), user_key) {
                        let better: bool = match &best {
                            None => true,
                            Some(b) => ik.precedes(&b.0),
                        };
                        if better {
                            best = Some((ik, v));
                        }
                    }
                },
            }
        }
        assert(all.take(done) =~= all);
        best
    }

    pub fn iter_entries(&self) -> (it: BlockEntryIter<'_>)
        ensures
            it.wf(),
            it.data() == self@,
            it.offset() == 4,
            it.remaining() == block_count(self@),
            it.rest() == block_entries(self@),
    {
        let num: usize = if self.data.len() >= 4 {
            get_u32(self.data.as_slice(), 0) as usize
        } else {
            0
        };
        BlockEntryIter { data: self.data.as_slice(), offset: 4, remaining: num }
    }
}

/// Reads the entries of a block one after another.
pub struct BlockEntryIter<'a> {
    data: &'a [u8],
    offset: usize,
    remaining: usize,
}

impl<'a> BlockEntryIter<'a> {
    /// The bytes of the block.
    pub closed spec fn data(&self) -> Seq<u8> {
        self.data@
    }

    /// Where the next entry starts.
    pub closed spec fn offset(&self) -> int {
        self.offset as int
    }

    /// How many entries are still to come, by the count at the head of the block.
    pub closed spec fn remaining(&self) -> nat {
        self.remaining as nat
    }

    /// The reader stands inside the block, or has nothing to read.
    pub open spec fn wf(&self) -> bool {
        self.remaining() > 0 ==> 0 <= self.offset() <= self.data().len()
    }

    /// The entries that are still to come.
    pub open spec fn rest(&self) -> Seq<Record> {
        entries_from(self.data(), self.offset(), self.remaining())
    }

    pub fn next(&mut self) -> (r: Option<(InternalKey, Vec<u8>)>)
        requires
            old(self).wf(),
        ensures
            final(self).wf(),
            final(self).data() == old(self).data(),
            old(self).remaining() == 0 ==> {
                &&& r is None
                &&& final(self).offset() == old(self).offset()
                &&& final(self).remaining() == 0
            },
            old(self).remaining() > 0 ==> {
                let (rec, next) = entry_step(old(self).data(), old(self).offset());
                &&& final(self).offset() == next
                &&& match r {
                    Some(p) => rec == Some(key::record_view(p)) && final(self).remaining()
                        == old(self).remaining() - 1,
                    None => rec is None && final(self).remaining() == old(self).remaining(),
                }
            },
            match r {
                Some(p) => old(self).rest().len() > 0 && old(self).rest()[0] == key::record_view(p)
                    && final(self).rest() == old(self).rest().skip(1),
                None => old(self).rest().len() == 0,
            },
    {
        let ghost before = *self;
        if self.remaining == 0 {
            return None;
        }
        let len: usize = self.data.len();
        if len - self.offset < 4 {
            return None;
        }
        let ik_len: usize = get_u32(self.data, self.offset) as usize;
        self.offset = self.offset + 4;
        if len - self.offset < 4 || len - self.offset - 4 < ik_len {
            return None;
        }
        let start: usize = self.offset;
        let ik = match InternalKey::decode(
            vstd::slice::slice_subrange(self.data, start, start + ik_len),
        ) {
            Err(_) => {
                return None;
            },
            Ok(k) => k,
        };
        self.offset = start + ik_len;
        let v_len: usize = get_u32(self.data, self.offset) as usize;
        self.offset = self.offset + 4;
        if len - self.offset < v_len {
            return None;
        }
        let v: Vec<u8> = copy_range(self.data, self.offset, self.offset + v_len);
        self.offset = self.offset + v_len;
        self.remaining = self.remaining - 1;
        assert(self.rest() =~= before.rest().skip(1));
        Some((ik, v))
    }
}

/// Collects entries and lays them out as a block.
#[derive(Debug)]
pub struct BlockBuilder {
    entries: Vec<(Vec<u8>, Vec<u8>)>,
    size: usize,
}

/// What a collected entry says.
pub open spec fn raw_view(e: (Vec<u8>, Vec<u8>)) -> RawEntry {
    (e.0@, e.1@)
}

/// `n`, or the largest `usize` where `n` is beyond it.
pub open spec fn capped(n: nat) -> usize {
    if n <= usize::MAX {
        n as usize
    } else {
        usize::MAX
    }
}

impl View for BlockBuilder {
    type V = Seq<RawEntry>;

    closed spec fn view(&self) -> Seq<RawEntry> {
        Seq::new(self.entries@.len(), |i: int| raw_view(self.entries@[i]))
    }
}

impl Default for BlockBuilder {
    fn default() -> (b: Self)
        ensures
            b.wf(),
            b@ == Seq::<RawEntry>::empty(),
    {
        BlockBuilder::new()
    }
}

impl BlockBuilder {
    /// The running size is that of the entries.
    pub closed spec fn wf(&self) -> bool {
        self.size == capped(raw_size(self@))
    }

    pub fn new() -> (b: Self)
        ensures
            b.wf(),
            b@ == Seq::<RawEntry>::empty(),
    {
        let b = Self { entries: Vec::new(), size: 0 };
        assert(b@ =~= Seq::<RawEntry>::empty());
        b
    }

    pub fn add(&mut self, ikey: &[u8], value: &[u8])
        requires
            old(self).wf(),
        ensures
            final(self).wf(),
            final(self)@ == old(self)@.push((ikey@, value@)),
    {
        let ghost before = self@;
        self.size = self.size.saturating_add(ikey.len()).saturating_add(value.len()).saturating_add(
            8,
        );
        self.entries.push(
            (vstd::slice::slice_to_vec(ikey), vstd::slice::slice_to_vec(value)),
        );
        assert(self@ =~= before.push((ikey@, value@)));
        assert(self@.drop_last() =~= before);
    }

    /// Bytes that the entries will take, not counting the count at the head of the block.
    pub fn estimated_size(&self) -> (n: usize)
        requires
            self.wf(),
        ensures
            n == capped(raw_size(self@)),
    {
        self.size
    }

    pub fn is_empty(&self) -> (r: bool)
        ensures
            r == (self@.len() == 0),
    {
        self.entries.len() == 0
    }

    pub fn finish(self) -> (b: Block)
        ensures
            b@ == block_bytes(self@),
    {
        let mut data: Vec<u8> = Vec::new();
        put_u32(&mut data, self.entries.len() as u32);
        let ghost all = self@;
        let ghost head = codec::le32(all.len() as u32);
        let n: usize = self.entries.len();
        let mut i: usize = 0;
        assert(all.take(0) =~= Seq::<RawEntry>::empty());
        assert(data@ =~= head + raw_entries_bytes(all.take(0)));
        while i < n
            invariant
                n == self.entries@.len(),
                all == self@,
                i <= n,
                data@ == head + raw_entries_bytes(all.take(i as int)),
            decreases n - i,
        {
            let ghost before = data@;
            let e = &self.entries[i];
            put_u32(&mut data, e.0.len() as u32);
            put_bytes(&mut data, e.0.as_slice());
            put_u32(&mut data, e.1.len() as u32);
            put_bytes(&mut data, e.1.as_slice());
            proof {
                assert(all.take(i + 1).drop_last() =~= all.take(i as int));
                assert(all.take(i + 1).last() == raw_view(*e));
                assert(data@ =~= before + raw_entry_bytes(raw_view(*e)));
                assert(data@ =~= head + raw_entries_bytes(all.take(i + 1)));
            }
            i = i + 1;
        }
        assert(all.take(n as int) =~= all);
        Block { data }
    }
}

/// An index entry: the last encoded key of a block, where the block starts, how long it is.
pub type IndexEntry = (Seq<u8>, u64, u32);

/// Layout of one index entry.
pub open spec fn index_entry_bytes(e: IndexEntry) -> Seq<u8> {
    codec::le32(e.0.len() as u32) + e.0 + codec::le64(e.1) + codec::le32(e.2)
}

/// Layout of a run of index entries.
pub open spec fn index_entries_bytes(s: Seq<IndexEntry>) -> Seq<u8>
    decreases s.len(),
{
    if s.len() == 0 {
        Seq::empty()
    } else {
        index_entries_bytes(s.drop_last()) + index_entry_bytes(s.last())
    }
}

/// Layout of an index block: the number of entries, then the entries.
pub open spec fn index_bytes(s: Seq<IndexEntry>) -> Seq<u8> {
    codec::le32(s.len() as u32) + index_entries_bytes(s)
}

/// `n` index entries read from offset `o` on, or why they cannot be read.
pub open spec fn index_from(data: Seq<u8>, o: int, n: nat) -> std::result::Result<
    Seq<IndexEntry>,
    Seq<char>,
>
    decreases n,
{
    if n == 0 {
        Ok(Seq::empty())
    } else if o + 4 > data.len() {
        Err("index truncated"@)
    } else {
        let klen = codec::u32_at(data, o) as int;
        let o1 = o + 4;
        if o1 + klen + 8 + 4 > data.len() {
            Err("index entry truncated"@)
        } else {
            let e = (
                data.subrange(o1, o1 + klen),
                codec::u64_at(data, o1 + klen),
                codec::u32_at(data, o1 + klen + 8),
            );
            match index_from(data, o1 + klen + 12, (n - 1) as nat) {
                Err(m) => Err(m),
                Ok(rest) => Ok(seq![e] + rest),
            }
        }
    }
}

/// The index that `data` encodes, or why it encodes none.
pub open spec fn decode_index(data: Seq<u8>) -> std::result::Result<Seq<IndexEntry>, Seq<char>> {
    if data.len() < 4 {
        Err("index too short"@)
    } else {
        index_from(data, 4, codec::u32_at(data, 0) as nat)
    }
}

/// The user key in a separator, which is an encoded key or, if shorter than a tag, a plain key.
pub open spec fn separator_user_key(sep: Seq<u8>) -> Seq<u8> {
    if sep.len() >= 8 {
        sep.take(sep.len() - 8)
    } else {
        sep
    }
}

/// The block to look into for `user_key`: the first whose separator is not below it, else the last.
pub open spec fn block_for(s: Seq<IndexEntry>, user_key: Seq<u8>) -> Option<(u64, u32)>
    decreases s.len(),
{
    if s.len() == 0 {
        None
    } else if s.len() == 1 || codec::bytes_le(user_key, separator_user_key(s[0].0)) {
        Some((s[0].1, s[0].2))
    } else {
        block_for(s.skip(1), user_key)
    }
}

/// Index block: sorted (separator_key, offset, length)
#[derive(Debug)]
pub struct IndexBlock {
    entries: Vec<(Vec<u8>, u64, u32)>,
}

/// What a stored index entry says.
pub open spec fn index_entry_view(e: (Vec<u8>, u64, u32)) -> IndexEntry {
    (e.0@, e.1, e.2)
}

/// What a run of stored index entries says.
pub open spec fn index_entries_view(s: Seq<(Vec<u8>, u64, u32)>) -> Seq<IndexEntry> {
    Seq::new(s.len(), |i: int| index_entry_view(s[i]))
}

impl View for IndexBlock {
    type V = Seq<IndexEntry>;

    closed spec fn view(&self) -> Seq<IndexEntry> {
        index_entries_view(self.entries@)
    }
}

impl IndexBlock {
    pub fn encode(&self) -> (data: Vec<u8>)
        ensures
            data@ == index_bytes(self@),
    {
        let mut data: Vec<u8> = Vec::new();
        put_u32(&mut data, self.entries.len() as u32);
        let ghost all = self@;
        let ghost head = codec::le32(all.len() as u32);
        let n: usize = self.entries.len();
        let mut i: usize = 0;
        assert(all.take(0) =~= Seq::<IndexEntry>::empty());
        assert(data@ =~= head + index_entries_bytes(all.take(0)));
        while i < n
            invariant
                n == self.entries@.len(),
                all == self@,
                i <= n,
                data@ == head + index_entries_bytes(all.take(i as int)),
            decreases n - i,
        {
            let ghost before = data@;
            let e = &self.entries[i];
            put_u32(&mut data, e.0.len() as u32);
            put_bytes(&mut data, e.0.as_slice());
            put_u64(&mut data, e.1);
            put_u32(&mut data, e.2);
            proof {
                assert(all.take(i + 1).drop_last() =~= all.take(i as int));
                assert(all.take(i + 1).last() == index_entry_view(*e));
                assert(data@ =~= before + index_entry_bytes(index_entry_view(*e)));
                assert(data@ =~= head + index_entries_bytes(all.take(i + 1)));
            }
            i = i + 1;
        }
        assert(all.take(n as int) =~= all);
        data
    }

    pub fn decode(data: &[u8]) -> (r: Result<Self>)
        ensures
            match r {
                Ok(b) => decode_index(data@) == Ok::<Seq<IndexEntry>, Seq<char>>(b@),
                Err(e) => decode_index(data@) is Err && error::is_corruption(
                    e,
                    decode_index(data@)->Err_0,
                ),
            },
    {
        if data.len() < 4 {
            return Err(corruption("index too short"));
        }
        let n: usize = get_u32(data, 0) as usize;
        let len: usize = data.len();
        let mut o: usize = 4;
        let mut entries: Vec<(Vec<u8>, u64, u32)> = Vec::new();
        let mut i: usize = 0;
        assert(index_entries_view(entries@) =~= Seq::<IndexEntry>::empty());
        proof {
            if let Ok(rest) = index_from(data@, 4, n as nat) {
                assert(index_entries_view(entries@) + rest =~= rest);
            }
        }
        while i < n
            invariant
                len == data@.len(),
                4 <= o <= len,
                i <= n,
                n == codec::u32_at(data@, 0),
                len >= 4,
                match index_from(data@, o as int, (n - i) as nat) {
                    Ok(rest) => decode_index(data@) == Ok::<Seq<IndexEntry>, Seq<char>>(
                        index_entries_view(entries@) + rest,
                    ),
                    Err(m) => decode_index(data@) == Err::<Seq<IndexEntry>, Seq<char>>(m),
                },
            decreases n - i,
        {
            if len - o < 4 {
                return Err(corruption("index truncated"));
            }
            let klen: usize = get_u32(data, o) as usize;
            let o1: usize = o + 4;
            if len - o1 < 12 || len - o1 - 12 < klen {
                return Err(corruption("index entry truncated"));
            }
            let k: Vec<u8> = copy_range(data, o1, o1 + klen);
            let off: u64 = get_u64(data, o1 + klen);
            let blen: u32 = get_u32(data, o1 + klen + 8);
            let ghost before = index_entries_view(entries@);
            let ghost e = (k@, off, blen);
            entries.push((k, off, blen));
            proof {
                assert(index_entries_view(entries@) =~= before.push(e));
                if let Ok(rest) = index_from(data@, o1 + klen + 12, (n - i - 1) as nat) {
                    assert(before + (seq![e] + rest) =~= before.push(e) + rest);
                }
            }
            o = o1 + klen + 12;
            i = i + 1;
        }
        assert(index_entries_view(entries@) + Seq::<IndexEntry>::empty() =~= index_entries_view(
            entries@,
        ));
        Ok(Self { entries })
    }

    /// Where to look for `user_key`: offset and length of a block.
    pub fn find_block(&self, user_key: &[u8]) -> (r: Option<(u64, u32)>)
        ensures
            r == block_for(self@, user_key@),
    {
        let ghost all = self@;
        let n: usize = self.entries.len();
        let mut best: Option<(u64, u32)> = None;
        let mut i: usize = 0;
        assert(all.skip(0) =~= all);
        while i < n
            invariant
                n == self.entries@.len(),
                all == self@,
                i <= n,
                i < n ==> block_for(all, user_key@) == block_for(all.skip(i as int), user_key@),
                i == n ==> best == block_for(all, user_key@),
            decreases n - i,
        {
            let e = &self.entries[i];
            let sep_len: usize = if e.0.len() >= 8 {
                e.0.len() - 8
            } else {
                e.0.len()
            };
            let sep_user = vstd::slice::slice_subrange(e.0.as_slice(), 0, sep_len);
            assert(sep_user@ =~= separator_user_key(e.0@));
            assert(all.skip(i as int)[0] == index_entry_view(*e));
            assert(all.skip(i as int).skip(1) =~= all.skip(i + 1));
            best = Some((e.1, e.2));
            if bytes_less_or_equal(user_key, sep_user) {
                return best;
            }
            i = i + 1;
        }
        best
    }

    pub fn entries(&self) -> (r: &Vec<(Vec<u8>, u64, u32)>)
        ensures
            index_entries_view(r@) == self@,
    {
        &self.entries
    }

    pub fn push(&mut self, separator: Vec<u8>, offset: u64, length: u32)
        ensures
            final(self)@ == old(self)@.push((separator@, offset, length)),
    {
        let ghost before = self@;
        self.entries.push((separator, offset, length));
        assert(self@ =~= before.push((separator@, offset, length)));
    }

    pub fn new() -> (b: Self)
        ensures
            b@ == Seq::<IndexEntry>::empty(),
    {
        let b = Self { entries: Vec::new() };
        assert(b@ =~= Seq::<IndexEntry>::empty());
        b
    }
}

/// A record whose parts fit the length fields and the tag of the format.
pub open spec fn storable(r: Record) -> bool {
    &&& r.0.seq < key::SEQ_LIMIT
    &&& r.0.user_key.len() + 8 <= u32::MAX
    &&& r.1.len() <= u32::MAX
}

/// Every record of the run fits the format.
pub open spec fn all_storable(s: Seq<Record>) -> bool {
    forall|i: int| 0 <= i < s.len() ==> storable(#[trigger] s[i])
}

/// The entries that stand for a run of records.
pub open spec fn encode_records(s: Seq<Record>) -> Seq<RawEntry> {
    Seq::new(s.len(), |i: int| (key::encode_key(s[i].0), s[i].1))
}

/// The first of a run of entries stands in front.
pub proof fn lemma_raw_entries_front(s: Seq<RawEntry>)
    requires
        s.len() > 0,
    ensures
        raw_entries_bytes(s) == raw_entry_bytes(s[0]) + raw_entries_bytes(s.skip(1)),
    decreases s.len(),
{
    if s.len() == 1 {
        assert(s.drop_last() =~= Seq::<RawEntry>::empty());
        assert(s.skip(1) =~= Seq::<RawEntry>::empty());
        assert(raw_entries_bytes(s) =~= raw_entry_bytes(s[0]) + raw_entries_bytes(s.skip(1)));
    } else {
        lemma_raw_entries_front(s.drop_last());
        assert(s.drop_last().skip(1) =~= s.skip(1).drop_last());
        assert(raw_entries_bytes(s) =~= raw_entry_bytes(s[0]) + raw_entries_bytes(s.skip(1)));
    }
}

proof fn lemma_entry_step(data: Seq<u8>, offset: int, r: Record)
    requires
        storable(r),
        0 <= offset,
        ({
            let e = raw_entry_bytes((key::encode_key(r.0), r.1));
            offset + e.len() <= data.len() && data.subrange(offset, offset + e.len()) == e
        }),
    ensures
        entry_step(data, offset) == (
            Some(r),
            offset + raw_entry_bytes((key::encode_key(r.0), r.1)).len(),
        ),
{
    let ik = key::encode_key(r.0);
    let e = raw_entry_bytes((ik, r.1));
    let d = data.subrange(offset, offset + e.len());
    key::law_encode_decode(r.0);
    let n = ik.len() as int;
    let m = r.1.len() as int;
    assert(e.len() == 8 + n + m);
    assert(e.subrange(0, 4) =~= codec::le32(n as u32));
    assert(data.subrange(offset, offset + 4) =~= e.subrange(0, 4));
    codec::lemma_u32_at(data, offset, n as u32);
    assert(e.subrange(4, 4 + n) =~= ik);
    assert(data.subrange(offset + 4, offset + 4 + n) =~= e.subrange(4, 4 + n));
    assert(e.subrange(4 + n, 8 + n) =~= codec::le32(m as u32));
    assert(data.subrange(offset + 4 + n, offset + 8 + n) =~= e.subrange(4 + n, 8 + n));
    codec::lemma_u32_at(data, offset + 4 + n, m as u32);
    assert(e.subrange(8 + n, 8 + n + m) =~= r.1);
    assert(data.subrange(offset + 8 + n, offset + 8 + n + m) =~= e.subrange(8 + n, 8 + n + m));
}

proof fn lemma_entries_from(data: Seq<u8>, offset: int, s: Seq<Record>)
    requires
        all_storable(s),
        0 <= offset,
        ({
            let e = raw_entries_bytes(encode_records(s));
            offset + e.len() <= data.len() && data.subrange(offset, offset + e.len()) == e
        }),
    ensures
        entries_from(data, offset, s.len()) == s,
    decreases s.len(),
{
    if s.len() == 0 {
        assert(entries_from(data, offset, 0) =~= s);
    } else {
        let raw = encode_records(s);
        let e = raw_entries_bytes(raw);
        let first = raw_entry_bytes(raw[0]);
        let rest = s.skip(1);
        lemma_raw_entries_front(raw);
        assert(raw.skip(1) =~= encode_records(rest));
        let f = first.len() as int;
        assert(e.subrange(0, f) =~= first);
        assert(data.subrange(offset, offset + f) =~= e.subrange(0, f));
        lemma_entry_step(data, offset, s[0]);
        let tail = raw_entries_bytes(encode_records(rest));
        assert(e.subrange(f, e.len() as int) =~= tail);
        assert(data.subrange(offset + f, offset + f + tail.len()) =~= e.subrange(
            f,
            e.len() as int,
        ));
        assert(all_storable(rest)) by {
            assert forall|i: int| 0 <= i < rest.len() implies storable(#[trigger] rest[i]) by {
                assert(rest[i] == s[i + 1]);
            }
        }
        lemma_entries_from(data, offset + f, rest);
        assert(seq![s[0]] + rest =~= s);
    }
}

/// Reading a block gives back the records that it was built from.
pub proof fn law_block_round_trip(s: Seq<Record>)
    requires
        all_storable(s),
        s.len() <= u32::MAX,
    ensures
        block_entries(block_bytes(encode_records(s))) == s,
{
    let raw = encode_records(s);
    let data = block_bytes(raw);
    let body = raw_entries_bytes(raw);
    assert(data.subrange(0, 4) =~= codec::le32(s.len() as u32));
    codec::lemma_u32_at(data, 0, s.len() as u32);
    assert(data.subrange(4, 4int + body.len()) =~= body);
    lemma_entries_from(data, 4, s);
}

proof fn lemma_index_entries_front(s: Seq<IndexEntry>)
    requires
        s.len() > 0,
    ensures
        index_entries_bytes(s) == index_entry_bytes(s[0]) + index_entries_bytes(s.skip(1)),
    decreases s.len(),
{
    if s.len() == 1 {
        assert(s.drop_last() =~= Seq::<IndexEntry>::empty());
        assert(s.skip(1) =~= Seq::<IndexEntry>::empty());
        assert(index_entries_bytes(s) =~= index_entry_bytes(s[0]) + index_entries_bytes(s.skip(1)));
    } else {
        lemma_index_entries_front(s.drop_last());
        assert(s.drop_last().skip(1) =~= s.skip(1).drop_last());
        assert(index_entries_bytes(s) =~= index_entry_bytes(s[0]) + index_entries_bytes(s.skip(1)));
    }
}

proof fn lemma_index_step(data: Seq<u8>, o: int, e: IndexEntry)
    requires
        e.0.len() <= u32::MAX,
        0 <= o,
        o + index_entry_bytes(e).len() <= data.len(),
        data.subrange(o, o + index_entry_bytes(e).len()) == index_entry_bytes(e),
    ensures
        index_entry_bytes(e).len() == e.0.len() + 16,
        codec::u32_at(data, o) == e.0.len(),
        data.subrange(o + 4, o + 4 + e.0.len()) == e.0,
        codec::u64_at(data, o + 4 + e.0.len()) == e.1,
        codec::u32_at(data, o + 12 + e.0.len()) == e.2,
{
    let n = e.0.len() as int;
    let d = index_entry_bytes(e);
    assert(d.len() == n + 16);
    assert(d.subrange(0, 4) =~= codec::le32(n as u32));
    assert(data.subrange(o, o + 4) =~= d.subrange(0, 4));
    codec::lemma_u32_at(data, o, n as u32);
    assert(d.subrange(4, 4 + n) =~= e.0);
    assert(data.subrange(o + 4, o + 4 + n) =~= d.subrange(4, 4 + n));
    assert(d.subrange(4 + n, 12 + n) =~= codec::le64(e.1));
    assert(data.subrange(o + 4 + n, o + 12 + n) =~= d.subrange(4 + n, 12 + n));
    codec::lemma_u64_at(data, o + 4 + n, e.1);
    assert(d.subrange(12 + n, 16 + n) =~= codec::le32(e.2));
    assert(data.subrange(o + 12 + n, o + 16 + n) =~= d.subrange(12 + n, 16 + n));
    codec::lemma_u32_at(data, o + 12 + n, e.2);
}

proof fn lemma_index_from(data: Seq<u8>, o: int, s: Seq<IndexEntry>)
    requires
        forall|i: int| 0 <= i < s.len() ==> (#[trigger] s[i]).0.len() <= u32::MAX,
        0 <= o,
        o + index_entries_bytes(s).len() <= data.len(),
        data.subrange(o, o + index_entries_bytes(s).len()) == index_entries_bytes(s),
    ensures
        index_from(data, o, s.len()) == Ok::<Seq<IndexEntry>, Seq<char>>(s),
    decreases s.len(),
{
    if s.len() == 0 {
        assert(s =~= Seq::<IndexEntry>::empty());
    } else {
        let e = index_entries_bytes(s);
        let first = index_entry_bytes(s[0]);
        let rest = s.skip(1);
        let f = first.len() as int;
        let tail = index_entries_bytes(rest);
        lemma_index_entries_front(s);
        assert(data.subrange(o, o + f) =~= first) by {
            assert(e.subrange(0, f) =~= first);
            assert(data.subrange(o, o + e.len()).subrange(0, f) =~= data.subrange(o, o + f));
        }
        lemma_index_step(data, o, s[0]);
        assert(data.subrange(o + f, o + f + tail.len()) =~= tail) by {
            assert(e.subrange(f, e.len() as int) =~= tail);
            assert(data.subrange(o + f, o + f + tail.len()) =~= e.subrange(f, e.len() as int));
        }
        assert forall|i: int| 0 <= i < rest.len() implies (#[trigger] rest[i]).0.len()
            <= u32::MAX by {
            assert(rest[i] == s[i + 1]);
        }
        lemma_index_from(data, o + f, rest);
        assert(seq![s[0]] + rest =~= s);
    }
}

/// Decoding an encoded index gives the index back.
pub proof fn law_index_round_trip(s: Seq<IndexEntry>)
    requires
        s.len() <= u32::MAX,
        forall|i: int| 0 <= i < s.len() ==> (#[trigger] s[i]).0.len() <= u32::MAX,
    ensures
        decode_index(index_bytes(s)) == Ok::<Seq<IndexEntry>, Seq<char>>(s),
{
    let data = index_bytes(s);
    let body = index_entries_bytes(s);
    assert(data.subrange(0, 4) =~= codec::le32(s.len() as u32));
    codec::lemma_u32_at(data, 0, s.len() as u32);
    assert(data.subrange(4, 4int + body.len()) =~= body);
    lemma_index_from(data, 4, s);
}

} // verus!

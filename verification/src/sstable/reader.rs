//! Reads tables: which blocks to look into, and what they say.

use crate::codec;
use crate::codec::{bytes_less, copy_bytes, get_u32, get_u64};
use crate::error;
use crate::error::{corruption, Result};
use crate::key;
use crate::key::{InternalKey, Record, ValueKind};
use crate::memtable;
use crate::memtable::Entry;
use crate::model;
use crate::sstable::block;
use crate::sstable::block::{Block, IndexBlock, IndexEntry};
use crate::sstable::bloom;
use crate::sstable::bloom::{BloomFilter, BloomView};
use crate::sstable::builder::{FOOTER_SIZE, SST_MAGIC};
use std::collections::HashMap;
use std::sync::Arc;
use vstd::prelude::*;

verus! {

/// A block that has to be read: `len` bytes of a table file from `offset` on.
#[derive(Debug, Clone, Copy, PartialEq, Eq, Structural)]
pub struct BlockRead {
    pub file_num: u64,
    pub offset: u64,
    pub len: u32,
}

/// What each read gives.
pub type Disk = spec_fn(BlockRead) -> Seq<u8>;

/// The key under which the block of a file at an offset is cached.
pub open spec fn cache_key(file_num: u64, offset: u64) -> u128 {
    (file_num as u128 * 0x1_0000_0000_0000_0000u128 + offset as u128) as u128
}

/// Blocks that have been read, up to a number of them.
pub struct BlockCache {
    map: HashMap<u128, Arc<Block>>,
    capacity: usize,
}

impl BlockCache {
    /// The blocks in the cache, by file number and offset.
    pub closed spec fn blocks(&self) -> Map<(u64, u64), Arc<Block>> {
        Map::new(
            |p: (u64, u64)| self.map@.contains_key(cache_key(p.0, p.1)),
            |p: (u64, u64)| self.map@[cache_key(p.0, p.1)],
        )
    }

    /// How many blocks are in the cache.
    pub closed spec fn count(&self) -> nat {
        self.map@.len()
    }

    /// How many blocks the cache is meant to hold.
    pub closed spec fn limit(&self) -> usize {
        self.capacity
    }

    /// Every block is cached under a file number and an offset.
    pub closed spec fn wf(&self) -> bool {
        forall|k: u128| #[trigger]
            self.map@.contains_key(k) ==> exists|f: u64, o: u64| k == #[trigger] cache_key(f, o)
    }

    pub fn new(capacity: usize) -> (c: Self)
        ensures
            c.wf(),
            c.blocks() == Map::<(u64, u64), Arc<Block>>::empty(),
            c.count() == 0,
            c.limit() == capacity,
    {
        let c = Self { map: HashMap::new(), capacity };
        assert(c.blocks() =~= Map::<(u64, u64), Arc<Block>>::empty());
        c
    }

    pub fn get(&self, file_num: u64, offset: u64) -> (r: Option<Arc<Block>>)
        ensures
            match r {
                Some(b) => self.blocks().contains_key((file_num, offset)) && b == self.blocks()[(
                    file_num,
                    offset,
                )],
                None => !self.blocks().contains_key((file_num, offset)),
            },
    {
        broadcast use vstd::std_specs::hash::group_hash_axioms;

        let k: u128 = cache_slot(file_num, offset);
        match self.map.get(&k) {
            Some(b) => Some(b.clone()),
            None => None,
        }
    }

    /// Puts a block in. A full cache first gives up one of its blocks, whichever.
    pub fn insert(&mut self, file_num: u64, offset: u64, block: Arc<Block>)
        requires
            old(self).wf(),
        ensures
            final(self).wf(),
            final(self).limit() == old(self).limit(),
            old(self).count() < old(self).limit() || old(self).count() == 0
                ==> final(self).blocks() == old(self).blocks().insert((file_num, offset), block),
            old(self).count() >= old(self).limit() && old(self).count() > 0 ==> exists|
                p: (u64, u64),
            |
                #![trigger old(self).blocks().remove(p)]
                old(self).blocks().contains_key(p) && final(self).blocks()
                    == old(self).blocks().remove(p).insert((file_num, offset), block),
            final(self).count() <= old(self).count() + 1,
            old(self).count() <= old(self).limit() && old(self).limit() > 0 ==> final(self).count()
                <= final(self).limit(),
    {
        broadcast use vstd::std_specs::hash::group_hash_axioms;

        let ghost before = self.map@;
        let ghost old_blocks = self.blocks();
        let k: u128 = cache_slot(file_num, offset);
        let mut victim: Option<u128> = None;
        if self.map.len() >= self.capacity {
            let m = &self.map;
            for v in it: m.keys()
                invariant
                    it.seq().unref().to_set() == m@.dom(),
                    it.seq().len() == m@.dom().len(),
                    it.index() == 0 || victim is Some,
                    match victim {
                        Some(x) => m@.contains_key(x),
                        None => true,
                    },
                ensures
                    victim is None ==> m@.dom().len() == 0,
            {
                victim = Some(*v);
                break;
            }
        }
        match victim {
            Some(v) => {
                self.map.remove(&v);
            },
            None => {},
        }
        let ghost mid = self.map@;
        self.map.insert(k, block);
        proof {
            lemma_cache_key_injective();
            assert(self.wf()) by {
                assert forall|x: u128| #[trigger] self.map@.contains_key(x) implies exists|
                    f: u64,
                    o: u64,
                |
                    x == #[trigger] cache_key(f, o) by {
                    if x != k {
                        assert(before.contains_key(x));
                    }
                }
            }
            match victim {
                Some(v) => {
                    assert(before.contains_key(v));
                    let (f, o) = choose|f: u64, o: u64| v == #[trigger] cache_key(f, o);
                    assert(old_blocks.contains_key((f, o)));
                    assert(self.blocks() =~= old_blocks.remove((f, o)).insert(
                        (file_num, offset),
                        block,
                    ));
                },
                None => {
                    assert(self.blocks() =~= old_blocks.insert((file_num, offset), block));
                },
            }
        }
    }
}

proof fn lemma_cache_key_injective()
    ensures
        forall|f: u64, o: u64, g: u64, p: u64| #[trigger]
            cache_key(f, o) == #[trigger] cache_key(g, p) ==> f == g && o == p,
{
}

fn cache_slot(file_num: u64, offset: u64) -> (k: u128)
    ensures
        k == cache_key(file_num, offset),
{
    file_num as u128 * 0x1_0000_0000_0000_0000u128 + offset as u128
}

/// What the footer of a table file says.
pub struct Footer {
    pub data_end: u64,
    pub index_off: u64,
    pub index_len: u64,
    pub bloom_off: u64,
    pub bloom_len: u64,
}

/// The footer that the last bytes of a table file hold, or why they hold none.
pub open spec fn footer_of(b: Seq<u8>) -> std::result::Result<Footer, Seq<char>> {
    if codec::u32_at(b, 0) != SST_MAGIC {
        Err("sst bad magic"@)
    } else {
        Ok(
            Footer {
                data_end: codec::u64_at(b, 4),
                index_off: codec::u64_at(b, 12),
                index_len: codec::u64_at(b, 20),
                bloom_off: codec::u64_at(b, 28),
                bloom_len: codec::u64_at(b, 36),
            },
        )
    }
}

impl Footer {
    /// Where the footer of a file of `file_size` bytes starts.
    pub fn locate(file_size: u64) -> (r: Result<u64>)
        ensures
            match r {
                Ok(at) => file_size >= FOOTER_SIZE && at == file_size - FOOTER_SIZE,
                Err(e) => file_size < FOOTER_SIZE && error::is_corruption(e, "sst too small"@),
            },
    {
        if file_size < FOOTER_SIZE as u64 {
            return Err(corruption("sst too small"));
        }
        Ok(file_size - FOOTER_SIZE as u64)
    }

    /// Reads a footer.
    pub fn decode(b: &[u8]) -> (r: Result<Footer>)
        requires
            b@.len() == FOOTER_SIZE,
        ensures
            match r {
                Ok(f) => footer_of(b@) == Ok::<Footer, Seq<char>>(f),
                Err(e) => footer_of(b@) is Err && error::is_corruption(e, footer_of(b@)->Err_0),
            },
    {
        if get_u32(b, 0) != SST_MAGIC {
            return Err(corruption("sst bad magic"));
        }
        Ok(
            Footer {
                data_end: get_u64(b, 4),
                index_off: get_u64(b, 12),
                index_len: get_u64(b, 20),
                bloom_off: get_u64(b, 28),
                bloom_len: get_u64(b, 36),
            },
        )
    }
}

/// What an open table knows without reading a block.
pub struct TableView {
    pub file_num: u64,
    pub smallest: Seq<u8>,
    pub largest: Seq<u8>,
    pub file_size: u64,
    pub index: Seq<IndexEntry>,
    pub bloom: BloomView,
}

/// An open table.
#[derive(Debug)]
pub struct SsTable {
    pub file_num: u64,
    pub smallest: Vec<u8>,
    pub largest: Vec<u8>,
    pub file_size: u64,
    pub index: IndexBlock,
    pub bloom: BloomFilter,
}

impl View for SsTable {
    type V = TableView;

    open spec fn view(&self) -> TableView {
        TableView {
            file_num: self.file_num,
            smallest: self.smallest@,
            largest: self.largest@,
            file_size: self.file_size,
            index: self.index@,
            bloom: self.bloom@,
        }
    }
}

/// `user_key` lies in the key range of the table.
pub open spec fn in_range(t: TableView, user_key: Seq<u8>) -> bool {
    !codec::bytes_lt(user_key, t.smallest) && !codec::bytes_lt(t.largest, user_key)
}

/// The table may hold `user_key`, as far as range and filter tell.
pub open spec fn table_may_hold(t: TableView, user_key: Seq<u8>) -> bool {
    in_range(t, user_key) && bloom::may_hold(t.bloom, user_key)
}

/// The read of the `i`-th block of a table.
pub open spec fn nth_read(t: TableView, i: int) -> BlockRead {
    BlockRead { file_num: t.file_num, offset: t.index[i].1, len: t.index[i].2 }
}

/// The reads of all blocks of a table, in order.
pub open spec fn block_reads(t: TableView) -> Seq<BlockRead> {
    Seq::new(t.index.len(), |i: int| nth_read(t, i))
}

/// The blocks that a lookup of `user_key` reads, one after another until one has a version of it:
/// none if range or filter rule it out; else the block that the index points to, and then, should
/// it not be there, all of them.
pub open spec fn lookup_reads(t: TableView, user_key: Seq<u8>) -> Seq<BlockRead> {
    if !table_may_hold(t, user_key) {
        Seq::empty()
    } else {
        match block::block_for(t.index, user_key) {
            None => block_reads(t),
            Some((offset, len)) => seq![BlockRead { file_num: t.file_num, offset, len }]
                + block_reads(t),
        }
    }
}

/// The first version of `user_key` that a reader up to `max_seq` comes to in a run of reads.
pub open spec fn first_hit(
    reads: Seq<BlockRead>,
    disk: Disk,
    user_key: Seq<u8>,
    max_seq: u64,
) -> Option<Record>
    decreases reads.len(),
{
    if reads.len() == 0 {
        None
    } else {
        match model::best(block::block_entries(disk(reads[0])), user_key, max_seq) {
            Some(r) => Some(r),
            None => first_hit(reads.skip(1), disk, user_key, max_seq),
        }
    }
}

/// The entries of a run of blocks.
pub open spec fn blocks_entries(blocks: Seq<Seq<u8>>) -> Seq<Record>
    decreases blocks.len(),
{
    if blocks.len() == 0 {
        Seq::empty()
    } else {
        blocks_entries(blocks.drop_last()) + block::block_entries(blocks.last())
    }
}

/// What a run of blocks says.
pub open spec fn blocks_view(blocks: Seq<Arc<Block>>) -> Seq<Seq<u8>> {
    Seq::new(blocks.len(), |i: int| blocks[i]@)
}

impl SsTable {
    /// The filter can be probed.
    pub open spec fn wf(&self) -> bool {
        bloom::in_bounds(self@.bloom)
    }

    /// Opens a table whose index and filter have been read from its file.
    pub fn open(
        file_num: u64,
        smallest: Vec<u8>,
        largest: Vec<u8>,
        file_size: u64,
        index_buf: &[u8],
        bloom_buf: &[u8],
    ) -> (r: Result<Self>)
        ensures
            match r {
                Ok(t) => {
                    &&& block::decode_index(index_buf@) == Ok::<Seq<IndexEntry>, Seq<char>>(t@.index)
                    &&& bloom::decode_bloom(bloom_buf@) == Ok::<BloomView, Seq<char>>(t@.bloom)
                    &&& t@.file_num == file_num
                    &&& t@.smallest == smallest@
                    &&& t@.largest == largest@
                    &&& t@.file_size == file_size
                },
                Err(e) => {
                    ||| block::decode_index(index_buf@) is Err && error::is_corruption(
                        e,
                        block::decode_index(index_buf@)->Err_0,
                    )
                    ||| block::decode_index(index_buf@) is Ok && bloom::decode_bloom(
                        bloom_buf@,
                    ) is Err && error::is_corruption(e, bloom::decode_bloom(bloom_buf@)->Err_0)
                },
            },
    {
        let index = match IndexBlock::decode(index_buf) {
            Ok(i) => i,
            Err(e) => {
                return Err(e);
            },
        };
        let bloom = match BloomFilter::decode(bloom_buf) {
            Ok(b) => b,
            Err(e) => {
                return Err(e);
            },
        };
        Ok(Self { file_num, smallest, largest, file_size, index, bloom })
    }

    /// Whether the filter can be probed, which one read from disk need not grant.
    pub fn is_consistent(&self) -> (r: bool)
        ensures
            r == self.wf(),
    {
        self.bloom.is_in_bounds()
    }

    pub fn may_contain(&self, user_key: &[u8]) -> (r: bool)
        requires
            self.wf(),
        ensures
            r == table_may_hold(self@, user_key@),
    {
        if bytes_less(user_key, self.smallest.as_slice()) || bytes_less(
            self.largest.as_slice(),
            user_key,
        ) {
            return false;
        }
        self.bloom.may_contain(user_key)
    }

    /// The blocks of this table that a lookup of `user_key` reads, added to `reads`.
    pub fn push_lookup_reads(&self, user_key: &[u8], reads: &mut Vec<BlockRead>)
        requires
            self.wf(),
        ensures
            final(reads)@ == old(reads)@ + lookup_reads(self@, user_key@),
    {
        let ghost before = reads@;
        if !self.may_contain(user_key) {
            assert(reads@ =~= before + lookup_reads(self@, user_key@));
            return;
        }
        match self.index.find_block(user_key) {
            Some((offset, len)) => {
                reads.push(BlockRead { file_num: self.file_num, offset, len });
            },
            None => {},
        }
        self.push_block_reads(reads);
        assert(reads@ =~= before + lookup_reads(self@, user_key@));
    }

    /// All blocks of this table, added to `reads`.
    fn push_block_reads(&self, reads: &mut Vec<BlockRead>)
        ensures
            final(reads)@ == old(reads)@ + block_reads(self@),
    {
        let ghost before = reads@;
        let entries = self.index.entries();
        let n: usize = entries.len();
        let mut i: usize = 0;
        assert(block::index_entries_view(entries@).len() == n);
        assert(before + block_reads(self@).take(0) =~= before);
        while i < n
            invariant
                n == entries@.len(),
                block::index_entries_view(entries@) == self@.index,
                self@.index.len() == n,
                i <= n,
                reads@ == before + block_reads(self@).take(i as int),
            decreases n - i,
        {
            assert(block::index_entries_view(entries@)[i as int] == self@.index[i as int]);
            reads.push(
                BlockRead { file_num: self.file_num, offset: entries[i].1, len: entries[i].2 },
            );
            assert(reads@ =~= before + block_reads(self@).take(i + 1));
            i = i + 1;
        }
        assert(block_reads(self@).take(n as int) =~= block_reads(self@));
    }

    /// Starts a lookup in this table.
    pub fn get(&self, user_key: &[u8], max_seq: u64) -> (l: Lookup)
        requires
            self.wf(),
        ensures
            l.user_key() == user_key@,
            l.max_seq() == max_seq,
            l.found() is None,
            l.reads() == lookup_reads(self@, user_key@),
    {
        let mut reads: Vec<BlockRead> = Vec::new();
        self.push_lookup_reads(user_key, &mut reads);
        assert(reads@ =~= lookup_reads(self@, user_key@));
        Lookup::new(user_key, max_seq, reads)
    }

    /// The reads of all blocks of this table, in order.
    pub fn block_reads(&self) -> (reads: Vec<BlockRead>)
        ensures
            reads@ == block_reads(self@),
    {
        let mut reads: Vec<BlockRead> = Vec::new();
        self.push_block_reads(&mut reads);
        assert(reads@ =~= block_reads(self@));
        reads
    }

    /// All entries of a table, from its blocks.
    pub fn iter_all(blocks: &Vec<Arc<Block>>) -> (out: Vec<(InternalKey, Vec<u8>)>)
        ensures
            key::records_view(out@) == blocks_entries(blocks_view(blocks@)),
    {
        let mut out: Vec<(InternalKey, Vec<u8>)> = Vec::new();
        let ghost all = blocks_view(blocks@);
        let n: usize = blocks.len();
        let mut i: usize = 0;
        assert(all.take(0) =~= Seq::<Seq<u8>>::empty());
        assert(key::records_view(out@) =~= Seq::<Record>::empty());
        while i < n
            invariant
                n == blocks@.len(),
                all == blocks_view(blocks@),
                i <= n,
                key::records_view(out@) == blocks_entries(all.take(i as int)),
            decreases n - i,
        {
            let ghost seen = key::records_view(out@);
            let mut it = blocks[i].iter_entries();
            let mut more: bool = true;
            let ghost goal = seen + it.rest();
            while more
                invariant
                    it.wf(),
                    more ==> goal == key::records_view(out@) + it.rest(),
                    !more ==> goal == key::records_view(out@),
                decreases goal.len() - out@.len(), (if more { 1int } else { 0int }),
            {
                let ghost cur = key::records_view(out@);
                let ghost rest = it.rest();
                match it.next() {
                    None => {
                        more = false;
                        assert(goal =~= cur);
                    },
                    Some(p) => {
                        let ghost x = key::record_view(p);
                        out.push(p);
                        assert(key::records_view(out@) =~= cur.push(x));
                        assert(cur + rest =~= cur.push(x) + rest.skip(1));
                    },
                }
            }
            proof {
                assert(all.take(i + 1).drop_last() =~= all.take(i as int));
                assert(all.take(i + 1).last() == blocks@[i as int]@);
            }
            i = i + 1;
        }
        assert(all.take(n as int) =~= all);
        out
    }
}

/// A lookup that is under way: it names the block that it needs next, and is handed the block.
pub struct Lookup {
    user_key: Vec<u8>,
    max_seq: u64,
    reads: Vec<BlockRead>,
    next: usize,
    found: Option<(InternalKey, Vec<u8>)>,
}

impl Lookup {
    /// The key that is looked up.
    pub closed spec fn user_key(&self) -> Seq<u8> {
        self.user_key@
    }

    /// The sequence number up to which versions are seen.
    pub closed spec fn max_seq(&self) -> u64 {
        self.max_seq
    }

    /// The reads that are still to be made, should none of them give a version.
    pub closed spec fn reads(&self) -> Seq<BlockRead> {
        if self.next <= self.reads@.len() {
            self.reads@.skip(self.next as int)
        } else {
            Seq::empty()
        }
    }

    /// The version found so far.
    pub closed spec fn found(&self) -> Option<Record> {
        match self.found {
            Some(p) => Some(key::record_view(p)),
            None => None,
        }
    }

    /// What the lookup will have found in the end, on a disk that gives `disk`.
    pub open spec fn outcome(&self, disk: Disk) -> Option<Record> {
        match self.found() {
            Some(r) => Some(r),
            None => first_hit(self.reads(), disk, self.user_key(), self.max_seq()),
        }
    }

    /// The read that the lookup needs next.
    pub open spec fn needs(&self) -> Option<BlockRead> {
        if self.found() is Some || self.reads().len() == 0 {
            None
        } else {
            Some(self.reads()[0])
        }
    }

    /// A lookup over the given reads.
    pub fn new(user_key: &[u8], max_seq: u64, reads: Vec<BlockRead>) -> (l: Self)
        ensures
            l.user_key() == user_key@,
            l.max_seq() == max_seq,
            l.found() is None,
            l.reads() == reads@,
    {
        let l = Self {
            user_key: vstd::slice::slice_to_vec(user_key),
            max_seq,
            reads,
            next: 0,
            found: None,
        };
        assert(l.reads() =~= reads@);
        l
    }

    /// The read that the lookup needs next; `None` when it is decided.
    pub fn pending(&self) -> (r: Option<BlockRead>)
        ensures
            r == self.needs(),
            r is None ==> forall|disk: Disk| #[trigger] self.outcome(disk) == self.found(),
    {
        match self.found {
            Some(_) => None,
            None => if self.next < self.reads.len() {
                Some(self.reads[self.next])
            } else {
                None
            },
        }
    }

    /// Hands over the block that the lookup needs.
    pub fn supply(&mut self, block: &Block)
        requires
            old(self).needs() is Some,
        ensures
            final(self).user_key() == old(self).user_key(),
            final(self).max_seq() == old(self).max_seq(),
            final(self).found() == model::best(
                block::block_entries(block@),
                old(self).user_key(),
                old(self).max_seq(),
            ),
            final(self).reads() == old(self).reads().skip(1),
            forall|disk: Disk|
                disk(old(self).needs()->Some_0) == block@ ==> #[trigger] final(self).outcome(disk)
                    == old(self).outcome(disk),
    {
        let ghost before = *self;
        assert(self.next < self.reads.len());
        self.found = block.get(self.user_key.as_slice(), self.max_seq);
        self.next = self.next + 1;
        assert(self.reads() =~= before.reads().skip(1));
    }

    /// What the lookup has found.
    pub fn finish(self) -> (r: Option<Entry>)
        ensures
            memtable::entry_is(r, self.found()),
    {
        match self.found {
            Some((ik, v)) => Some(Entry { kind: ik.kind, value: v }),
            None => None,
        }
    }
}

/// What a reader is told of a version: its value, or nothing for a tombstone.
pub fn is_visible(entry: &Entry) -> (r: Option<Vec<u8>>)
    ensures
        match r {
            Some(v) => entry.kind == ValueKind::Put && v@ == entry.value@,
            None => entry.kind == ValueKind::Delete,
        },
{
    match entry.kind {
        ValueKind::Put => Some(copy_bytes(&entry.value)),
        ValueKind::Delete => None,
    }
}

} // verus!

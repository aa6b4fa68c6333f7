//! Builds the file of a table from records that come in order.

use crate::codec;
use crate::codec::{copy_bytes, put_bytes, put_u32, put_u64};
use crate::key;
use crate::key::{InternalKey, KeyView, Record};
use crate::options::FsyncMode;
use crate::sstable::block;
use crate::sstable::block::{BlockBuilder, IndexBlock, IndexEntry, RawEntry};
use crate::sstable::bloom;
use crate::sstable::bloom::BloomFilter;
use crate::sstable::contents;
use vstd::prelude::*;

verus! {

/// "SSTJ"
pub const SST_MAGIC: u32 = 0x5353_544A;

/// magic + data_end + index_off + index_len + bloom_off + bloom_len
pub const FOOTER_SIZE: usize = 44;

/// Records parted into blocks: those that are full, and the one that is being filled.
pub struct Cut {
    pub full: Seq<Seq<Record>>,
    pub open: Seq<Record>,
}

/// How records are parted: a block is full as soon as its entries take `block_size` bytes.
pub open spec fn cut(s: Seq<Record>, block_size: usize) -> Cut
    decreases s.len(),
{
    if s.len() == 0 {
        Cut { full: Seq::empty(), open: Seq::empty() }
    } else {
        let c = cut(s.drop_last(), block_size);
        let open = c.open.push(s.last());
        if block::raw_size(block::encode_records(open)) >= block_size {
            Cut { full: c.full.push(open), open: Seq::empty() }
        } else {
            Cut { full: c.full, open }
        }
    }
}

/// The blocks of a finished table.
pub open spec fn groups(s: Seq<Record>, block_size: usize) -> Seq<Seq<Record>> {
    let c = cut(s, block_size);
    if c.open.len() > 0 {
        c.full.push(c.open)
    } else {
        c.full
    }
}

/// The bytes of a block that holds the records of `g`.
pub open spec fn group_bytes(g: Seq<Record>) -> Seq<u8> {
    block::block_bytes(block::encode_records(g))
}

/// The bytes of a run of blocks.
pub open spec fn groups_bytes(gs: Seq<Seq<Record>>) -> Seq<u8>
    decreases gs.len(),
{
    if gs.len() == 0 {
        Seq::empty()
    } else {
        groups_bytes(gs.drop_last()) + group_bytes(gs.last())
    }
}

/// The index of a run of blocks: last key, offset and length of each.
pub open spec fn groups_index(gs: Seq<Seq<Record>>) -> Seq<IndexEntry> {
    Seq::new(
        gs.len(),
        |i: int|
            (
                key::encode_key(gs[i].last().0),
                groups_bytes(gs.take(i)).len() as u64,
                group_bytes(gs[i]).len() as u32,
            ),
    )
}

/// The user keys of a run of records.
pub open spec fn user_keys(s: Seq<Record>) -> Seq<Seq<u8>> {
    Seq::new(s.len(), |i: int| s[i].0.user_key)
}

/// Layout of the footer.
pub open spec fn footer_bytes(
    data_end: u64,
    index_off: u64,
    index_len: u64,
    bloom_off: u64,
    bloom_len: u64,
) -> Seq<u8> {
    codec::le32(SST_MAGIC) + codec::le64(data_end) + codec::le64(index_off) + codec::le64(index_len)
        + codec::le64(bloom_off) + codec::le64(bloom_len)
}

/// The index part of a table file.
pub open spec fn table_index(s: Seq<Record>, block_size: usize) -> Seq<u8> {
    block::index_bytes(groups_index(groups(s, block_size)))
}

/// The filter part of a table file.
pub open spec fn table_bloom(s: Seq<Record>, bits_per_key: usize) -> Seq<u8> {
    bloom::bloom_bytes(bloom::filter_of(user_keys(s), bits_per_key))
}

/// The file of a table that holds the records of `s`:
/// [data blocks...][index block][bloom][footer].
pub open spec fn table_file(s: Seq<Record>, block_size: usize, bits_per_key: usize) -> Seq<u8> {
    let data = groups_bytes(groups(s, block_size));
    let index = table_index(s, block_size);
    let filter = table_bloom(s, bits_per_key);
    data + index + filter + footer_bytes(
        data.len() as u64,
        data.len() as u64,
        index.len() as u64,
        (data.len() + index.len()) as u64,
        filter.len() as u64,
    )
}

/// What has been put into a builder.
pub struct BuilderView {
    pub block_size: usize,
    pub bits_per_key: usize,
    pub records: Seq<Record>,
}

/// Collects records, in order, and lays them out as a table file.
pub struct SsTableBuilder {
    block_size: usize,
    bits_per_key: usize,
    data: Vec<u8>,
    block: BlockBuilder,
    index: IndexBlock,
    last_key: Vec<u8>,
    user_keys: Vec<Vec<u8>>,
    smallest: Option<InternalKey>,
    largest: Option<InternalKey>,
    records: Ghost<Seq<Record>>,
}

impl View for SsTableBuilder {
    type V = BuilderView;

    closed spec fn view(&self) -> BuilderView {
        BuilderView {
            block_size: self.block_size,
            bits_per_key: self.bits_per_key,
            records: self.records@,
        }
    }
}

/// What an optional key says.
pub open spec fn option_key_view(o: Option<InternalKey>) -> Option<KeyView> {
    match o {
        Some(k) => Some(k@),
        None => None,
    }
}

proof fn lemma_groups_index_push(gs: Seq<Seq<Record>>, g: Seq<Record>)
    ensures
        groups_index(gs.push(g)) == groups_index(gs).push(
            (
                key::encode_key(g.last().0),
                groups_bytes(gs).len() as u64,
                group_bytes(g).len() as u32,
            ),
        ),
        groups_bytes(gs.push(g)) == groups_bytes(gs) + group_bytes(g),
{
    let all = gs.push(g);
    assert(all.drop_last() =~= gs);
    assert(all.take(gs.len() as int) =~= gs);
    assert forall|i: int| 0 <= i < gs.len() implies #[trigger] all.take(i) == gs.take(i) by {
        assert(all.take(i) =~= gs.take(i));
    }
    assert(groups_index(all) =~= groups_index(gs).push(
        (
            key::encode_key(g.last().0),
            groups_bytes(gs).len() as u64,
            group_bytes(g).len() as u32,
        ),
    ));
}

impl SsTableBuilder {
    /// The parts laid out so far are those of the records put in, with `full` blocks closed and
    /// `open` not yet closed.
    closed spec fn laid_out(&self, full: Seq<Seq<Record>>, open: Seq<Record>) -> bool {
        &&& self.block.wf()
        &&& self.block@ == block::encode_records(open)
        &&& self.data@ == groups_bytes(full)
        &&& self.index@ == groups_index(full)
        &&& open.len() > 0 ==> self.last_key@ == key::encode_key(open.last().0)
        &&& bloom::keys_view(self.user_keys@) == user_keys(self.records@)
        &&& option_key_view(self.smallest) == (if self.records@.len() > 0 {
            Some(self.records@[0].0)
        } else {
            None
        })
        &&& option_key_view(self.largest) == (if self.records@.len() > 0 {
            Some(self.records@.last().0)
        } else {
            None
        })
    }

    /// The parts laid out so far are those of the records put in.
    pub closed spec fn wf(&self) -> bool {
        let c = cut(self.records@, self.block_size);
        self.laid_out(c.full, c.open)
    }

    /// The bytes of the blocks that are closed.
    pub closed spec fn closed_bytes(&self) -> Seq<u8> {
        self.data@
    }

    /// The entries of the block that is being filled.
    pub closed spec fn open_entries(&self) -> Seq<RawEntry> {
        self.block@
    }

    /// The index of the blocks that are closed.
    pub closed spec fn index_entries(&self) -> Seq<IndexEntry> {
        self.index@
    }

    /// The first key that was put in.
    pub closed spec fn smallest_key(&self) -> Option<KeyView> {
        option_key_view(self.smallest)
    }

    /// The last key that was put in.
    pub closed spec fn largest_key(&self) -> Option<KeyView> {
        option_key_view(self.largest)
    }

    pub fn new(block_size: usize, bits_per_key: usize) -> (b: Self)
        ensures
            b.wf(),
            b@ == (BuilderView { block_size, bits_per_key, records: Seq::empty() }),
    {
        let b = Self {
            block_size,
            bits_per_key,
            data: Vec::new(),
            block: BlockBuilder::new(),
            index: IndexBlock::new(),
            last_key: Vec::new(),
            user_keys: Vec::new(),
            smallest: None,
            largest: None,
            records: Ghost(Seq::empty()),
        };
        proof {
            let none = Seq::<Record>::empty();
            assert(block::encode_records(none) =~= Seq::empty());
            assert(groups_index(Seq::<Seq<Record>>::empty()) =~= Seq::empty());
            assert(bloom::keys_view(b.user_keys@) =~= user_keys(none));
        }
        b
    }

    pub fn add(&mut self, key: &InternalKey, value: &[u8])
        requires
            old(self).wf(),
        ensures
            final(self).wf(),
            final(self)@ == (BuilderView {
                records: old(self)@.records.push((key@, value@)),
                ..old(self)@
            }),
    {
        let ghost before = *self;
        let ghost c = cut(self.records@, self.block_size);
        let ghost rec = (key@, value@);
        let ghost open = c.open.push(rec);
        let enc: Vec<u8> = key.encode();
        if self.smallest.is_none() {
            self.smallest = Some(key.clone());
        }
        self.largest = Some(key.clone());
        self.user_keys.push(copy_bytes(&key.user_key));
        self.block.add(enc.as_slice(), value);
        self.last_key = enc;
        self.records = Ghost(self.records@.push(rec));
        proof {
            assert(self.records@.drop_last() =~= before.records@);
            assert(block::encode_records(open) =~= block::encode_records(c.open).push(
                (key::encode_key(key@), value@),
            ));
            let known = bloom::keys_view(before.user_keys@);
            assert(known == user_keys(before.records@));
            assert(known.len() == before.records@.len());
            assert(bloom::keys_view(self.user_keys@) =~= known.push(key@.user_key));
            assert(user_keys(self.records@) =~= user_keys(before.records@).push(key@.user_key));
            assert(self.laid_out(c.full, open));
        }
        if self.block.estimated_size() >= self.block_size {
            self.flush_block(Ghost(c.full), Ghost(open));
        }
    }

    /// Closes the block that is being filled.
    fn flush_block(&mut self, Ghost(full): Ghost<Seq<Seq<Record>>>, Ghost(open): Ghost<Seq<Record>>)
        requires
            old(self).laid_out(full, open),
        ensures
            final(self).laid_out(
                if open.len() > 0 {
                    full.push(open)
                } else {
                    full
                },
                Seq::empty(),
            ),
            final(self)@ == old(self)@,
    {
        assert(block::encode_records(Seq::<Record>::empty()) =~= Seq::empty());
        if self.block.is_empty() {
            assert(open.len() == 0);
            assert(open =~= Seq::empty());
            return;
        }
        let mut filled = BlockBuilder::new();
        core::mem::swap(&mut filled, &mut self.block);
        let block = filled.finish();
        let offset: u64 = self.data.len() as u64;
        let len: u32 = block.raw().len() as u32;
        put_bytes(&mut self.data, block.raw());
        let mut last_key: Vec<u8> = Vec::new();
        core::mem::swap(&mut last_key, &mut self.last_key);
        self.index.push(last_key, offset, len);
        proof {
            lemma_groups_index_push(full, open);
        }
    }

    /// The finished file, what is to be remembered of it, and whether the file has to be fsynced
    /// once it is written.
    pub fn finish(self, fsync: FsyncMode) -> (r: (Vec<u8>, SsTableMeta, bool))
        requires
            self.wf(),
            self@.records.len() > 0,
            bloom::filter_fits(self@.records.len(), self@.bits_per_key),
        ensures
            r.0@ == table_file(self@.records, self@.block_size, self@.bits_per_key),
            r.1.smallest@ == self@.records[0].0,
            r.1.largest@ == self@.records.last().0,
            r.1.file_size == r.0@.len(),
            r.2 == (fsync != FsyncMode::Never),
    {
        let mut b = self;
        let ghost c = cut(b.records@, b.block_size);
        b.flush_block(Ghost(c.full), Ghost(c.open));
        let ghost s = b.records@;
        let ghost gs = groups(s, b.block_size);
        assert(bloom::keys_view(b.user_keys@).len() == user_keys(s).len());
        let filter = BloomFilter::build(b.user_keys.as_slice(), b.bits_per_key);
        let bloom_bytes: Vec<u8> = filter.encode();
        let index_bytes: Vec<u8> = b.index.encode();
        let mut file_buf: Vec<u8> = Vec::new();
        core::mem::swap(&mut file_buf, &mut b.data);
        let data_end: u64 = file_buf.len() as u64;
        let index_off: u64 = file_buf.len() as u64;
        put_bytes(&mut file_buf, index_bytes.as_slice());
        let bloom_off: u64 = file_buf.len() as u64;
        put_bytes(&mut file_buf, bloom_bytes.as_slice());
        put_u32(&mut file_buf, SST_MAGIC);
        put_u64(&mut file_buf, data_end);
        put_u64(&mut file_buf, index_off);
        put_u64(&mut file_buf, index_bytes.len() as u64);
        put_u64(&mut file_buf, bloom_off);
        put_u64(&mut file_buf, bloom_bytes.len() as u64);
        assert(file_buf@ =~= table_file(s, b.block_size, b.bits_per_key));
        let file_size: u64 = file_buf.len() as u64;
        let smallest = match b.smallest {
            Some(k) => k,
            None => InternalKey::put(Vec::new(), 0),
        };
        let largest = match b.largest {
            Some(k) => k,
            None => InternalKey::put(Vec::new(), 0),
        };
        (file_buf, SsTableMeta { smallest, largest, file_size }, fsync != FsyncMode::Never)
    }
}

#[derive(Debug)]
pub struct SsTableMeta {
    pub smallest: InternalKey,
    pub largest: InternalKey,
    pub file_size: u64,
}

/// A block is closed as soon as its entries take `block_size` bytes, and not before.
proof fn lemma_cut_sizes(s: Seq<Record>, block_size: usize)
    requires
        block_size >= 1,
    ensures
        ({
            let c = cut(s, block_size);
            &&& block::raw_size(block::encode_records(c.open)) < block_size
            &&& forall|i: int|
                0 <= i < c.full.len() ==> {
                    let g = block::encode_records(#[trigger] c.full[i]);
                    block::raw_size(g) >= block_size > block::raw_size(g.drop_last())
                }
        }),
    decreases s.len(),
{
    let c = cut(s, block_size);
    let none = Seq::<Record>::empty();
    assert(block::encode_records(none) =~= Seq::<RawEntry>::empty());
    if s.len() > 0 {
        lemma_cut_sizes(s.drop_last(), block_size);
        let d = cut(s.drop_last(), block_size);
        let open = d.open.push(s.last());
        assert(block::encode_records(open).drop_last() =~= block::encode_records(d.open));
        if block::raw_size(block::encode_records(open)) >= block_size {
            assert forall|i: int| 0 <= i < c.full.len() implies {
                let g = block::encode_records(#[trigger] c.full[i]);
                block::raw_size(g) >= block_size > block::raw_size(g.drop_last())
            } by {
                if i < d.full.len() {
                    assert(c.full[i] == d.full[i]);
                }
            }
        }
    }
}

/// The index entries point, in order, at the blocks `gs`, whose bytes they tile from the first to
/// the last without gaps; the separator of each is the last key of its block.
pub open spec fn tiles(index: Seq<IndexEntry>, data: Seq<u8>, gs: Seq<Seq<Record>>) -> bool {
    &&& index.len() == gs.len()
    &&& index.len() == 0 ==> data.len() == 0
    &&& index.len() > 0 ==> index[0].1 == 0
    &&& index.len() > 0 ==> index.last().1 + index.last().2 == data.len()
    &&& forall|i: int, j: int|
        0 <= i < j < index.len() && j == i + 1 ==> (#[trigger] index[j]).1 == (
        #[trigger] index[i]).1 + index[i].2
    &&& forall|i: int|
        0 <= i < index.len() ==> {
            &&& (#[trigger] index[i]).0 == key::encode_key(gs[i].last().0)
            &&& index[i].1 + index[i].2 <= data.len()
            &&& data.subrange(index[i].1 as int, index[i].1 + index[i].2) == group_bytes(gs[i])
        }
}

/// Whatever has been put into a builder, in order, stands in its closed blocks and behind them in
/// the one that is being filled. A closed block takes at least `block_size` bytes, and took less
/// before its last entry; the one being filled takes less. The index has an entry for each closed
/// block, and the entries tile the bytes of these. The first and the last key are remembered.
pub proof fn law_builder_layout(b: SsTableBuilder)
    requires
        b.wf(),
        b@.block_size >= 1,
        groups_bytes(cut(b@.records, b@.block_size).full).len() <= u64::MAX,
        forall|i: int|
            0 <= i < cut(b@.records, b@.block_size).full.len() ==> group_bytes(
                #[trigger] cut(b@.records, b@.block_size).full[i],
            ).len() <= u32::MAX,
    ensures
        ({
            let c = cut(b@.records, b@.block_size);
            &&& contents::join(c.full) + c.open == b@.records
            &&& b.open_entries() == block::encode_records(c.open)
            &&& block::raw_size(b.open_entries()) < b@.block_size
            &&& forall|i: int|
                0 <= i < c.full.len() ==> {
                    let g = block::encode_records(#[trigger] c.full[i]);
                    block::raw_size(g) >= b@.block_size > block::raw_size(g.drop_last())
                }
            &&& tiles(b.index_entries(), b.closed_bytes(), c.full)
            &&& b.smallest_key() == if b@.records.len() > 0 {
                Some(b@.records[0].0)
            } else {
                None
            }
            &&& b.largest_key() == if b@.records.len() > 0 {
                Some(b@.records.last().0)
            } else {
                None
            }
        }),
{
    let c = cut(b@.records, b@.block_size);
    contents::lemma_cut(b@.records, b@.block_size);
    lemma_cut_sizes(b@.records, b@.block_size);
    lemma_index_tiles(c.full);
}

proof fn lemma_index_tiles(gs: Seq<Seq<Record>>)
    requires
        groups_bytes(gs).len() <= u64::MAX,
        forall|i: int| 0 <= i < gs.len() ==> group_bytes(#[trigger] gs[i]).len() <= u32::MAX,
    ensures
        tiles(groups_index(gs), groups_bytes(gs), gs),
{
    let index = groups_index(gs);
    let data = groups_bytes(gs);
    let n = gs.len() as int;
    assert forall|i: int| 0 <= i < n implies {
        &&& (#[trigger] index[i]).0 == key::encode_key(gs[i].last().0)
        &&& index[i].1 + index[i].2 <= data.len()
        &&& data.subrange(index[i].1 as int, index[i].1 + index[i].2) == group_bytes(gs[i])
        &&& index[i].1 == groups_bytes(gs.take(i)).len()
        &&& index[i].2 == group_bytes(gs[i]).len()
    } by {
        contents::lemma_group_at(gs, i);
        assert(group_bytes(gs[i]).len() <= u32::MAX);
    }
    assert(gs.take(0) =~= Seq::<Seq<Record>>::empty());
    assert forall|i: int, j: int| 0 <= i < j < n && j == i + 1 implies (#[trigger] index[j]).1 == (
    #[trigger] index[i]).1 + index[i].2 by {
        assert(gs.take(j).drop_last() =~= gs.take(i));
        assert(gs.take(j).last() == gs[i]);
    }
    if n > 0 {
        assert(gs.take(n - 1) =~= gs.drop_last());
        assert(index.last() == index[n - 1]);
    }
}

} // verus!

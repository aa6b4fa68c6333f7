//! What the operations on keys, logs, memtables and tables do, in terms of what they are given and
//! what they give.

use crate::codec;
use crate::compact::{key_range, overlapping};
use crate::error::Result;
use crate::frame;
use crate::iter;
use crate::iter::MergeIterator;
use crate::key;
use crate::key::{compare_encoded, InternalKey, KeyView, Record, ValueKind};
use crate::laws::answers;
use crate::laws::coherence;
use crate::laws::filters;
use crate::laws::layouts;
use crate::laws::lookups;
use crate::laws::merging;
use crate::laws::opening;
use crate::laws::operations;
use crate::laws::order;
use crate::laws::pacing;
use crate::laws::scans;
use crate::manifest;
use crate::manifest::{apply_edit, decode_edit, encode_edit, EditView, FileMeta, Manifest};
use crate::manifest::{ManifestEdit, RecoveredState};
use crate::memtable;
use crate::memtable::{Bound, Entry, MemTable, MemTableIter};
use crate::model;
use crate::options::FsyncMode;
use crate::snapshot;
use crate::snapshot::{Snapshot, SnapshotTracker};
use crate::sstable::block;
use crate::sstable::block::{Block, BlockBuilder, IndexBlock};
use crate::sstable::bloom;
use crate::sstable::bloom::BloomFilter;
use crate::sstable::builder;
use crate::sstable::builder::{SsTableBuilder, SsTableMeta};
use crate::sstable::contents;
use crate::sstable::reader;
use crate::sstable::reader::{BlockCache, BlockRead, Footer, SsTable, TableView};
use crate::text;
use crate::text::table_file_name;
use crate::version;
use crate::version::{find_in_level, Version};
use crate::wal;
use crate::wal::{decode_record, Wal};
use std::cmp::Ordering;
use std::sync::Arc;
use vstd::prelude::*;

verus! {

/// A key that is encoded and decoded again is the same, if its sequence number fits in seven bytes;
/// and what is decoded is what was encoded.
pub proof fn law_key_coding(k: &InternalKey, b: Vec<u8>, given: &[u8], r: Result<InternalKey>)
    requires
        call_ensures(InternalKey::encode, (k,), b),
        call_ensures(InternalKey::decode, (given,), r),
    ensures
        given@ == b@ && k@.seq < 0x100_0000_0000_0000 ==> (r matches Ok(j) && j@ == k@),
        b@.len() == k@.user_key.len() + 8,
        b@.take(k@.user_key.len() as int) == k@.user_key,
        r is Ok <==> given@.len() >= 8 && given@[given@.len() - 1] <= 1,
        r matches Ok(j) ==> key::encode_key(j@) == given@,
{
    if k@.seq < 0x100_0000_0000_0000 {
        key::law_encode_decode(k@);
    }
    assert(b@.take(k@.user_key.len() as int) =~= k@.user_key);
    if let Ok(j) = r {
        layouts::law_key_is_read_from_its_bytes(given@, j@);
    } else {
        layouts::law_key_is_read_from_its_bytes(given@, k@);
    }
}

/// Encoded keys compare as the keys do: by user key, then the higher sequence number first, then
/// the value before the tombstone.
pub proof fn law_compare_encoded(a: &[u8], b: &[u8], r: Ordering, x: KeyView, y: KeyView)
    requires
        call_ensures(compare_encoded, (a, b), r),
        a@ == key::encode_key(x),
        b@ == key::encode_key(y),
        x.seq < 0x100_0000_0000_0000,
        y.seq < 0x100_0000_0000_0000,
    ensures
        r is Less <==> {
            ||| exists|i: int| #[trigger] order::parts_at(x.user_key, y.user_key, i)
            ||| x.user_key == y.user_key && x.seq > y.seq
            ||| x.user_key == y.user_key && x.seq == y.seq && x.kind == ValueKind::Put && y.kind
                == ValueKind::Delete
        },
        r is Equal <==> x == y,
{
    key::law_encoded_order(x, y);
    key::law_encoded_order(y, x);
    order::law_key_order(x, y);
    key::law_key_order_total(x, y);
    key::law_key_order_irreflexive(x);
    if key::key_lt(x, y) {
        key::law_key_order_asymmetric(x, y);
    }
}

/// A write that is appended to the log of earlier writes is read back behind them.
pub proof fn law_log_gives_back(
    w: &Wal,
    k: &InternalKey,
    value: &[u8],
    bytes: Vec<u8>,
    writes: Seq<Record>,
    given: &[u8],
    r: Result<Vec<(InternalKey, Vec<u8>)>>,
)
    requires
        call_ensures(Wal::append, (w, k, value), bytes),
        call_ensures(Wal::recover, (given,), r),
        given@ == wal::log_bytes(writes) + bytes@,
        forall|i: int| 0 <= i < writes.len() ==> wal::loggable(#[trigger] writes[i]),
        k@.user_key.len() + value@.len() + 21 <= u32::MAX,
    ensures
        r matches Ok(v) && key::records_view(v@) == writes.push((k@, value@)),
        bytes@.len() == k@.user_key.len() + value@.len() + 29,
{
    let rec = (k@, value@);
    let all = writes.push(rec);
    wal::law_append_extends_log(writes, rec);
    assert forall|i: int| 0 <= i < all.len() implies wal::loggable(#[trigger] all[i]) by {
        if i < writes.len() {
            assert(all[i] == writes[i]);
        }
    }
    wal::law_log_recovers(all, rec, 0);
    layouts::law_record_layout(rec);
    layouts::law_frame_layout(wal::record_bytes(rec));
}

/// A record of the log that is decoded is the write that its bytes were made for, and bytes that
/// were made for no write are refused.
pub proof fn law_decode_record(given: &[u8], r: Result<(InternalKey, Vec<u8>)>)
    requires
        call_ensures(decode_record, (given,), r),
        given@.len() <= u32::MAX,
    ensures
        r is Ok <==> exists|x: Record| #[trigger] wal::record_bytes(x) == given@ && wal::loggable(x),
        r matches Ok(p) ==> wal::record_bytes(key::record_view(p)) == given@,
{
    if let Ok(p) = r {
        layouts::law_record_is_read_from_its_bytes(given@, key::record_view(p));
    }
    if exists|x: Record| #[trigger] wal::record_bytes(x) == given@ && wal::loggable(x) {
        let x = choose|x: Record| #[trigger] wal::record_bytes(x) == given@ && wal::loggable(x);
        layouts::law_record_is_read_from_its_bytes(given@, x);
    }
}

/// The intact part of a log is all of it that was written in whole.
pub proof fn law_intact_log(given: &[u8], n: usize, writes: Seq<Record>, torn: Record, cut: int)
    requires
        call_ensures(Wal::intact_len, (given,), n),
        forall|i: int| 0 <= i < writes.len() ==> wal::loggable(#[trigger] writes[i]),
        wal::loggable(torn),
        0 <= cut < frame::frame_bytes(wal::record_bytes(torn)).len(),
        given@ == wal::log_bytes(writes) + frame::frame_bytes(wal::record_bytes(torn)).take(cut),
    ensures
        given@.take(n as int) == wal::log_bytes(writes),
{
    wal::law_write_follows_torn_tail(writes, torn, cut, torn);
}

/// Edits that are logged are read back, and what a crash left of one more is not.
pub proof fn law_manifest_gives_back(
    m: &Manifest,
    edits: &[ManifestEdit],
    bytes: Vec<u8>,
    torn: EditView,
    cut: int,
    given: &[u8],
    r: Result<RecoveredState>,
)
    requires
        call_ensures(Manifest::log, (m, edits), bytes),
        call_ensures(Manifest::recover, (given,), r),
        forall|i: int|
            0 <= i < edits@.len() ==> manifest::editable((#[trigger] edits@[i])@),
        manifest::editable(torn),
        0 <= cut < frame::frame_bytes(manifest::edit_bytes(torn)).len(),
        given@ == bytes@ + frame::frame_bytes(manifest::edit_bytes(torn)).take(cut),
    ensures
        r matches Ok(s) && s@ == manifest::apply_all(
            manifest::initial_state(),
            manifest::edits_view(edits@),
        ),
{
    let es = manifest::edits_view(edits@);
    assert forall|i: int| 0 <= i < es.len() implies manifest::editable(#[trigger] es[i]) by {
        assert(es[i] == edits@[i]@);
    }
    manifest::law_manifest_recovers(es, torn, cut);
}

/// An edit that is encoded and decoded again is the same.
pub proof fn law_edit_coding(e: &ManifestEdit, b: Vec<u8>, given: &[u8], r: Result<ManifestEdit>)
    requires
        call_ensures(encode_edit, (e,), b),
        call_ensures(decode_edit, (given,), r),
        manifest::codable(e@),
        given@ == b@,
    ensures
        r matches Ok(f) && f@ == e@,
{
    manifest::law_edit_round_trip(e@);
}

/// What one edit does to what is known: it adds its file, takes away the one that it names, or sets
/// its number, and changes nothing else.
pub proof fn law_apply_edit(s: &mut RecoveredState, e: ManifestEdit)
    requires
        call_ensures(apply_edit, (s, e), ()),
    ensures
        match e {
            ManifestEdit::AddFile(m) => final(s)@.files == old(s)@.files.push(m@)
                && final(s)@.next_file_num == old(s)@.next_file_num && final(s)@.last_seq
                == old(s)@.last_seq,
            ManifestEdit::DeleteFile { level, file_num } => {
                &&& final(s)@.files == old(s)@.files.filter(
                    |x: manifest::FileView| !(x.level == level && x.file_num == file_num),
                )
                &&& final(s)@.next_file_num == old(s)@.next_file_num
                &&& final(s)@.last_seq == old(s)@.last_seq
            },
            ManifestEdit::SetNextFileNum(n) => final(s)@.files == old(s)@.files
                && final(s)@.next_file_num == n && final(s)@.last_seq == old(s)@.last_seq,
            ManifestEdit::SetLastSeq(q) => final(s)@.files == old(s)@.files
                && final(s)@.next_file_num == old(s)@.next_file_num && final(s)@.last_seq == q,
        },
{
    let any = arbitrary::<manifest::FileView>();
    opening::law_edit_changes_one_thing(old(s)@, e@, any);
}

/// What is read back of a manifest that a crash may have cut short: all of its edits, but for a run
/// at the end that was begun and not finished.
pub proof fn law_reopen(given: &[u8], s: RecoveredState, n: usize)
    requires
        call_ensures(Manifest::reopen, (given,), Some(Ok((s, n)))),
    ensures
        exists|k: int| #[trigger]
            leaves_out_unfinished(manifest::manifest_edits(given@)->Ok_0, k) && s@
                == manifest::apply_all(
                manifest::initial_state(),
                manifest::manifest_edits(given@)->Ok_0.take(k),
            ),
        manifest::recover_state(given@.take(n as int)) == Ok::<manifest::StateView, Seq<char>>(s@),
{
    let es = manifest::manifest_edits(given@)->Ok_0;
    opening::law_only_an_unfinished_run_is_left_out(es);
    let k = manifest::whole_runs(es).len() as int;
    assert(leaves_out_unfinished(es, k));
}

/// What stands behind the first `k` edits is the beginning of a run that was not finished: it
/// deletes files, or adds some below level 0.
pub open spec fn leaves_out_unfinished(es: Seq<EditView>, k: int) -> bool {
    &&& 0 <= k <= es.len()
    &&& forall|i: int|
        k <= i < es.len() ==> match #[trigger] es[i] {
            EditView::AddFile(m) => m.level > 0,
            EditView::DeleteFile { level: _, file_num: _ } => true,
            _ => false,
        }
}

/// What a memtable holds after a write: the write, and what it held under other internal keys; and
/// it is larger by the key, the value and sixteen bytes.
pub proof fn law_memtable_put(m: &mut MemTable, k: InternalKey, value: Vec<u8>, x: Record)
    requires
        call_ensures(MemTable::put, (m, k, value), ()),
        old(m).wf(),
    ensures
        final(m)@.contains(x) <==> (x == (k@, value@) || (old(m)@.contains(x) && x.0 != k@)),
        old(m).size() + k@.user_key.len() + value@.len() + 16 <= usize::MAX ==> final(m).size()
            == old(m).size() + k@.user_key.len() + value@.len() + 16,
        model::sorted(final(m)@),
{
    answers::law_memtable_takes_a_record(old(m)@, (k@, value@), x);
}

/// What a memtable tells a reader of a key: the newest version that the reader sees.
pub proof fn law_memtable_get(
    m: &MemTable,
    user_key: &[u8],
    max_seq: u64,
    r: Option<Entry>,
    i: int,
)
    requires
        call_ensures(MemTable::get, (m, user_key, max_seq), r),
        m.wf(),
        0 <= i < m@.len(),
    ensures
        match r {
            Some(e) => exists|x: Record| #[trigger]
                m@.contains(x) && x.0.user_key == user_key@ && x.0.seq <= max_seq && x.0.kind
                    == e.kind && x.1 == e.value@ && (m@[i].0.user_key == user_key@ && m@[i].0.seq
                    <= max_seq ==> m@[i].0.seq <= x.0.seq),
            None => m@[i].0.user_key != user_key@ || m@[i].0.seq > max_seq,
        },
{
    answers::law_memtable_finds_newest(m@, user_key@, max_seq, i);
    if r is Some {
        let x = model::find(m@, user_key@, max_seq)->Some_0;
        assert(m@.contains(x));
    }
}

/// What a scan of a memtable gives: records that it holds, from the start on and up to the sequence
/// number, of each user key the newest; and their keys rise.
pub proof fn law_memtable_range<'a>(
    m: &'a MemTable,
    start: Bound<'_>,
    max_seq: u64,
    it: MemTableIter<'a>,
    i: int,
)
    requires
        call_ensures(MemTable::range_from, (m, start, max_seq), it),
        m.wf(),
        0 <= i < m@.len(),
    ensures
        iter::keys_rise(it.rest()),
        forall|x: Record| #[trigger]
            it.rest().contains(x) ==> m@.contains(x) && x.0.seq <= max_seq
                && operations::after_start(start, x.0.user_key),
        m@[i].0.seq <= max_seq && operations::after_start(start, m@[i].0.user_key) ==> exists|
            x: Record,
        | #[trigger]
            it.rest().contains(x) && x.0.user_key == m@[i].0.user_key && x.0.seq >= m@[i].0.seq,
{
    let sv = memtable::start_view(start);
    let q = model::select(m@, sv, max_seq);
    answers::law_scan_selects(m@, sv, max_seq);
    lemma_selected(m@, sv, max_seq);
    lemma_ordered(q);
    iter::lemma_firsts_rise(q, None);
    let f = it.rest();
    assert forall|x: Record| #[trigger] f.contains(x) implies m@.contains(x) && x.0.seq <= max_seq
        && operations::after_start(start, x.0.user_key) by {
        let a = choose|a: int| 0 <= a < f.len() && f[a] == x;
        assert(q.contains(f[a]));
    }
    if m@[i].0.seq <= max_seq && operations::after_start(start, m@[i].0.user_key) {
        let y = m@[i];
        assert(m@.contains(y));
        assert(q.contains(y));
        let b = choose|b: int| 0 <= b < q.len() && q[b] == y;
        model::law_find_is_newest(q, y.0.user_key, u64::MAX, b);
        iter::lemma_firsts_find(q, None, y.0.user_key);
        let a = model::lemma_find_some(f, y.0.user_key, u64::MAX);
        assert(f.contains(f[a]));
    }
}

proof fn lemma_selected(s: Seq<Record>, start: model::StartView, max_seq: u64)
    requires
        model::sorted(s),
    ensures
        model::sorted(model::select(s, start, max_seq)),
        forall|x: Record| #[trigger]
            model::select(s, start, max_seq).contains(x) <==> s.contains(x) && model::admits(
                start,
                max_seq,
                x,
            ),
{
    scans::lemma_select(s, start, max_seq);
}

proof fn lemma_ordered(s: Seq<Record>)
    requires
        model::sorted(s),
    ensures
        iter::ordered(s),
{
    assert forall|i: int, j: int| 0 <= i < j < s.len() implies !key::key_lt(
        (#[trigger] s[j]).0,
        (#[trigger] s[i]).0,
    ) by {
        assert(key::key_lt(s[i].0, s[j].0));
        key::law_key_order_asymmetric(s[i].0, s[j].0);
    }
}

/// What a block gives for a key, in whatever order its entries stand: a version that the reader
/// sees, before which no other such version comes.
pub proof fn law_block_get(
    b: &Block,
    user_key: &[u8],
    max_seq: u64,
    r: Option<(InternalKey, Vec<u8>)>,
    i: int,
)
    requires
        call_ensures(Block::get, (b, user_key, max_seq), r),
        0 <= i < block::block_entries(b@).len(),
    ensures
        ({
            let x = block::block_entries(b@)[i];
            match r {
                Some(p) => {
                    &&& block::block_entries(b@).contains(key::record_view(p))
                    &&& p.0@.user_key == user_key@
                    &&& p.0@.seq <= max_seq
                    &&& x.0.user_key == user_key@ && x.0.seq <= max_seq ==> x.0.seq <= p.0@.seq
                },
                None => x.0.user_key != user_key@ || x.0.seq > max_seq,
            }
        }),
{
    let s = block::block_entries(b@);
    merging::law_block_gives_best(s, user_key@, max_seq, i);
    codec::lemma_bytes_lt_irreflexive(user_key@);
}

/// Where an index points a key: the first block that does not end before it, or else the last one.
pub proof fn law_find_block(ix: &IndexBlock, user_key: &[u8], r: Option<(u64, u32)>)
    requires
        call_ensures(IndexBlock::find_block, (ix, user_key), r),
    ensures
        r is None <==> ix@.len() == 0,
        r matches Some(p) ==> exists|i: int|
            0 <= i < ix@.len() && p == ((#[trigger] ix@[i]).1, ix@[i].2) && (forall|j: int|
                0 <= j < i ==> !codec::bytes_le(user_key@, #[trigger] lookups::separates(ix@[j])))
                && (i < ix@.len() - 1 ==> codec::bytes_le(user_key@, lookups::separates(ix@[i]))),
{
    if ix@.len() > 0 {
        let i = lookups::law_index_points_to_block(ix@, user_key@);
        assert((ix@[i].1, ix@[i].2) == r->Some_0);
    }
}

/// The size that a block is said to have while it is being filled is that of its entries as they
/// are laid out in the end.
pub proof fn law_block_builder(b: BlockBuilder, n: usize, made: Block)
    requires
        call_ensures(BlockBuilder::estimated_size, (&b,), n),
        call_ensures(BlockBuilder::finish, (b,), made),
    ensures
        made@.len() - 4 <= usize::MAX ==> n == made@.len() - 4,
        made@ == block::block_bytes(b@),
{
    layouts::law_block_size_is_that_of_its_bytes(b@);
}

/// A filter never rules out a key that it was built from, and rules out any other one exactly if a
/// probe of it looks at a bit at which no probe of those keys does.
pub proof fn law_filter(
    keys: &[Vec<u8>],
    bits_per_key: usize,
    b: BloomFilter,
    key: &[u8],
    r: bool,
)
    requires
        call_ensures(BloomFilter::build, (keys, bits_per_key), b),
        call_ensures(BloomFilter::may_contain, (&b, key), r),
        keys@.len() * filters::spent(bits_per_key) + 7 <= usize::MAX,
    ensures
        bloom::keys_view(keys@).contains(key@) ==> r,
        r <==> forall|i: int|
            0 <= i < b@.k ==> looked_at(
                bloom::keys_view(keys@),
                b@.k as int,
                b@.nbits as int,
                #[trigger] filters::probed(key@, i, b@.nbits as int),
            ),
        b@.nbits >= 64,
        1 <= b@.k <= 30,
{
    let ks = bloom::keys_view(keys@);
    filters::law_filter_size(b@, ks, bits_per_key);
    filters::law_filter_rules_out(b@, key@);
    if ks.contains(key@) {
        let a = choose|a: int| 0 <= a < ks.len() && ks[a] == key@;
        bloom::law_no_false_negative(ks, bits_per_key, b@, a);
    }
    let n = b@.nbits as int;
    assert forall|i: int| 0 <= i < b@.k implies (filters::is_set(
        b@.bits,
        #[trigger] filters::probed(key@, i, n),
    ) <==> looked_at(ks, b@.k as int, n, filters::probed(key@, i, n))) by {
        filters::law_filter_bits(b@, ks, bits_per_key, filters::probed(key@, i, n));
    }
    if !r {
        let i = choose|i: int|
            0 <= i < b@.k && !filters::is_set(b@.bits, #[trigger] filters::probed(key@, i, n));
        assert(!looked_at(ks, b@.k as int, n, filters::probed(key@, i, n)));
    } else {
        assert forall|i: int| 0 <= i < b@.k implies looked_at(
            ks,
            b@.k as int,
            n,
            #[trigger] filters::probed(key@, i, n),
        ) by {
            assert(filters::is_set(b@.bits, filters::probed(key@, i, n)));
        }
    }
}

/// One of the first `k` probes of one of the keys looks at bit `h`.
pub open spec fn looked_at(ks: Seq<Seq<u8>>, k: int, nbits: int, h: int) -> bool {
    exists|a: int, i: int|
        0 <= a < ks.len() && 0 <= i < k && h == #[trigger] filters::probed(ks[a], i, nbits)
}

/// What a finished table file is made of, and what is remembered of it.
pub proof fn law_finish_table(
    b: SsTableBuilder,
    fsync: FsyncMode,
    r: (Vec<u8>, SsTableMeta, bool),
)
    requires
        call_ensures(SsTableBuilder::finish, (b, fsync), r),
        b@.records.len() > 0,
    ensures
        r.0@ == builder::table_file(b@.records, b@.block_size, b@.bits_per_key),
        r.1.smallest@ == b@.records[0].0,
        r.1.largest@ == b@.records[b@.records.len() - 1].0,
        r.1.file_size == r.0@.len(),
        r.2 <==> fsync != FsyncMode::Never,
{
}

/// What merging streams tells a reader: the rows of the newest versions that they hold up to the
/// reader's sequence number, one for each user key, in the order of the keys.
pub proof fn law_merge_iterator(
    streams: Vec<Vec<(InternalKey, Vec<u8>)>>,
    max_seq: u64,
    skip: bool,
    it: MergeIterator,
    row: (Seq<u8>, Option<Seq<u8>>),
)
    requires
        call_ensures(MergeIterator::from_sorted_streams, (streams, max_seq, skip), it),
        iter::all_sorted(iter::runs_view(streams@)),
        coherence::agree(iter::runs_view(streams@)),
    ensures
        it.rest().contains(row) <==> exists|x: Record| #[trigger]
            merging::leads(iter::runs_view(streams@), max_seq, x) && answers::row_of(x) == row && (
            x.0.kind == ValueKind::Put || !skip),
        forall|i: int, j: int|
            0 <= i < j < it.rest().len() ==> codec::bytes_lt(
                (#[trigger] it.rest()[i]).0,
                (#[trigger] it.rest()[j]).0,
            ),
{
    merging::law_merge_tells_newest(iter::runs_view(streams@), max_seq, skip, row);
}

/// How many tables level 0 has, and how many bytes a level holds.
pub proof fn law_version_counts(v: &Version, level: usize, n: usize, bytes: u64)
    requires
        call_ensures(Version::l0_num_files, (v,), n),
        call_ensures(Version::level_bytes, (v, level), bytes),
    ensures
        v@.len() > 0 ==> n == v@[0].len(),
        v@.len() == 0 ==> n == 0,
        level < v@.len() ==> bytes == pacing::bytes_in(v@[level as int]),
        level >= v@.len() ==> bytes == 0,
{
    opening::law_level_counts_its_files(v@, level as int);
}

/// Which tables a read of a key looks at: of level 0 all that may hold it, the newest first; behind
/// them one of each further level that has one whose key range holds the key.
pub proof fn law_tables_for_key(v: &Version, user_key: &[u8], out: Vec<Arc<SsTable>>, l: int)
    requires
        call_ensures(Version::get_sstables_for_key, (v, user_key), out),
        1 <= l < v@.len(),
    ensures
        ({
            let all = version::tables_view(out@);
            let first = v@[0].filter(
                |t: TableView|
                    lookups::covers(t, user_key@) && bloom::may_hold(t.bloom, user_key@),
            ).reverse();
            &&& first.len() <= all.len() <= v@[0].len() + v@.len() - 1
            &&& all.take(first.len() as int) == first
            &&& (exists|i: int|
                0 <= i < v@[l].len() && lookups::covers(#[trigger] v@[l][i], user_key@))
                ==> exists|t: TableView| #[trigger]
                all.skip(first.len() as int).contains(t) && v@[l].contains(t) && lookups::covers(
                    t,
                    user_key@,
                )
        }),
{
    lookups::law_level0_tables_of_a_read(v@[0], user_key@);
    lookups::law_tables_of_a_read(v@, user_key@, l);
    lookups::law_one_table_of_each_level(v@[l], user_key@);
}

/// Which table of a level a key points to: one whose key range holds it, if there is one.
pub proof fn law_find_in_level(level: &Vec<Arc<SsTable>>, user_key: &[u8], r: Option<Arc<SsTable>>)
    requires
        call_ensures(find_in_level, (level, user_key), r),
    ensures
        match r {
            Some(t) => level@.contains(t) && lookups::covers(t@, user_key@),
            None => forall|i: int|
                0 <= i < level@.len() ==> !lookups::covers(#[trigger] level@[i]@, user_key@),
        },
{
    let s = version::tables_view(level@);
    lookups::law_one_table_of_each_level(s, user_key@);
    if r is None {
        assert forall|i: int| 0 <= i < level@.len() implies !lookups::covers(
            #[trigger] level@[i]@,
            user_key@,
        ) by {
            assert(s[i] == level@[i]@);
        }
    }
}

/// The key range of tables, and which tables of a level overlap a range.
pub proof fn law_ranges(
    tables: &Vec<Arc<SsTable>>,
    range: Option<(Vec<u8>, Vec<u8>)>,
    level: &Vec<Arc<SsTable>>,
    smallest: &[u8],
    largest: &[u8],
    out: Vec<Arc<SsTable>>,
    i: int,
)
    requires
        call_ensures(key_range, (tables,), range),
        call_ensures(overlapping, (level, smallest, largest), out),
    ensures
        range is None <==> tables@.len() == 0,
        range matches Some((lo, hi)) ==> 0 <= i < tables@.len() ==> codec::bytes_le(
            lo@,
            tables@[i]@.smallest,
        ) && codec::bytes_le(tables@[i]@.largest, hi@),
        version::tables_view(out@) == version::tables_view(level@).filter(
            |t: TableView|
                codec::bytes_le(smallest@, t.largest) && codec::bytes_le(t.smallest, largest@),
        ),
{
    let s = version::tables_view(tables@);
    if 0 <= i < s.len() {
        pacing::law_key_range(s, i);
    }
    pacing::law_overlapping_tables(version::tables_view(level@), smallest@, largest@);
}

/// The name of a table file: the number in decimal digits, six at least, and the extension; no two
/// numbers have the same.
pub proof fn law_file_name(a: u64, x: String, b: u64, y: String)
    requires
        call_ensures(table_file_name, (a,), x),
        call_ensures(table_file_name, (b,), y),
    ensures
        x@ == y@ <==> a == b,
        x@.len() >= 10,
        text::numeral_value(x@.take(x@.len() - 4)) == a,
        x@.skip(x@.len() - 4) == seq!['.', 's', 's', 't'],
{
    text::law_table_file_name(a);
    if a != b {
        text::law_table_file_names_differ(a, b);
    }
}

/// Snapshots that are opened are kept, and the watermark is the oldest that is open.
pub proof fn law_tracker(t: &mut SnapshotTracker, seq: u64, s: Snapshot, u: &SnapshotTracker, w: u64)
    requires
        call_ensures(SnapshotTracker::create_snapshot, (t, seq), s),
        call_ensures(SnapshotTracker::watermark, (u,), w),
    ensures
        s.seq == seq,
        final(t)@ == old(t)@.push(seq),
        forall|i: int| 0 <= i < u@.len() ==> w <= #[trigger] u@[i],
        u@.len() > 0 ==> u@.contains(w),
        u@.len() == 0 ==> w == u64::MAX,
{
    snapshot::law_watermark_is_oldest(u@);
}

/// A block that is put into the cache is there; all others stay, but for one that a full cache
/// gives up; and the cache does not outgrow its limit.
pub proof fn law_cache(c: &mut BlockCache, file_num: u64, offset: u64, b: Arc<Block>)
    requires
        call_ensures(BlockCache::insert, (c, file_num, offset, b), ()),
    ensures
        final(c).blocks().contains_key((file_num, offset)),
        final(c).blocks()[(file_num, offset)] == b,
        final(c).limit() == old(c).limit(),
        old(c).count() <= old(c).limit() && old(c).limit() > 0 ==> final(c).count()
            <= final(c).limit(),
        old(c).count() < old(c).limit() ==> final(c).blocks() == old(c).blocks().insert(
            (file_num, offset),
            b,
        ),
        old(c).count() >= old(c).limit() && old(c).count() > 0 ==> exists|p: (u64, u64)|
            #![trigger old(c).blocks().remove(p)]
            old(c).blocks().contains_key(p) && final(c).blocks() == old(c).blocks().remove(
                p,
            ).insert((file_num, offset), b),
{
}

/// Byte strings compare in lexicographic order.
pub proof fn law_bytes_compare(a: &[u8], b: &[u8], less: bool, less_or_equal: bool)
    requires
        call_ensures(codec::bytes_less, (a, b), less),
        call_ensures(codec::bytes_less_or_equal, (a, b), less_or_equal),
    ensures
        less <==> exists|i: int| #[trigger] order::parts_at(a@, b@, i),
        less_or_equal <==> a@ == b@ || exists|i: int| #[trigger] order::parts_at(a@, b@, i),
{
    order::law_bytes_order_is_lexicographic(a@, b@);
}

/// Where a footer stands and what it says: the last forty-four bytes of a file, and exactly the
/// numbers that were written there.
pub proof fn law_footer(file_size: u64, at: Result<u64>, b: &[u8], f: Result<Footer>)
    requires
        call_ensures(Footer::locate, (file_size,), at),
        call_ensures(Footer::decode, (b,), f),
        b@.len() == 44,
    ensures
        at is Ok <==> file_size >= 44,
        at matches Ok(n) ==> n + 44 == file_size,
        f matches Ok(x) ==> b@ == builder::footer_bytes(
            x.data_end,
            x.index_off,
            x.index_len,
            x.bloom_off,
            x.bloom_len,
        ),
        f is Ok <==> exists|x: Footer|
            b@ == #[trigger] builder::footer_bytes(
                x.data_end,
                x.index_off,
                x.index_len,
                x.bloom_off,
                x.bloom_len,
            ),
{
    if let Ok(x) = f {
        layouts::law_footer_is_read_from_its_bytes(b@, x);
    }
    if exists|x: Footer|
        b@ == #[trigger] builder::footer_bytes(
            x.data_end,
            x.index_off,
            x.index_len,
            x.bloom_off,
            x.bloom_len,
        ) {
        let x = choose|x: Footer|
            b@ == #[trigger] builder::footer_bytes(
                x.data_end,
                x.index_off,
                x.index_len,
                x.bloom_off,
                x.bloom_len,
            );
        layouts::law_footer_is_read_from_its_bytes(b@, x);
    }
}

/// Whether a table may hold a key: its key range holds it, and its filter does not rule it out; and
/// which blocks it has.
pub proof fn law_table_probe(t: &SsTable, user_key: &[u8], r: bool, reads: Vec<BlockRead>)
    requires
        call_ensures(SsTable::may_contain, (t, user_key), r),
        call_ensures(SsTable::block_reads, (t,), reads),
    ensures
        r <==> lookups::covers(t@, user_key@) && bloom::may_hold(t@.bloom, user_key@),
        reads@.len() == t@.index.len(),
        forall|i: int|
            0 <= i < reads@.len() ==> #[trigger] reads@[i] == (BlockRead {
                file_num: t@.file_num,
                offset: t@.index[i].1,
                len: t@.index[i].2,
            }),
{
    lookups::law_range_of_a_table(t@, user_key@);
}

/// The entries of a table: those of its blocks, one after the other.
pub proof fn law_table_entries(blocks: &Vec<Arc<Block>>, out: Vec<(InternalKey, Vec<u8>)>)
    requires
        call_ensures(SsTable::iter_all, (blocks,), out),
    ensures
        key::records_view(out@) == contents::join(
            Seq::new(blocks@.len(), |i: int| block::block_entries(blocks@[i]@)),
        ),
{
    let gs = Seq::new(blocks@.len(), |i: int| block::block_entries(blocks@[i]@));
    scans::lemma_blocks_join(reader::blocks_view(blocks@), gs);
}

/// The levels that a list of files makes up: on each the tables of its files that could be opened,
/// in their places.
pub proof fn law_version_from_files(
    files: &Vec<FileMeta>,
    opened: Vec<Option<SsTable>>,
    max_levels: usize,
    v: Version,
    l: int,
    t: TableView,
)
    requires
        call_ensures(Version::from_metas, (files, opened, max_levels), v),
        files@.len() == opened@.len(),
        0 <= l < max_levels,
    ensures
        v@.len() == max_levels,
        v@[l].contains(t) <==> exists|i: int|
            0 <= i < files@.len() && (#[trigger] files@[i]).level == l && (opened@[i] matches Some(x)
                && x@ == t),
        forall|i: int, j: int|
            0 <= i < j < v@[l].len() ==> opening::in_place(l, #[trigger] v@[l][i], #[trigger] v@[l][j]),
{
    let fs = manifest::files_view(files@);
    let os = version::opened_view(opened@);
    opening::law_levels_are_made_of_files(fs, os, max_levels as nat, l, t);
    if v@[l].contains(t) {
        let i = choose|i: int| 0 <= i < fs.len() && (#[trigger] fs[i]).level == l && os[i] == Some(t);
        assert(files@[i].level == l);
    }
    if exists|i: int|
        0 <= i < files@.len() && (#[trigger] files@[i]).level == l && (opened@[i] matches Some(x)
            && x@ == t) {
        let i = choose|i: int|
            0 <= i < files@.len() && (#[trigger] files@[i]).level == l && (opened@[i] matches Some(x)
                && x@ == t);
        assert(fs[i].level == l && os[i] == Some(t));
    }
}

} // verus!

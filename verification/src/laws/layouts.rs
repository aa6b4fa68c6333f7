//! What stands where in the bytes on disk, and that nothing else is read back.

use crate::checksum;
use crate::codec;
use crate::frame;
use crate::key;
use crate::key::{KeyView, Record, ValueKind};
use crate::manifest;
use crate::manifest::EditView;
use crate::sstable::block;
use crate::sstable::block::{IndexEntry, RawEntry};
use crate::sstable::bloom;
use crate::sstable::bloom::BloomView;
use crate::sstable::builder;
use crate::sstable::reader;
use crate::sstable::reader::Footer;
use crate::wal;
use vstd::prelude::*;

verus! {

/// A four-byte number stands with its lowest byte first.
pub proof fn law_four_bytes(x: u32)
    ensures
        codec::le32(x).len() == 4,
        codec::le32(x)[0] + codec::le32(x)[1] * 0x100 + codec::le32(x)[2] * 0x1_0000 + codec::le32(
            x,
        )[3] * 0x100_0000 == x,
{
    assert((x & 0xff) == x % 0x100) by (bit_vector);
    assert(((x >> 8) & 0xff) == (x / 0x100) % 0x100) by (bit_vector);
    assert(((x >> 16) & 0xff) == (x / 0x1_0000) % 0x100) by (bit_vector);
    assert(((x >> 24) & 0xff) == x / 0x100_0000) by (bit_vector);
}

/// An eight-byte number stands with its lowest byte first; where it is written the other way round,
/// with its highest byte first.
pub proof fn law_eight_bytes(x: u64)
    ensures
        codec::le64(x).len() == 8,
        codec::le64(x)[0] + codec::le64(x)[1] * 0x100 + codec::le64(x)[2] * 0x1_0000 + codec::le64(
            x,
        )[3] * 0x100_0000 + codec::le64(x)[4] * 0x1_0000_0000 + codec::le64(x)[5] * 0x100_0000_0000
            + codec::le64(x)[6] * 0x1_0000_0000_0000 + codec::le64(x)[7] * 0x100_0000_0000_0000
            == x,
        codec::be64(x) == codec::le64(x).reverse(),
{
    assert((x >> 8) >> 8 == x >> 16 && (x >> 16) >> 8 == x >> 24 && (x >> 24) >> 8 == x >> 32 && (x
        >> 32) >> 8 == x >> 40 && (x >> 40) >> 8 == x >> 48 && (x >> 48) >> 8 == x >> 56 && (x
        >> 56) >> 8 == 0) by (bit_vector);
    lemma_low_byte(x);
    lemma_low_byte(x >> 8);
    lemma_low_byte(x >> 16);
    lemma_low_byte(x >> 24);
    lemma_low_byte(x >> 32);
    lemma_low_byte(x >> 40);
    lemma_low_byte(x >> 48);
    lemma_low_byte(x >> 56);
    assert(codec::be64(x) =~= codec::le64(x).reverse());
}

proof fn lemma_low_byte(x: u64)
    ensures
        x == ((x & 0xff) as u8) + 0x100 * (x >> 8),
{
    assert(x & 0xff == x % 0x100) by (bit_vector);
    assert(x >> 8 == x / 0x100) by (bit_vector);
}

/// Four bytes are read as the number that is written with them.
pub proof fn law_four_bytes_read(s: Seq<u8>, at: int)
    requires
        0 <= at,
        at + 4 <= s.len(),
    ensures
        codec::le32(codec::u32_at(s, at)) == s.subrange(at, at + 4),
{
    let a = s[at];
    let b = s[at + 1];
    let c = s[at + 2];
    let d = s[at + 3];
    let x = codec::u32_at(s, at);
    assert(x == (a as u32) | ((b as u32) << 8) | ((c as u32) << 16) | ((d as u32) << 24));
    assert((x & 0xff) as u8 == a && ((x >> 8) & 0xff) as u8 == b && ((x >> 16) & 0xff) as u8 == c
        && ((x >> 24) & 0xff) as u8 == d) by (bit_vector)
        requires
            x == (a as u32) | ((b as u32) << 8) | ((c as u32) << 16) | ((d as u32) << 24),
    ;
    assert(codec::le32(x) =~= s.subrange(at, at + 4));
}

/// Eight bytes are read as the number that is written with them.
pub proof fn law_eight_bytes_read(s: Seq<u8>, at: int)
    requires
        0 <= at,
        at + 8 <= s.len(),
    ensures
        codec::le64(codec::u64_at(s, at)) == s.subrange(at, at + 8),
        codec::be64(codec::u64be_at(s, at)) == s.subrange(at, at + 8),
{
    lemma_eight(
        codec::u64_at(s, at),
        s[at],
        s[at + 1],
        s[at + 2],
        s[at + 3],
        s[at + 4],
        s[at + 5],
        s[at + 6],
        s[at + 7],
    );
    lemma_eight(
        codec::u64be_at(s, at),
        s[at + 7],
        s[at + 6],
        s[at + 5],
        s[at + 4],
        s[at + 3],
        s[at + 2],
        s[at + 1],
        s[at],
    );
    assert(codec::le64(codec::u64_at(s, at)) =~= s.subrange(at, at + 8));
    assert(codec::be64(codec::u64be_at(s, at)) =~= s.subrange(at, at + 8));
}

proof fn lemma_eight(x: u64, a: u8, b: u8, c: u8, d: u8, e: u8, f: u8, g: u8, h: u8)
    requires
        x == (a as u64) | ((b as u64) << 8) | ((c as u64) << 16) | ((d as u64) << 24) | ((e as u64)
            << 32) | ((f as u64) << 40) | ((g as u64) << 48) | ((h as u64) << 56),
    ensures
        (x & 0xff) as u8 == a,
        ((x >> 8) & 0xff) as u8 == b,
        ((x >> 16) & 0xff) as u8 == c,
        ((x >> 24) & 0xff) as u8 == d,
        ((x >> 32) & 0xff) as u8 == e,
        ((x >> 40) & 0xff) as u8 == f,
        ((x >> 48) & 0xff) as u8 == g,
        ((x >> 56) & 0xff) as u8 == h,
{
    assert((x & 0xff) as u8 == a && ((x >> 8) & 0xff) as u8 == b && ((x >> 16) & 0xff) as u8 == c
        && ((x >> 24) & 0xff) as u8 == d && ((x >> 32) & 0xff) as u8 == e && ((x >> 40)
        & 0xff) as u8 == f && ((x >> 48) & 0xff) as u8 == g && ((x >> 56) & 0xff) as u8 == h)
        by (bit_vector)
        requires
            x == (a as u64) | ((b as u64) << 8) | ((c as u64) << 16) | ((d as u64) << 24) | ((
            e as u64) << 32) | ((f as u64) << 40) | ((g as u64) << 48) | ((h as u64) << 56),
    ;
}

/// The byte of a kind, and that no other byte stands for one.
pub proof fn law_kind_bytes(v: u8, kind: ValueKind)
    ensures
        key::kind_of(v) == Some(kind) <==> v == key::kind_code(kind),
        key::kind_of(v) is Some <==> v <= 1,
        key::kind_code(ValueKind::Put) > key::kind_code(ValueKind::Delete),
{
}

/// A key is read from bytes exactly if these are the key's encoding: the user key, and behind it
/// seven bytes of sequence number and one of kind.
pub proof fn law_key_is_read_from_its_bytes(b: Seq<u8>, k: KeyView)
    ensures
        key::decode_key(b) == Ok::<KeyView, Seq<char>>(k) ==> key::encode_key(k) == b && k.seq
            < key::SEQ_LIMIT,
        key::decode_key(b) is Ok <==> b.len() >= 8 && b[b.len() - 1] <= 1,
{
    if b.len() >= 8 {
        let n = b.len() - 8;
        let tag = codec::u64be_at(b, n);
        law_eight_bytes_read(b, n);
        let t = codec::be64(tag);
        assert(t[7] == b.subrange(n, n + 8)[7]);
        assert(b[n + 7] == (tag & 0xff) as u8);
        assert((tag >> 8) < 0x0100_0000_0000_0000u64) by (bit_vector);
        assert(((tag >> 8) << 8) | (tag & 0xff) == tag) by (bit_vector);
        assert(((tag & 0xff) as u8) as u64 == tag & 0xff) by (bit_vector);
        if key::decode_key(b) == Ok::<KeyView, Seq<char>>(k) {
            assert(key::tag_of(k) == tag);
            assert(key::encode_key(k) =~= b);
        }
    }
}

/// A record of the log is read from bytes exactly if these are what is logged for the write.
pub proof fn law_record_is_read_from_its_bytes(b: Seq<u8>, r: Record)
    requires
        b.len() <= u32::MAX,
    ensures
        wal::record_of(b) == Ok::<Record, Seq<char>>(r) <==> b == wal::record_bytes(r)
            && wal::loggable(r),
{
    if wal::loggable(r) {
        wal::law_record_round_trip(r);
    }
    if wal::record_of(b) == Ok::<Record, Seq<char>>(r) {
        let n = r.0.user_key.len() as int;
        law_four_bytes_read(b, 0);
        law_four_bytes_read(b, 4);
        law_eight_bytes_read(b, 8 + n);
        law_four_bytes_read(b, 17 + n);
        assert(wal::record_bytes(r) =~= b.subrange(0, 4) + b.subrange(4, 8) + b.subrange(8, 8 + n)
            + b.subrange(8 + n, 16 + n) + seq![b[16 + n]] + b.subrange(17 + n, 21 + n)
            + b.subrange(21 + n, b.len() as int));
        assert(wal::record_bytes(r) =~= b);
    }
}

/// Where the parts of a logged write stand.
pub proof fn law_record_layout(r: Record)
    requires
        wal::loggable(r),
    ensures
        ({
            let b = wal::record_bytes(r);
            let n = r.0.user_key.len() as int;
            let m = r.1.len() as int;
            &&& b.len() == 21 + n + m
            &&& codec::u32_at(b, 0) == 0x4A_41_44_45
            &&& codec::u32_at(b, 4) == n
            &&& b.subrange(8, 8 + n) == r.0.user_key
            &&& codec::u64_at(b, 8 + n) == r.0.seq
            &&& b[16 + n] == if r.0.kind == ValueKind::Put {
                1u8
            } else {
                0u8
            }
            &&& codec::u32_at(b, 17 + n) == m
            &&& b.subrange(21 + n, 21 + n + m) == r.1
        }),
{
    let b = wal::record_bytes(r);
    let n = r.0.user_key.len() as int;
    let m = r.1.len() as int;
    assert(b.subrange(0, 4) =~= codec::le32(wal::MAGIC));
    codec::lemma_u32_at(b, 0, wal::MAGIC);
    assert(b.subrange(4, 8) =~= codec::le32(n as u32));
    codec::lemma_u32_at(b, 4, n as u32);
    assert(b.subrange(8, 8 + n) =~= r.0.user_key);
    assert(b.subrange(8 + n, 16 + n) =~= codec::le64(r.0.seq));
    codec::lemma_u64_at(b, 8 + n, r.0.seq);
    assert(b.subrange(17 + n, 21 + n) =~= codec::le32(m as u32));
    codec::lemma_u32_at(b, 17 + n, m as u32);
    assert(b.subrange(21 + n, 21 + n + m) =~= r.1);
}

/// Where the parts of a frame stand: length, checksum, record.
pub proof fn law_frame_layout(rec: Seq<u8>)
    requires
        rec.len() <= u32::MAX,
    ensures
        ({
            let b = frame::frame_bytes(rec);
            &&& b.len() == 8 + rec.len()
            &&& codec::u32_at(b, 0) == rec.len()
            &&& codec::u32_at(b, 4) == checksum::crc32(rec)
            &&& b.skip(8) == rec
        }),
{
    let b = frame::frame_bytes(rec);
    assert(b.subrange(0, 4) =~= codec::le32(rec.len() as u32));
    codec::lemma_u32_at(b, 0, rec.len() as u32);
    assert(b.subrange(4, 8) =~= codec::le32(checksum::crc32(rec)));
    codec::lemma_u32_at(b, 4, checksum::crc32(rec));
    assert(b.skip(8) =~= rec);
}

/// An edit is read from bytes exactly if these begin with what is logged for it.
pub proof fn law_edit_is_read_from_its_bytes(b: Seq<u8>, e: EditView)
    requires
        manifest::edit_complete(b),
        manifest::edit_of(b) == Ok::<EditView, Seq<char>>(e),
    ensures
        manifest::codable(e),
        manifest::edit_bytes(e).len() <= b.len(),
        b.take(manifest::edit_bytes(e).len() as int) == manifest::edit_bytes(e),
{
    let x = manifest::edit_bytes(e);
    match e {
        EditView::AddFile(m) => {
            let n = m.smallest.len() as int;
            let k = m.largest.len() as int;
            law_eight_bytes_read(b, 1);
            law_four_bytes_read(b, 9);
            law_four_bytes_read(b, 13);
            law_four_bytes_read(b, 17 + n);
            law_eight_bytes_read(b, 21 + n + k);
            assert(x =~= seq![b[0]] + b.subrange(1, 9) + b.subrange(9, 13) + b.subrange(13, 17)
                + b.subrange(17, 17 + n) + b.subrange(17 + n, 21 + n) + b.subrange(
                21 + n,
                21 + n + k,
            ) + b.subrange(21 + n + k, 29 + n + k));
            assert(b.take(x.len() as int) =~= x);
        },
        EditView::DeleteFile { level, file_num } => {
            law_four_bytes_read(b, 1);
            law_eight_bytes_read(b, 5);
            assert(x =~= seq![b[0]] + b.subrange(1, 5) + b.subrange(5, 13));
            assert(b.take(x.len() as int) =~= x);
        },
        _ => {
            law_eight_bytes_read(b, 1);
            assert(x =~= seq![b[0]] + b.subrange(1, 9));
            assert(b.take(x.len() as int) =~= x);
        },
    }
}

/// A complete edit can be read exactly if its first byte is one of four.
pub proof fn law_edit_is_known_by_its_first_byte(b: Seq<u8>)
    ensures
        manifest::edit_of(b) is Ok <==> b.len() > 0 && 1 <= b[0] <= 4,
        b.len() > 0 ==> (manifest::edit_of(b) matches Ok(e) ==> match e {
            EditView::AddFile(_) => b[0] == 1,
            EditView::DeleteFile { level: _, file_num: _ } => b[0] == 2,
            EditView::SetNextFileNum(_) => b[0] == 3,
            EditView::SetLastSeq(_) => b[0] == 4,
        }),
{
}

/// A footer is read from its forty-four bytes exactly if these are what is written for it.
pub proof fn law_footer_is_read_from_its_bytes(b: Seq<u8>, f: Footer)
    requires
        b.len() == 44,
    ensures
        reader::footer_of(b) == Ok::<Footer, Seq<char>>(f) <==> b == builder::footer_bytes(
            f.data_end,
            f.index_off,
            f.index_len,
            f.bloom_off,
            f.bloom_len,
        ),
{
    let x = builder::footer_bytes(f.data_end, f.index_off, f.index_len, f.bloom_off, f.bloom_len);
    if b == x {
        assert(b.subrange(0, 4) =~= codec::le32(builder::SST_MAGIC));
        codec::lemma_u32_at(b, 0, builder::SST_MAGIC);
        assert(b.subrange(4, 12) =~= codec::le64(f.data_end));
        codec::lemma_u64_at(b, 4, f.data_end);
        assert(b.subrange(12, 20) =~= codec::le64(f.index_off));
        codec::lemma_u64_at(b, 12, f.index_off);
        assert(b.subrange(20, 28) =~= codec::le64(f.index_len));
        codec::lemma_u64_at(b, 20, f.index_len);
        assert(b.subrange(28, 36) =~= codec::le64(f.bloom_off));
        codec::lemma_u64_at(b, 28, f.bloom_off);
        assert(b.subrange(36, 44) =~= codec::le64(f.bloom_len));
        codec::lemma_u64_at(b, 36, f.bloom_len);
    }
    if reader::footer_of(b) == Ok::<Footer, Seq<char>>(f) {
        law_four_bytes_read(b, 0);
        law_eight_bytes_read(b, 4);
        law_eight_bytes_read(b, 12);
        law_eight_bytes_read(b, 20);
        law_eight_bytes_read(b, 28);
        law_eight_bytes_read(b, 36);
        assert(x =~= b.subrange(0, 4) + b.subrange(4, 12) + b.subrange(12, 20) + b.subrange(20, 28)
            + b.subrange(28, 36) + b.subrange(36, 44));
        assert(x =~= b);
    }
}

/// A filter is read from bytes exactly if these are what is written for it.
pub proof fn law_filter_is_read_from_its_bytes(data: Seq<u8>, b: BloomView)
    requires
        data.len() >= 12 ==> codec::u64_at(data, 4) <= usize::MAX,
    ensures
        bloom::decode_bloom(data) == Ok::<BloomView, Seq<char>>(b) <==> data == bloom::bloom_bytes(
            b,
        ),
        bloom::decode_bloom(data) is Ok <==> data.len() >= 12,
{
    bloom::law_bloom_round_trip(b);
    if bloom::decode_bloom(data) == Ok::<BloomView, Seq<char>>(b) {
        law_four_bytes_read(data, 0);
        law_eight_bytes_read(data, 4);
        assert(bloom::bloom_bytes(b) =~= data.subrange(0, 4) + data.subrange(4, 12) + data.skip(12));
        assert(bloom::bloom_bytes(b) =~= data);
    }
}

/// An index is read from bytes exactly if these begin with what is written for it.
pub proof fn law_index_is_read_from_its_bytes(data: Seq<u8>, ix: Seq<IndexEntry>)
    requires
        block::decode_index(data) == Ok::<Seq<IndexEntry>, Seq<char>>(ix),
    ensures
        block::index_bytes(ix).len() <= data.len(),
        data.take(block::index_bytes(ix).len() as int) == block::index_bytes(ix),
        ix.len() == codec::u32_at(data, 0),
{
    let n = codec::u32_at(data, 0) as nat;
    law_four_bytes_read(data, 0);
    lemma_index_from(data, 4, n);
    let es = block::index_entries_bytes(ix);
    let x = block::index_bytes(ix);
    assert(x =~= data.subrange(0, 4) + data.subrange(4, (4 + es.len()) as int));
    assert(data.take(x.len() as int) =~= x);
}

proof fn lemma_index_front(s: Seq<IndexEntry>)
    requires
        s.len() > 0,
    ensures
        block::index_entries_bytes(s) == block::index_entry_bytes(s[0]) + block::index_entries_bytes(
            s.skip(1),
        ),
    decreases s.len(),
{
    let none = Seq::<IndexEntry>::empty();
    assert(block::index_entries_bytes(none) =~= Seq::<u8>::empty());
    if s.len() == 1 {
        assert(s.drop_last() =~= none);
        assert(s.skip(1) =~= none);
        assert(block::index_entries_bytes(s) =~= block::index_entry_bytes(s[0])
            + block::index_entries_bytes(s.skip(1)));
    } else {
        lemma_index_front(s.drop_last());
        assert(s.drop_last().skip(1) =~= s.skip(1).drop_last());
        assert(block::index_entries_bytes(s) =~= block::index_entry_bytes(s[0])
            + block::index_entries_bytes(s.skip(1)));
    }
}

proof fn lemma_index_from(data: Seq<u8>, o: int, n: nat)
    requires
        0 <= o <= data.len(),
        block::index_from(data, o, n) is Ok,
    ensures
        ({
            let ix = block::index_from(data, o, n)->Ok_0;
            let es = block::index_entries_bytes(ix);
            &&& ix.len() == n
            &&& o + es.len() <= data.len()
            &&& data.subrange(o, o + es.len()) == es
        }),
    decreases n,
{
    let ix = block::index_from(data, o, n)->Ok_0;
    let es = block::index_entries_bytes(ix);
    if n == 0 {
        assert(data.subrange(o, o + es.len()) =~= es);
    } else {
        let klen = codec::u32_at(data, o) as int;
        let o1 = o + 4;
        let o2 = o1 + klen + 12;
        lemma_index_from(data, o2, (n - 1) as nat);
        let rest = block::index_from(data, o2, (n - 1) as nat)->Ok_0;
        lemma_index_front(ix);
        assert(ix.skip(1) =~= rest);
        law_four_bytes_read(data, o);
        law_eight_bytes_read(data, o1 + klen);
        law_four_bytes_read(data, o1 + klen + 8);
        let e = ix[0];
        assert(block::index_entry_bytes(e) =~= data.subrange(o, o1) + data.subrange(o1, o1 + klen)
            + data.subrange(o1 + klen, o1 + klen + 8) + data.subrange(o1 + klen + 8, o2));
        assert(block::index_entry_bytes(e) =~= data.subrange(o, o2));
        let tail = block::index_entries_bytes(rest);
        assert(es =~= data.subrange(o, o2) + data.subrange(o2, o2 + tail.len()));
        assert(data.subrange(o, o + es.len()) =~= es);
    }
}

/// The size that a block is closed by is the length of its entries as they are laid out.
pub proof fn law_block_size_is_that_of_its_bytes(s: Seq<RawEntry>)
    ensures
        block::raw_size(s) == block::raw_entries_bytes(s).len(),
        block::block_bytes(s).len() == block::raw_size(s) + 4,
    decreases s.len(),
{
    if s.len() > 0 {
        law_block_size_is_that_of_its_bytes(s.drop_last());
    }
}

/// A frame whose checksum is not that of its record makes a log unreadable, whatever stands behind
/// it; the writes before it do not count.
#[verifier::rlimit(40)]
pub proof fn law_damaged_record_is_reported(
    writes: Seq<Record>,
    rec: Seq<u8>,
    crc: u32,
    rest: Seq<u8>,
)
    requires
        forall|i: int| 0 <= i < writes.len() ==> wal::loggable(#[trigger] writes[i]),
        rec.len() <= u32::MAX,
        crc != checksum::crc32(rec),
    ensures
        wal::recover_log(
            wal::log_bytes(writes) + codec::le32(rec.len() as u32) + codec::le32(crc) + rec + rest,
        ) == Err::<Seq<Record>, Seq<char>>("wal checksum mismatch"@),
{
    let bad = codec::le32(rec.len() as u32) + codec::le32(crc) + rec + rest;
    let decode = |b: Seq<u8>| wal::record_of(b);
    let recs = wal::log_records(writes);
    assert forall|i: int| 0 <= i < recs.len() implies (#[trigger] recs[i]).len() <= u32::MAX
        && decode(recs[i]) is Ok by {
        wal::law_record_round_trip(writes[i]);
    }
    lemma_bad_head(rec, crc, rest);
    lemma_error_behind(recs, bad, decode, "wal checksum mismatch"@);
    assert(wal::log_bytes(writes) + codec::le32(rec.len() as u32) + codec::le32(crc) + rec + rest
        =~= wal::log_bytes(writes) + bad);
}

/// The same of the manifest.
#[verifier::rlimit(40)]
pub proof fn law_damaged_edit_is_reported(
    edits: Seq<EditView>,
    rec: Seq<u8>,
    crc: u32,
    rest: Seq<u8>,
)
    requires
        forall|i: int| 0 <= i < edits.len() ==> manifest::editable(#[trigger] edits[i]),
        rec.len() <= u32::MAX,
        crc != checksum::crc32(rec),
    ensures
        manifest::recover_state(
            manifest::manifest_bytes(edits) + codec::le32(rec.len() as u32) + codec::le32(crc) + rec
                + rest,
        ) == Err::<manifest::StateView, Seq<char>>("manifest checksum"@),
{
    let bad = codec::le32(rec.len() as u32) + codec::le32(crc) + rec + rest;
    let decode = |b: Seq<u8>| manifest::edit_of(b);
    let recs = manifest::edit_records(edits);
    assert forall|i: int| 0 <= i < recs.len() implies (#[trigger] recs[i]).len() <= u32::MAX
        && decode(recs[i]) is Ok by {
        manifest::law_edit_round_trip(edits[i]);
    }
    lemma_bad_head(rec, crc, rest);
    lemma_error_behind(recs, bad, decode, "manifest checksum"@);
    assert(manifest::manifest_bytes(edits) + codec::le32(rec.len() as u32) + codec::le32(crc) + rec
        + rest =~= manifest::manifest_bytes(edits) + bad);
}

proof fn lemma_bad_head(rec: Seq<u8>, crc: u32, rest: Seq<u8>)
    requires
        rec.len() <= u32::MAX,
        crc != checksum::crc32(rec),
    ensures
        ({
            let bad = codec::le32(rec.len() as u32) + codec::le32(crc) + rec + rest;
            frame::has_frame(bad) && !frame::head_intact(bad)
        }),
{
    let bad = codec::le32(rec.len() as u32) + codec::le32(crc) + rec + rest;
    assert(bad.subrange(0, 4) =~= codec::le32(rec.len() as u32));
    codec::lemma_u32_at(bad, 0, rec.len() as u32);
    assert(bad.subrange(4, 8) =~= codec::le32(crc));
    codec::lemma_u32_at(bad, 4, crc);
    assert(frame::head_record(bad) =~= rec);
}

#[verifier::rlimit(40)]
proof fn lemma_error_behind<T>(
    recs: Seq<Seq<u8>>,
    bad: Seq<u8>,
    decode: spec_fn(Seq<u8>) -> Result<T, Seq<char>>,
    mismatch: Seq<char>,
)
    requires
        forall|i: int|
            0 <= i < recs.len() ==> (#[trigger] recs[i]).len() <= u32::MAX && decode(recs[i]) is Ok,
        frame::has_frame(bad),
        !frame::head_intact(bad),
    ensures
        frame::unframe(frame::frames_bytes(recs) + bad, decode, mismatch) == Err::<
            Seq<T>,
            Seq<char>,
        >(mismatch),
    decreases recs.len(),
{
    if recs.len() == 0 {
        assert(frame::frames_bytes(recs) + bad =~= bad);
    } else {
        let r2 = recs.skip(1);
        assert forall|i: int| 0 <= i < r2.len() implies (#[trigger] r2[i]).len() <= u32::MAX
            && decode(r2[i]) is Ok by {
            assert(r2[i] == recs[i + 1]);
        }
        lemma_error_behind(r2, bad, decode, mismatch);
        frame::lemma_frames_front(recs);
        assert(frame::frames_bytes(recs) + bad =~= frame::frame_bytes(recs[0]) + (
        frame::frames_bytes(r2) + bad));
        frame::lemma_unframe_front(recs[0], frame::frames_bytes(r2) + bad, decode, mismatch);
        assert(recs[0].len() <= u32::MAX && decode(recs[0]) is Ok);
    }
}

/// Where the parts of a table file stand: the blocks, the index behind them, the filter behind
/// that, and a footer of forty-four bytes at the end, which says so.
#[verifier::rlimit(40)]
pub proof fn law_table_file_layout(s: Seq<Record>, block_size: usize, bits_per_key: usize)
    requires
        builder::table_file(s, block_size, bits_per_key).len() <= u64::MAX,
    ensures
        ({
            let file = builder::table_file(s, block_size, bits_per_key);
            let n = file.len() - 44;
            &&& n >= 0
            &&& reader::footer_of(file.skip(n)) matches Ok(f)
            &&& f.data_end == f.index_off
            &&& f.index_off + f.index_len == f.bloom_off
            &&& f.bloom_off + f.bloom_len == n
            &&& file.take(f.data_end as int) == builder::groups_bytes(builder::groups(s, block_size))
            &&& file.subrange(f.index_off as int, f.bloom_off as int) == builder::table_index(
                s,
                block_size,
            )
            &&& file.subrange(f.bloom_off as int, n) == builder::table_bloom(s, bits_per_key)
        }),
{
    let file = builder::table_file(s, block_size, bits_per_key);
    let n = file.len() - 44;
    let data = builder::groups_bytes(builder::groups(s, block_size));
    let index = builder::table_index(s, block_size);
    let filter = builder::table_bloom(s, bits_per_key);
    let f = Footer {
        data_end: data.len() as u64,
        index_off: data.len() as u64,
        index_len: index.len() as u64,
        bloom_off: (data.len() + index.len()) as u64,
        bloom_len: filter.len() as u64,
    };
    let foot = builder::footer_bytes(
        f.data_end,
        f.index_off,
        f.index_len,
        f.bloom_off,
        f.bloom_len,
    );
    assert(foot.len() == 44);
    assert(file.skip(n) =~= foot);
    law_footer_is_read_from_its_bytes(foot, f);
    assert(file.take(data.len() as int) =~= data);
    assert(file.subrange(f.index_off as int, f.bloom_off as int) =~= index);
    assert(file.subrange(f.bloom_off as int, n) =~= filter);
}

/// The bytes of a record in a block.
pub open spec fn entry_bytes(r: Record) -> Seq<u8> {
    codec::le32((r.0.user_key.len() + 8) as u32) + key::encode_key(r.0) + codec::le32(
        r.1.len() as u32,
    ) + r.1
}

/// An entry is read from a position of a block exactly if its bytes stand there.
#[verifier::rlimit(40)]
pub proof fn law_entry_is_read_from_its_bytes(data: Seq<u8>, o: int, r: Record)
    requires
        0 <= o,
    ensures
        block::entry_step(data, o).0 == Some(r) ==> {
            let n = block::entry_step(data, o).1;
            o < n <= data.len() && data.subrange(o, n) == entry_bytes(r)
        },
        block::storable(r) && o + entry_bytes(r).len() <= data.len() && data.subrange(
            o,
            o + entry_bytes(r).len(),
        ) == entry_bytes(r) ==> block::entry_step(data, o) == (
            Some(r),
            (o + entry_bytes(r).len()) as int,
        ),
{
    let x = entry_bytes(r);
    let k = key::encode_key(r.0);
    let kn = k.len() as int;
    let vn = r.1.len() as int;
    if block::entry_step(data, o).0 == Some(r) {
        let n = block::entry_step(data, o).1;
        let len = codec::u32_at(data, o) as int;
        let o1 = o + 4;
        law_four_bytes_read(data, o);
        law_key_is_read_from_its_bytes(data.subrange(o1, o1 + len), r.0);
        law_four_bytes_read(data, o1 + len);
        assert(len == kn);
        assert(x =~= data.subrange(o, o1) + data.subrange(o1, o1 + len) + data.subrange(
            o1 + len,
            o1 + len + 4,
        ) + data.subrange(o1 + len + 4, n));
        assert(data.subrange(o, n) =~= x);
    }
    if block::storable(r) && o + x.len() <= data.len() && data.subrange(o, o + x.len()) == x {
        let s = data.subrange(o, o + x.len());
        assert(data.subrange(o, o + 4) =~= s.subrange(0, 4));
        assert(x.subrange(0, 4) =~= codec::le32(kn as u32));
        codec::lemma_u32_at(data, o, kn as u32);
        assert(data.subrange(o + 4, o + 4 + kn) =~= s.subrange(4, 4 + kn));
        assert(x.subrange(4, 4 + kn) =~= k);
        key::law_encode_decode(r.0);
        assert(data.subrange(o + 4 + kn, o + 8 + kn) =~= s.subrange(4 + kn, 8 + kn));
        assert(x.subrange(4 + kn, 8 + kn) =~= codec::le32(vn as u32));
        codec::lemma_u32_at(data, o + 4 + kn, vn as u32);
        assert(data.subrange(o + 8 + kn, o + 8 + kn + vn) =~= s.subrange(8 + kn, 8 + kn + vn));
        assert(x.subrange(8 + kn, 8 + kn + vn) =~= r.1);
    }
}

/// What is read from a block stands in it: one entry after the other from the fifth byte on, no
/// more than it claims to hold; and it is read until that many are, or no entry stands behind the
/// last.
pub proof fn law_block_is_read_from_its_bytes(data: Seq<u8>)
    requires
        data.len() >= 4,
    ensures
        ({
            let es = block::block_entries(data);
            let n = block::raw_entries_bytes(block::encode_records(es)).len() as int;
            &&& es.len() <= codec::u32_at(data, 0)
            &&& 4 + n <= data.len()
            &&& data.subrange(4, 4 + n) == block::raw_entries_bytes(block::encode_records(es))
            &&& es.len() < codec::u32_at(data, 0) ==> block::entry_step(data, 4 + n).0 is None
        }),
{
    lemma_entries_from(data, 4, codec::u32_at(data, 0) as nat);
}

proof fn lemma_entries_from(data: Seq<u8>, o: int, n: nat)
    requires
        0 <= o <= data.len(),
    ensures
        ({
            let es = block::entries_from(data, o, n);
            let x = block::raw_entries_bytes(block::encode_records(es));
            &&& es.len() <= n
            &&& o + x.len() <= data.len()
            &&& data.subrange(o, o + x.len()) == x
            &&& es.len() < n ==> block::entry_step(data, (o + x.len()) as int).0 is None
        }),
    decreases n,
{
    let es = block::entries_from(data, o, n);
    let raw = block::encode_records(es);
    let x = block::raw_entries_bytes(raw);
    if es.len() == 0 {
        assert(raw =~= Seq::<RawEntry>::empty());
        assert(data.subrange(o, o + x.len()) =~= x);
    } else {
        let r = es[0];
        let next = block::entry_step(data, o).1;
        assert(block::entry_step(data, o).0 == Some(r));
        law_entry_is_read_from_its_bytes(data, o, r);
        lemma_entries_from(data, next, (n - 1) as nat);
        let rest = block::entries_from(data, next, (n - 1) as nat);
        assert(es == seq![r] + rest);
        assert(raw.skip(1) =~= block::encode_records(rest));
        block::lemma_raw_entries_front(raw);
        let y = block::raw_entries_bytes(block::encode_records(rest));
        assert(block::raw_entry_bytes(raw[0]) =~= entry_bytes(r));
        assert(x =~= data.subrange(o, next) + data.subrange(next, next + y.len()));
        assert(data.subrange(o, o + x.len()) =~= x);
    }
}

} // verus!

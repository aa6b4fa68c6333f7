//! What a table holds, and that reading it gives back what was written.

use crate::codec;
use crate::key;
use crate::key::Record;
use crate::model;
use crate::sstable::block;
use crate::sstable::block::IndexEntry;
use crate::sstable::bloom;
use crate::sstable::bloom::BloomView;
use crate::sstable::builder;
use crate::sstable::builder::FOOTER_SIZE;
use crate::sstable::reader;
use crate::sstable::reader::{BlockRead, Disk, Footer, TableView};
use vstd::prelude::*;

verus! {

/// A run of runs, joined.
pub open spec fn join(gs: Seq<Seq<Record>>) -> Seq<Record>
    decreases gs.len(),
{
    if gs.len() == 0 {
        Seq::empty()
    } else {
        join(gs.drop_last()) + gs.last()
    }
}

/// The records of each block of a table, on a disk that gives `disk`.
pub open spec fn table_groups(t: TableView, disk: Disk) -> Seq<Seq<Record>> {
    Seq::new(t.index.len(), |i: int| block::block_entries(disk(reader::nth_read(t, i))))
}

/// The records of a table, on a disk that gives `disk`.
pub open spec fn contents(t: TableView, disk: Disk) -> Seq<Record> {
    join(table_groups(t, disk))
}

/// The index, the filter and the key range of a table fit its blocks, and its records are sorted.
pub open spec fn table_ok(t: TableView, disk: Disk) -> bool {
    let gs = table_groups(t, disk);
    &&& model::sorted(contents(t, disk))
    &&& contents(t, disk).len() > 0
    &&& bloom::in_bounds(t.bloom)
    &&& forall|i: int|
        0 <= i < gs.len() ==> (#[trigger] gs[i]).len() > 0 && block::separator_user_key(
            t.index[i].0,
        ) == gs[i].last().0.user_key
    &&& forall|i: int|
        0 <= i < contents(t, disk).len() ==> bloom::may_hold(
            t.bloom,
            (#[trigger] contents(t, disk)[i]).0.user_key,
        )
    &&& t.smallest == contents(t, disk)[0].0.user_key
    &&& t.largest == contents(t, disk).last().0.user_key
}

/// A run in front of others, joined with them.
pub proof fn lemma_join_front(gs: Seq<Seq<Record>>)
    requires
        gs.len() > 0,
    ensures
        join(gs) == gs[0] + join(gs.skip(1)),
    decreases gs.len(),
{
    if gs.len() == 1 {
        assert(gs.drop_last() =~= Seq::<Seq<Record>>::empty());
        assert(gs.skip(1) =~= Seq::<Seq<Record>>::empty());
        assert(join(gs) =~= gs[0] + join(gs.skip(1)));
    } else {
        lemma_join_front(gs.drop_last());
        assert(gs.drop_last().skip(1) =~= gs.skip(1).drop_last());
        assert(join(gs) =~= gs[0] + join(gs.skip(1)));
    }
}

/// Where the records of the `i`-th run stand in the joined run.
pub proof fn lemma_join_at(gs: Seq<Seq<Record>>, i: int)
    requires
        0 <= i < gs.len(),
    ensures
        join(gs.take(i)).len() + gs[i].len() <= join(gs).len(),
        join(gs).subrange(
            join(gs.take(i)).len() as int,
            (join(gs.take(i)).len() + gs[i].len()) as int,
        ) == gs[i],
        join(gs).take(join(gs.take(i)).len() as int) == join(gs.take(i)),
    decreases gs.len(),
{
    let p = gs.drop_last();
    if i == gs.len() - 1 {
        assert(gs.take(i) =~= p);
    } else {
        lemma_join_at(p, i);
        assert(p.take(i) =~= gs.take(i));
        assert(p[i] == gs[i]);
    }
    let a = join(gs.take(i)).len() as int;
    assert(join(gs).subrange(a, a + gs[i].len()) =~= gs[i]);
    assert(join(gs).take(a) =~= join(gs.take(i)));
}

proof fn lemma_skip_sorted(s: Seq<Record>, k: int)
    requires
        model::sorted(s),
        0 <= k <= s.len(),
    ensures
        model::sorted(s.skip(k)),
{
    let t = s.skip(k);
    assert forall|i: int, j: int| 0 <= i < j < t.len() implies key::key_lt(
        #[trigger] t[i].0,
        #[trigger] t[j].0,
    ) by {
        assert(t[i] == s[i + k] && t[j] == s[j + k]);
    }
}

proof fn lemma_take_sorted(s: Seq<Record>, k: int)
    requires
        model::sorted(s),
        0 <= k <= s.len(),
    ensures
        model::sorted(s.take(k)),
{
    let t = s.take(k);
    assert forall|i: int, j: int| 0 <= i < j < t.len() implies key::key_lt(
        #[trigger] t[i].0,
        #[trigger] t[j].0,
    ) by {
        assert(t[i] == s[i] && t[j] == s[j]);
    }
}

/// Reading block after block finds what a look through all records finds.
proof fn lemma_first_hit_all(
    reads: Seq<BlockRead>,
    gs: Seq<Seq<Record>>,
    disk: Disk,
    user_key: Seq<u8>,
    max_seq: u64,
)
    requires
        reads.len() == gs.len(),
        forall|i: int|
            0 <= i < gs.len() ==> #[trigger] gs[i] == block::block_entries(disk(reads[i])),
        model::sorted(join(gs)),
    ensures
        reader::first_hit(reads, disk, user_key, max_seq) == model::find(
            join(gs),
            user_key,
            max_seq,
        ),
    decreases reads.len(),
{
    if gs.len() > 0 {
        lemma_join_front(gs);
        let rest = gs.skip(1);
        let all = join(gs);
        let n = gs[0].len() as int;
        assert(all.take(n) =~= gs[0]);
        assert(all.skip(n) =~= join(rest));
        lemma_take_sorted(all, n);
        lemma_skip_sorted(all, n);
        assert forall|i: int| 0 <= i < rest.len() implies #[trigger] rest[i]
            == block::block_entries(disk(reads.skip(1)[i])) by {
            assert(rest[i] == gs[i + 1]);
        }
        lemma_first_hit_all(reads.skip(1), rest, disk, user_key, max_seq);
        model::lemma_find_concat(gs[0], join(rest), user_key, max_seq);
        model::lemma_best_of_sorted(gs[0], user_key, max_seq);
        assert(gs[0] == block::block_entries(disk(reads[0])));
    }
}

/// The index points to some block, and no separator before that block reaches the key.
proof fn lemma_block_for(s: Seq<IndexEntry>, user_key: Seq<u8>) -> (f: int)
    requires
        s.len() > 0,
    ensures
        0 <= f < s.len(),
        block::block_for(s, user_key) == Some((s[f].1, s[f].2)),
        forall|i: int|
            0 <= i < f ==> !codec::bytes_le(
                user_key,
                block::separator_user_key((#[trigger] s[i]).0),
            ),
    decreases s.len(),
{
    if s.len() == 1 || codec::bytes_le(user_key, block::separator_user_key(s[0].0)) {
        0
    } else {
        let t = s.skip(1);
        let g = lemma_block_for(t, user_key);
        assert forall|i: int| 0 <= i < g + 1 implies !codec::bytes_le(
            user_key,
            block::separator_user_key((#[trigger] s[i]).0),
        ) by {
            if i > 0 {
                assert(s[i] == t[i - 1]);
            }
        }
        g + 1
    }
}

/// In a sorted run user keys do not go down.
pub proof fn lemma_sorted_user_keys(s: Seq<Record>, i: int, j: int)
    requires
        model::sorted(s),
        0 <= i <= j < s.len(),
    ensures
        codec::bytes_le(s[i].0.user_key, s[j].0.user_key),
{
    if i < j {
        assert(key::key_lt(s[i].0, s[j].0));
    }
}

/// No record before the block that the index points to is a version of the key.
proof fn lemma_before_block(t: TableView, disk: Disk, user_key: Seq<u8>, max_seq: u64, f: int)
    requires
        table_ok(t, disk),
        0 <= f < t.index.len(),
        forall|i: int|
            0 <= i < f ==> !codec::bytes_le(
                user_key,
                block::separator_user_key((#[trigger] t.index[i]).0),
            ),
    ensures
        model::find(join(table_groups(t, disk).take(f)), user_key, max_seq) is None,
{
    let gs = table_groups(t, disk);
    let all = contents(t, disk);
    if f > 0 {
        let h = gs.take(f);
        let g = gs[f - 1];
        lemma_join_at(gs, f);
        assert(h.drop_last() =~= gs.take(f - 1));
        assert(h.last() == g);
        let pre = join(h);
        let n = pre.len() as int;
        assert(pre.last() == g.last());
        assert(all[n - 1] == pre[n - 1]);
        let sep = block::separator_user_key(t.index[f - 1].0);
        assert(sep == pre.last().0.user_key);
        codec::lemma_bytes_lt_total(user_key, sep);
        assert(codec::bytes_lt(sep, user_key));
        model::lemma_find_none(pre, user_key, max_seq);
        assert forall|i: int| 0 <= i < pre.len() implies !model::visible(
            #[trigger] pre[i],
            user_key,
            max_seq,
        ) by {
            assert(pre[i] == all[i]);
            lemma_sorted_user_keys(all, i, n - 1);
            codec::lemma_bytes_lt_irreflexive(user_key);
            if pre[i].0.user_key == user_key && user_key != sep {
                codec::lemma_bytes_lt_asymmetric(sep, user_key);
            }
        }
    } else {
        assert(gs.take(0) =~= Seq::<Seq<Record>>::empty());
    }
}

/// A lookup in a table finds the version that a look through all its records finds.
#[verifier::rlimit(40)]
pub proof fn law_lookup_finds(t: TableView, disk: Disk, user_key: Seq<u8>, max_seq: u64)
    requires
        table_ok(t, disk),
    ensures
        reader::first_hit(reader::lookup_reads(t, user_key), disk, user_key, max_seq)
            == model::find(contents(t, disk), user_key, max_seq),
{
    let all = contents(t, disk);
    let gs = table_groups(t, disk);
    let reads = reader::block_reads(t);
    if !reader::table_may_hold(t, user_key) {
        model::lemma_find_none(all, user_key, max_seq);
        assert forall|i: int| 0 <= i < all.len() implies !model::visible(
            #[trigger] all[i],
            user_key,
            max_seq,
        ) by {
            if all[i].0.user_key == user_key {
                lemma_sorted_user_keys(all, 0, i);
                lemma_sorted_user_keys(all, i, all.len() - 1);
                if codec::bytes_lt(user_key, t.smallest) {
                    codec::lemma_bytes_lt_asymmetric(user_key, t.smallest);
                }
                if codec::bytes_lt(t.largest, user_key) {
                    codec::lemma_bytes_lt_asymmetric(t.largest, user_key);
                }
            }
        }
    } else {
        assert forall|i: int| 0 <= i < gs.len() implies #[trigger] gs[i] == block::block_entries(
            disk(reads[i]),
        ) by {}
        lemma_first_hit_all(reads, gs, disk, user_key, max_seq);
        if t.index.len() > 0 {
            let f = lemma_block_for(t.index, user_key);
            let plan = reader::lookup_reads(t, user_key);
            let first = reader::nth_read(t, f);
            assert(plan =~= seq![first] + reads);
            assert(plan.skip(1) =~= reads);
            assert(plan[0] == first);
            lemma_join_at(gs, f);
            let a = join(gs.take(f)).len() as int;
            let n = gs[f].len() as int;
            assert(all.subrange(a, a + n) =~= all.skip(a).take(n));
            lemma_skip_sorted(all, a);
            lemma_take_sorted(all.skip(a), n);
            model::lemma_best_of_sorted(gs[f], user_key, max_seq);
            lemma_before_block(t, disk, user_key, max_seq, f);
            let tail = all.skip(a + n);
            assert(all =~= join(gs.take(f)) + (gs[f] + tail));
            model::lemma_find_concat(join(gs.take(f)), gs[f] + tail, user_key, max_seq);
            model::lemma_find_concat(gs[f], tail, user_key, max_seq);
        }
    }
}

/// Every block of the table, its index and its file can be laid out: lengths fit their fields.
pub open spec fn table_fits(s: Seq<Record>, block_size: usize, bits_per_key: usize) -> bool {
    let gs = builder::groups(s, block_size);
    &&& block::all_storable(s)
    &&& gs.len() <= u32::MAX
    &&& forall|i: int|
        0 <= i < gs.len() ==> builder::group_bytes(#[trigger] gs[i]).len() <= u32::MAX
    &&& builder::table_file(s, block_size, bits_per_key).len() <= u64::MAX
    &&& bloom::filter_fits(s.len(), bits_per_key)
}

/// What is known of the table that holds the records of `s`, once it is open.
pub open spec fn table_view(
    file_num: u64,
    s: Seq<Record>,
    block_size: usize,
    bits_per_key: usize,
) -> TableView {
    TableView {
        file_num,
        smallest: s[0].0.user_key,
        largest: s.last().0.user_key,
        file_size: builder::table_file(s, block_size, bits_per_key).len() as u64,
        index: builder::groups_index(builder::groups(s, block_size)),
        bloom: bloom::filter_of(builder::user_keys(s), bits_per_key),
    }
}

/// Reads of file `file_num` give the bytes of `file`.
pub open spec fn disk_has(disk: Disk, file_num: u64, file: Seq<u8>) -> bool {
    forall|r: BlockRead|
        r.file_num == file_num && r.offset + r.len <= file.len() ==> #[trigger] disk(r)
            == file.subrange(r.offset as int, r.offset + r.len)
}

/// The full blocks and the one being filled hold the records in order, and no full block is empty.
pub proof fn lemma_cut(s: Seq<Record>, block_size: usize)
    ensures
        ({
            let c = builder::cut(s, block_size);
            &&& join(c.full) + c.open == s
            &&& forall|i: int| 0 <= i < c.full.len() ==> (#[trigger] c.full[i]).len() > 0
        }),
    decreases s.len(),
{
    let c = builder::cut(s, block_size);
    if s.len() == 0 {
        assert(join(c.full) + c.open =~= s);
    } else {
        let p = s.drop_last();
        let d = builder::cut(p, block_size);
        lemma_cut(p, block_size);
        let open = d.open.push(s.last());
        assert(join(d.full) + open =~= (join(d.full) + d.open).push(s.last()));
        assert(p.push(s.last()) =~= s);
        if block::raw_size(block::encode_records(open)) >= block_size {
            assert(c.full.drop_last() =~= d.full);
            assert(c.full.last() == open);
            assert(join(c.full) + c.open =~= s);
            assert forall|i: int| 0 <= i < c.full.len() implies (#[trigger] c.full[i]).len() > 0 by {
                if i < d.full.len() {
                    assert(c.full[i] == d.full[i]);
                }
            }
        }
    }
}

/// The blocks of a table hold its records, in order, and no block is empty.
pub proof fn lemma_groups(s: Seq<Record>, block_size: usize)
    ensures
        join(builder::groups(s, block_size)) == s,
        forall|i: int|
            0 <= i < builder::groups(s, block_size).len() ==> (#[trigger] builder::groups(
                s,
                block_size,
            )[i]).len() > 0,
{
    lemma_cut(s, block_size);
    let c = builder::cut(s, block_size);
    let gs = builder::groups(s, block_size);
    if c.open.len() > 0 {
        assert(gs.drop_last() =~= c.full);
        assert(join(gs) =~= s);
        assert forall|i: int| 0 <= i < gs.len() implies (#[trigger] gs[i]).len() > 0 by {
            if i < c.full.len() {
                assert(gs[i] == c.full[i]);
            }
        }
    } else {
        assert(join(gs) =~= s);
    }
}

/// Where a block stands among the bytes of all blocks.
pub proof fn lemma_group_at(gs: Seq<Seq<Record>>, i: int)
    requires
        0 <= i < gs.len(),
    ensures
        builder::groups_bytes(gs.take(i)).len() + builder::group_bytes(gs[i]).len()
            <= builder::groups_bytes(gs).len(),
        builder::groups_bytes(gs).subrange(
            builder::groups_bytes(gs.take(i)).len() as int,
            (builder::groups_bytes(gs.take(i)).len() + builder::group_bytes(gs[i]).len()) as int,
        ) == builder::group_bytes(gs[i]),
    decreases gs.len(),
{
    let p = gs.drop_last();
    let all = builder::groups_bytes(gs);
    let a = builder::groups_bytes(gs.take(i)).len() as int;
    let g = builder::group_bytes(gs[i]);
    if i == gs.len() - 1 {
        assert(gs.take(i) =~= p);
        assert(all.subrange(a, a + g.len()) =~= g);
    } else {
        lemma_group_at(p, i);
        assert(p.take(i) =~= gs.take(i));
        assert(all.subrange(a, a + g.len()) =~= builder::groups_bytes(p).subrange(a, a + g.len()));
    }
}

proof fn lemma_raw_entries_len(s: Seq<block::RawEntry>)
    ensures
        block::raw_entries_bytes(s).len() >= s.len(),
    decreases s.len(),
{
    if s.len() > 0 {
        lemma_raw_entries_len(s.drop_last());
        assert(block::raw_entry_bytes(s.last()).len() >= 8);
    }
}

proof fn lemma_group_entries(g: Seq<Record>)
    requires
        block::all_storable(g),
        builder::group_bytes(g).len() <= u32::MAX,
    ensures
        block::block_entries(builder::group_bytes(g)) == g,
{
    lemma_raw_entries_len(block::encode_records(g));
    block::law_block_round_trip(g);
}

/// A table that was built from records, written to disk and opened again holds those records; if
/// they are sorted, its index, filter and key range fit them.
pub proof fn law_table_holds_records(
    disk: Disk,
    file_num: u64,
    s: Seq<Record>,
    block_size: usize,
    bits_per_key: usize,
)
    requires
        s.len() > 0,
        table_fits(s, block_size, bits_per_key),
        disk_has(disk, file_num, builder::table_file(s, block_size, bits_per_key)),
    ensures
        model::sorted(s) ==> table_ok(table_view(file_num, s, block_size, bits_per_key), disk),
        contents(table_view(file_num, s, block_size, bits_per_key), disk) == s,
{
    let t = table_view(file_num, s, block_size, bits_per_key);
    let gs = builder::groups(s, block_size);
    let file = builder::table_file(s, block_size, bits_per_key);
    let data = builder::groups_bytes(gs);
    lemma_groups(s, block_size);
    assert(data.len() <= file.len());
    assert forall|i: int| 0 <= i < gs.len() implies #[trigger] table_groups(t, disk)[i] == gs[i]
        && block::separator_user_key(t.index[i].0) == gs[i].last().0.user_key by {
        lemma_group_at(gs, i);
        lemma_join_at(gs, i);
        let a = builder::groups_bytes(gs.take(i)).len() as int;
        let n = builder::group_bytes(gs[i]).len() as int;
        let r = reader::nth_read(t, i);
        assert(r.offset == a && r.len == n);
        assert(disk(r) == file.subrange(a, a + n));
        assert(file.subrange(a, a + n) =~= data.subrange(a, a + n));
        let b = join(gs.take(i)).len() as int;
        assert forall|j: int| 0 <= j < gs[i].len() implies block::storable(#[trigger] gs[i][j]) by {
            assert(gs[i][j] == s.subrange(b, b + gs[i].len())[j]);
            assert(gs[i][j] == s[b + j]);
        }
        lemma_group_entries(gs[i]);
        let last = gs[i].last();
        assert(block::storable(gs[i][gs[i].len() - 1]));
        key::law_encode_decode(last.0);
    }
    assert(table_groups(t, disk) =~= gs);
    bloom::lemma_filter_exists(builder::user_keys(s), bits_per_key);
    assert forall|i: int| 0 <= i < s.len() implies bloom::may_hold(
        t.bloom,
        (#[trigger] s[i]).0.user_key,
    ) by {
        bloom::law_no_false_negative(builder::user_keys(s), bits_per_key, t.bloom, i);
        assert(builder::user_keys(s)[i] == s[i].0.user_key);
    }
}

proof fn lemma_footer(data_end: u64, index_off: u64, index_len: u64, bloom_off: u64, bloom_len: u64)
    ensures
        builder::footer_bytes(data_end, index_off, index_len, bloom_off, bloom_len).len()
            == FOOTER_SIZE,
        reader::footer_of(
            builder::footer_bytes(data_end, index_off, index_len, bloom_off, bloom_len),
        ) == Ok::<Footer, Seq<char>>(
            Footer { data_end, index_off, index_len, bloom_off, bloom_len },
        ),
{
    let b = builder::footer_bytes(data_end, index_off, index_len, bloom_off, bloom_len);
    assert(b.subrange(0, 4) =~= codec::le32(builder::SST_MAGIC));
    codec::lemma_u32_at(b, 0, builder::SST_MAGIC);
    assert(b.subrange(4, 12) =~= codec::le64(data_end));
    codec::lemma_u64_at(b, 4, data_end);
    assert(b.subrange(12, 20) =~= codec::le64(index_off));
    codec::lemma_u64_at(b, 12, index_off);
    assert(b.subrange(20, 28) =~= codec::le64(index_len));
    codec::lemma_u64_at(b, 20, index_len);
    assert(b.subrange(28, 36) =~= codec::le64(bloom_off));
    codec::lemma_u64_at(b, 28, bloom_off);
    assert(b.subrange(36, 44) =~= codec::le64(bloom_len));
    codec::lemma_u64_at(b, 36, bloom_len);
}

proof fn lemma_index_storable(s: Seq<Record>, block_size: usize)
    requires
        block::all_storable(s),
    ensures
        forall|j: int|
            0 <= j < builder::groups(s, block_size).len() ==> (#[trigger] builder::groups_index(
                builder::groups(s, block_size),
            )[j]).0.len() <= u32::MAX,
{
    let gs = builder::groups(s, block_size);
    lemma_groups(s, block_size);
    assert forall|j: int| 0 <= j < gs.len() implies (#[trigger] builder::groups_index(
        gs,
    )[j]).0.len() <= u32::MAX by {
        lemma_join_at(gs, j);
        let a = join(gs.take(j)).len() as int;
        let m = gs[j].len() as int;
        assert(gs[j].len() > 0);
        assert(gs[j][m - 1] == s.subrange(a, a + m)[m - 1]);
        assert(gs[j].last() == s[a + m - 1]);
        assert(block::storable(s[a + m - 1]));
        key::law_encode_decode(gs[j].last().0);
    }
}

proof fn lemma_four_parts(a: Seq<u8>, b: Seq<u8>, c: Seq<u8>, d: Seq<u8>)
    ensures
        ({
            let s = a + b + c + d;
            let x = a.len() as int;
            let y = x + b.len();
            let z = y + c.len();
            let n = z + d.len();
            &&& s.len() == n
            &&& s.subrange(x, y) == b
            &&& s.subrange(y, z) == c
            &&& s.subrange(z, n) == d
        }),
{
    let s = a + b + c + d;
    let x = a.len() as int;
    let y = x + b.len();
    let z = y + c.len();
    let n = z + d.len();
    assert(s.subrange(x, y) =~= b);
    assert(s.subrange(y, z) =~= c);
    assert(s.subrange(z, n) =~= d);
}

/// The footer of a finished table file leads to its index and its filter, and these decode.
pub proof fn law_table_file_opens(s: Seq<Record>, block_size: usize, bits_per_key: usize)
    requires
        s.len() > 0,
        table_fits(s, block_size, bits_per_key),
    ensures
        ({
            let file = builder::table_file(s, block_size, bits_per_key);
            let n = file.len() as int;
            &&& n >= FOOTER_SIZE
            &&& reader::footer_of(file.subrange(n - FOOTER_SIZE, n)) matches Ok(f)
            &&& f.index_off + f.index_len <= n
            &&& f.bloom_off + f.bloom_len <= n
            &&& block::decode_index(
                file.subrange(f.index_off as int, f.index_off + f.index_len),
            ) == Ok::<Seq<IndexEntry>, Seq<char>>(
                builder::groups_index(builder::groups(s, block_size)),
            )
            &&& bloom::decode_bloom(
                file.subrange(f.bloom_off as int, f.bloom_off + f.bloom_len),
            ) == Ok::<BloomView, Seq<char>>(
                bloom::filter_of(builder::user_keys(s), bits_per_key),
            )
        }),
{
    let gs = builder::groups(s, block_size);
    let data = builder::groups_bytes(gs);
    let index = builder::table_index(s, block_size);
    let filter = builder::table_bloom(s, bits_per_key);
    let d = data.len() as u64;
    let i = index.len() as u64;
    let o = (data.len() + index.len()) as u64;
    let b = filter.len() as u64;
    let foot = builder::footer_bytes(d, d, i, o, b);
    lemma_footer(d, d, i, o, b);
    lemma_four_parts(data, index, filter, foot);
    lemma_index_storable(s, block_size);
    block::law_index_round_trip(builder::groups_index(gs));
    bloom::law_bloom_round_trip(bloom::filter_of(builder::user_keys(s), bits_per_key));
}

} // verus!

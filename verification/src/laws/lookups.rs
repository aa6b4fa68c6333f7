//! Which tables and which blocks a read looks at.

use crate::codec;
use crate::sstable::block;
use crate::sstable::block::IndexEntry;
use crate::sstable::bloom;
use crate::sstable::reader;
use crate::sstable::reader::{BlockRead, TableView};
use crate::version;
use vstd::prelude::*;

verus! {

/// The key lies in the key range of the table.
pub open spec fn covers(t: TableView, user_key: Seq<u8>) -> bool {
    codec::bytes_le(t.smallest, user_key) && codec::bytes_le(user_key, t.largest)
}

/// A table may hold a key as far as its key range tells exactly if the range holds it.
pub proof fn law_range_of_a_table(t: TableView, user_key: Seq<u8>)
    ensures
        reader::in_range(t, user_key) <==> covers(t, user_key),
        reader::table_may_hold(t, user_key) <==> covers(t, user_key) && bloom::may_hold(
            t.bloom,
            user_key,
        ),
{
    codec::lemma_bytes_lt_total(t.smallest, user_key);
    codec::lemma_bytes_lt_total(user_key, t.largest);
    codec::lemma_bytes_lt_irreflexive(user_key);
    if codec::bytes_lt(user_key, t.smallest) {
        codec::lemma_bytes_lt_asymmetric(user_key, t.smallest);
    }
    if codec::bytes_lt(t.largest, user_key) {
        codec::lemma_bytes_lt_asymmetric(t.largest, user_key);
    }
}

/// Of level 0 a read looks at the tables whose key range holds the key and whose filter does not
/// rule it out, all of them and no others, the newest first.
pub proof fn law_level0_tables_of_a_read(s: Seq<TableView>, user_key: Seq<u8>)
    ensures
        version::l0_candidates(s, user_key) == s.filter(
            |t: TableView| covers(t, user_key) && bloom::may_hold(t.bloom, user_key),
        ).reverse(),
    decreases s.len(),
{
    reveal(Seq::filter);
    let p = |t: TableView| covers(t, user_key) && bloom::may_hold(t.bloom, user_key);
    let all = version::l0_candidates(s, user_key);
    if s.len() == 0 {
        assert(all =~= s.filter(p).reverse());
    } else {
        law_level0_tables_of_a_read(s.drop_last(), user_key);
        law_range_of_a_table(s.last(), user_key);
        let q = s.drop_last().filter(p);
        if p(s.last()) {
            assert(q.push(s.last()).reverse() =~= seq![s.last()] + q.reverse());
        }
    }
}

/// Of each further level a read looks at one table at most: one whose key range holds the key, and
/// there is one wherever the level has such a table.
pub proof fn law_one_table_of_each_level(s: Seq<TableView>, user_key: Seq<u8>)
    ensures
        match version::spanning(s, user_key) {
            Some(t) => s.contains(t) && covers(t, user_key),
            None => forall|i: int| 0 <= i < s.len() ==> !covers(#[trigger] s[i], user_key),
        },
    decreases s.len(),
{
    if s.len() > 0 {
        let t = s.skip(1);
        law_one_table_of_each_level(t, user_key);
        assert(s.contains(s[0]));
        if !covers(s[0], user_key) {
            if let Some(x) = version::spanning(t, user_key) {
                let i = choose|i: int| 0 <= i < t.len() && t[i] == x;
                assert(s[i + 1] == x);
            } else {
                assert forall|i: int| 0 <= i < s.len() implies !covers(#[trigger] s[i], user_key) by {
                    if i > 0 {
                        assert(s[i] == t[i - 1]);
                    }
                }
            }
        }
    }
}

/// The tables of a read: those of level 0, and behind them one for each further level that has one,
/// from the first to the last.
pub proof fn law_tables_of_a_read(levels: Seq<Seq<TableView>>, user_key: Seq<u8>, l: int)
    requires
        1 <= l < levels.len(),
    ensures
        ({
            let all = version::candidates(levels, user_key);
            let first = version::l0_candidates(levels[0], user_key);
            &&& all.len() <= levels[0].len() + levels.len() - 1
            &&& first.len() <= all.len()
            &&& all.take(first.len() as int) == first
            &&& version::spanning(levels[l], user_key) matches Some(t) ==> all.skip(
                first.len() as int,
            ).contains(t)
        }),
{
    let all = version::candidates(levels, user_key);
    let first = version::l0_candidates(levels[0], user_key);
    let rest = version::leveled_candidates(levels.skip(1), user_key);
    lemma_level0_count(levels[0], user_key);
    lemma_leveled(levels.skip(1), user_key, l - 1);
    assert(levels.skip(1)[l - 1] == levels[l]);
    assert(all.take(first.len() as int) =~= first);
    assert(all.skip(first.len() as int) =~= rest);
}

proof fn lemma_level0_count(s: Seq<TableView>, user_key: Seq<u8>)
    ensures
        version::l0_candidates(s, user_key).len() <= s.len(),
    decreases s.len(),
{
    if s.len() > 0 {
        lemma_level0_count(s.drop_last(), user_key);
    }
}

proof fn lemma_leveled(ls: Seq<Seq<TableView>>, user_key: Seq<u8>, l: int)
    requires
        0 <= l < ls.len(),
    ensures
        version::leveled_candidates(ls, user_key).len() <= ls.len(),
        version::spanning(ls[l], user_key) matches Some(t) ==> version::leveled_candidates(
            ls,
            user_key,
        ).contains(t),
    decreases ls.len(),
{
    let p = ls.drop_last();
    let q = version::leveled_candidates(p, user_key);
    let all = version::leveled_candidates(ls, user_key);
    if p.len() > 0 {
        lemma_leveled(
            p,
            user_key,
            if l < p.len() {
                l
            } else {
                0
            },
        );
    } else {
        assert(q.len() == 0);
    }
    if let Some(t) = version::spanning(ls[l], user_key) {
        if l < p.len() {
            assert(p[l] == ls[l]);
            let i = choose|i: int| 0 <= i < q.len() && q[i] == t;
            assert(all[i] == t);
        } else {
            assert(all[q.len() as int] == t);
        }
    }
}

/// The user key that a separator of the index ends its block with.
pub open spec fn separates(e: IndexEntry) -> Seq<u8> {
    if e.0.len() >= 8 {
        e.0.take(e.0.len() - 8)
    } else {
        e.0
    }
}

/// The index points a key to the first block that does not end before it, or else to the last
/// block.
pub proof fn law_index_points_to_block(s: Seq<IndexEntry>, user_key: Seq<u8>) -> (i: int)
    requires
        s.len() > 0,
    ensures
        0 <= i < s.len(),
        block::block_for(s, user_key) == Some((s[i].1, s[i].2)),
        forall|j: int|
            0 <= j < i ==> !codec::bytes_le(user_key, #[trigger] separates(s[j])),
        i < s.len() - 1 ==> codec::bytes_le(user_key, separates(s[i])),
    decreases s.len(),
{
    if s.len() == 1 || codec::bytes_le(user_key, separates(s[0])) {
        0
    } else {
        let t = s.skip(1);
        let k = law_index_points_to_block(t, user_key);
        assert forall|j: int| 0 <= j < k + 1 implies !codec::bytes_le(
            user_key,
            #[trigger] separates(s[j]),
        ) by {
            if j > 0 {
                assert(s[j] == t[j - 1]);
                assert(!codec::bytes_le(user_key, separates(t[j - 1])));
            }
        }
        k + 1
    }
}

/// A table whose key range or filter rules a key out is not read. Any other is read first where its
/// index points to, and then, should the key not be there, block by block.
pub proof fn law_blocks_of_a_read(t: TableView, user_key: Seq<u8>)
    ensures
        ({
            let reads = reader::lookup_reads(t, user_key);
            let n = t.index.len();
            if !covers(t, user_key) || !bloom::may_hold(t.bloom, user_key) || n == 0 {
                reads.len() == 0
            } else {
                &&& reads.len() == n + 1
                &&& block::block_for(t.index, user_key) == Some((reads[0].offset, reads[0].len))
                &&& reads[0].file_num == t.file_num
                &&& forall|i: int|
                    0 <= i < n ==> #[trigger] reads[i + 1] == (BlockRead {
                        file_num: t.file_num,
                        offset: t.index[i].1,
                        len: t.index[i].2,
                    })
            }
        }),
{
    law_range_of_a_table(t, user_key);
    if t.index.len() > 0 {
        let i = law_index_points_to_block(t.index, user_key);
    }
}

} // verus!

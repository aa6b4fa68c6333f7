//! What the levels of the tree hold, and that a lookup finds it.

use crate::codec;
use crate::key::Record;
use crate::model;
use crate::sstable::contents;
use crate::sstable::reader;
use crate::sstable::reader::{BlockRead, Disk, TableView};
use crate::version;
use vstd::prelude::*;

verus! {

/// What each table of a run holds.
pub open spec fn each_contents(s: Seq<TableView>, disk: Disk) -> Seq<Seq<Record>> {
    Seq::new(s.len(), |i: int| contents::contents(s[i], disk))
}

/// What a level whose tables do not overlap holds.
pub open spec fn level_contents(s: Seq<TableView>, disk: Disk) -> Seq<Record> {
    contents::join(each_contents(s, disk))
}

/// What each of the levels below level 0 holds.
pub open spec fn leveled_sources(ls: Seq<Seq<TableView>>, disk: Disk) -> Seq<Seq<Record>> {
    Seq::new(ls.len(), |i: int| level_contents(ls[i], disk))
}

/// What the tables hold, in the order in which a reader asks: the tables of level 0 one by one,
/// newest first, then level by level.
pub open spec fn table_sources(levels: Seq<Seq<TableView>>, disk: Disk) -> Seq<Seq<Record>> {
    if levels.len() == 0 {
        Seq::empty()
    } else {
        each_contents(levels[0].reverse(), disk) + leveled_sources(levels.skip(1), disk)
    }
}

/// Every table is in order.
pub open spec fn tables_ok(s: Seq<TableView>, disk: Disk) -> bool {
    forall|i: int| 0 <= i < s.len() ==> contents::table_ok(#[trigger] s[i], disk)
}

/// The key ranges of the tables rise and do not overlap.
pub open spec fn disjoint(s: Seq<TableView>) -> bool {
    forall|i: int, j: int|
        0 <= i < j < s.len() ==> codec::bytes_lt(
            (#[trigger] s[i]).largest,
            (#[trigger] s[j]).smallest,
        )
}

/// Every table of every level is in order, and below level 0 the tables of a level do not overlap.
pub open spec fn levels_ok(levels: Seq<Seq<TableView>>, disk: Disk) -> bool {
    &&& forall|l: int| 0 <= l < levels.len() ==> tables_ok(#[trigger] levels[l], disk)
    &&& forall|l: int| 1 <= l < levels.len() ==> disjoint(#[trigger] levels[l])
}

/// The first of two results that is there.
pub open spec fn or_else(a: Option<Record>, b: Option<Record>) -> Option<Record> {
    match a {
        Some(r) => Some(r),
        None => b,
    }
}

/// Reading two runs of sources in turn.
pub proof fn lemma_read_concat(
    a: Seq<Seq<Record>>,
    b: Seq<Seq<Record>>,
    user_key: Seq<u8>,
    max_seq: u64,
)
    ensures
        model::read(a + b, user_key, max_seq) == or_else(
            model::read(a, user_key, max_seq),
            model::read(b, user_key, max_seq),
        ),
    decreases a.len(),
{
    if a.len() == 0 {
        assert(a + b =~= b);
    } else {
        lemma_read_concat(a.skip(1), b, user_key, max_seq);
        assert((a + b).skip(1) =~= a.skip(1) + b);
        assert((a + b)[0] == a[0]);
    }
}

/// Reading one source.
pub proof fn lemma_read_one(a: Seq<Record>, user_key: Seq<u8>, max_seq: u64)
    ensures
        model::read(seq![a], user_key, max_seq) == model::find(a, user_key, max_seq),
{
    assert(seq![a].skip(1) =~= Seq::<Seq<Record>>::empty());
    reveal_with_fuel(model::read, 2);
}

proof fn lemma_hit_concat(
    a: Seq<BlockRead>,
    b: Seq<BlockRead>,
    disk: Disk,
    user_key: Seq<u8>,
    max_seq: u64,
)
    ensures
        reader::first_hit(a + b, disk, user_key, max_seq) == or_else(
            reader::first_hit(a, disk, user_key, max_seq),
            reader::first_hit(b, disk, user_key, max_seq),
        ),
    decreases a.len(),
{
    if a.len() == 0 {
        assert(a + b =~= b);
    } else {
        lemma_hit_concat(a.skip(1), b, disk, user_key, max_seq);
        assert((a + b).skip(1) =~= a.skip(1) + b);
        assert((a + b)[0] == a[0]);
    }
}

proof fn lemma_reads_concat(a: Seq<TableView>, b: Seq<TableView>, user_key: Seq<u8>)
    ensures
        version::tables_reads(a + b, user_key) == version::tables_reads(a, user_key)
            + version::tables_reads(b, user_key),
    decreases b.len(),
{
    if b.len() == 0 {
        assert(a + b =~= a);
        assert(version::tables_reads(a, user_key) + version::tables_reads(b, user_key)
            =~= version::tables_reads(a, user_key));
    } else {
        lemma_reads_concat(a, b.drop_last(), user_key);
        assert((a + b).drop_last() =~= a + b.drop_last());
        assert((a + b).last() == b.last());
        assert(version::tables_reads(a + b, user_key) =~= version::tables_reads(a, user_key)
            + version::tables_reads(b, user_key));
    }
}

/// What a lookup in a run of tables finds, one table after the other.
pub open spec fn tables_hit(
    s: Seq<TableView>,
    disk: Disk,
    user_key: Seq<u8>,
    max_seq: u64,
) -> Option<Record> {
    reader::first_hit(version::tables_reads(s, user_key), disk, user_key, max_seq)
}

proof fn lemma_tables_hit_concat(
    a: Seq<TableView>,
    b: Seq<TableView>,
    disk: Disk,
    user_key: Seq<u8>,
    max_seq: u64,
)
    ensures
        tables_hit(a + b, disk, user_key, max_seq) == or_else(
            tables_hit(a, disk, user_key, max_seq),
            tables_hit(b, disk, user_key, max_seq),
        ),
{
    lemma_reads_concat(a, b, user_key);
    lemma_hit_concat(
        version::tables_reads(a, user_key),
        version::tables_reads(b, user_key),
        disk,
        user_key,
        max_seq,
    );
}

proof fn lemma_tables_hit_one(t: TableView, disk: Disk, user_key: Seq<u8>, max_seq: u64)
    requires
        contents::table_ok(t, disk),
    ensures
        tables_hit(seq![t], disk, user_key, max_seq) == model::find(
            contents::contents(t, disk),
            user_key,
            max_seq,
        ),
{
    assert(seq![t].drop_last() =~= Seq::<TableView>::empty());
    reveal_with_fuel(version::tables_reads, 2);
    assert(version::tables_reads(seq![t], user_key) =~= reader::lookup_reads(t, user_key));
    contents::law_lookup_finds(t, disk, user_key, max_seq);
}

proof fn lemma_l0_hit(s: Seq<TableView>, disk: Disk, user_key: Seq<u8>, max_seq: u64)
    requires
        tables_ok(s, disk),
    ensures
        tables_hit(version::l0_candidates(s, user_key), disk, user_key, max_seq) == model::read(
            each_contents(s.reverse(), disk),
            user_key,
            max_seq,
        ),
    decreases s.len(),
{
    if s.len() > 0 {
        let p = s.drop_last();
        let t = s.last();
        assert forall|i: int| 0 <= i < p.len() implies contents::table_ok(#[trigger] p[i], disk) by {
            assert(p[i] == s[i]);
        }
        assert(contents::table_ok(s[s.len() - 1], disk));
        lemma_l0_hit(p, disk, user_key, max_seq);
        let ss = each_contents(s.reverse(), disk);
        assert(ss[0] == contents::contents(t, disk));
        assert(ss.skip(1) =~= each_contents(p.reverse(), disk));
        contents::law_lookup_finds(t, disk, user_key, max_seq);
        lemma_tables_hit_one(t, disk, user_key, max_seq);
        lemma_tables_hit_concat(
            seq![t],
            version::l0_candidates(p, user_key),
            disk,
            user_key,
            max_seq,
        );
    }
}

/// A table whose key range does not hold the key has no version of it.
pub proof fn lemma_not_spanned(t: TableView, disk: Disk, user_key: Seq<u8>, max_seq: u64)
    requires
        contents::table_ok(t, disk),
        !version::spans(t, user_key),
    ensures
        model::find(contents::contents(t, disk), user_key, max_seq) is None,
{
    let all = contents::contents(t, disk);
    model::lemma_find_none(all, user_key, max_seq);
    assert forall|i: int| 0 <= i < all.len() implies !model::visible(
        #[trigger] all[i],
        user_key,
        max_seq,
    ) by {
        contents::lemma_sorted_user_keys(all, 0, i);
        contents::lemma_sorted_user_keys(all, i, all.len() - 1);
    }
}

/// What a level holds is what its first table holds and what the others hold.
pub proof fn lemma_level_front(s: Seq<TableView>, disk: Disk)
    requires
        s.len() > 0,
    ensures
        level_contents(s, disk) == contents::contents(s[0], disk) + level_contents(s.skip(1), disk),
{
    let gs = each_contents(s, disk);
    contents::lemma_join_front(gs);
    assert(gs.skip(1) =~= each_contents(s.skip(1), disk));
}

proof fn lemma_none_spans(s: Seq<TableView>, disk: Disk, user_key: Seq<u8>, max_seq: u64)
    requires
        tables_ok(s, disk),
        forall|i: int| 0 <= i < s.len() ==> !version::spans(#[trigger] s[i], user_key),
    ensures
        model::find(level_contents(s, disk), user_key, max_seq) is None,
    decreases s.len(),
{
    if s.len() > 0 {
        let p = s.skip(1);
        assert forall|i: int| 0 <= i < p.len() implies contents::table_ok(#[trigger] p[i], disk)
            && !version::spans(p[i], user_key) by {
            assert(p[i] == s[i + 1]);
        }
        assert(contents::table_ok(s[0], disk));
        lemma_none_spans(p, disk, user_key, max_seq);
        lemma_not_spanned(s[0], disk, user_key, max_seq);
        lemma_level_front(s, disk);
        model::lemma_find_concat(
            contents::contents(s[0], disk),
            level_contents(p, disk),
            user_key,
            max_seq,
        );
    }
}

/// In a level whose tables do not overlap, the one table whose key range holds the key decides.
pub proof fn lemma_level_find(s: Seq<TableView>, disk: Disk, user_key: Seq<u8>, max_seq: u64)
    requires
        tables_ok(s, disk),
        disjoint(s),
    ensures
        model::find(level_contents(s, disk), user_key, max_seq) == (match version::spanning(
            s,
            user_key,
        ) {
            Some(t) => model::find(contents::contents(t, disk), user_key, max_seq),
            None => None,
        }),
        match version::spanning(s, user_key) {
            Some(t) => s.contains(t) && version::spans(t, user_key),
            None => true,
        },
    decreases s.len(),
{
    if s.len() > 0 {
        let p = s.skip(1);
        assert forall|i: int| 0 <= i < p.len() implies contents::table_ok(#[trigger] p[i], disk) by {
            assert(p[i] == s[i + 1]);
        }
        assert forall|i: int, j: int| 0 <= i < j < p.len() implies codec::bytes_lt(
            (#[trigger] p[i]).largest,
            (#[trigger] p[j]).smallest,
        ) by {
            assert(p[i] == s[i + 1]);
            assert(p[j] == s[j + 1]);
        }
        assert(contents::table_ok(s[0], disk));
        lemma_level_front(s, disk);
        model::lemma_find_concat(
            contents::contents(s[0], disk),
            level_contents(p, disk),
            user_key,
            max_seq,
        );
        if version::spans(s[0], user_key) {
            assert(s.contains(s[0]));
            assert forall|i: int| 0 <= i < p.len() implies !version::spans(
                #[trigger] p[i],
                user_key,
            ) by {
                assert(p[i] == s[i + 1]);
                assert(codec::bytes_lt(s[0].largest, s[i + 1].smallest));
                if version::spans(p[i], user_key) {
                    lemma_bytes_le_transitive(p[i].smallest, user_key, s[0].largest);
                    codec::lemma_bytes_lt_irreflexive(p[i].smallest);
                    codec::lemma_bytes_lt_asymmetric(s[0].largest, p[i].smallest);
                }
            }
            lemma_none_spans(p, disk, user_key, max_seq);
        } else {
            lemma_not_spanned(s[0], disk, user_key, max_seq);
            lemma_level_find(p, disk, user_key, max_seq);
            if let Some(t) = version::spanning(p, user_key) {
                let i = choose|i: int| 0 <= i < p.len() && p[i] == t;
                assert(s[i + 1] == t);
            }
        }
    }
}

/// `<=` on byte strings is transitive.
pub proof fn lemma_bytes_le_transitive(a: Seq<u8>, b: Seq<u8>, c: Seq<u8>)
    requires
        codec::bytes_le(a, b),
        codec::bytes_le(b, c),
    ensures
        codec::bytes_le(a, c),
{
    if codec::bytes_lt(a, b) && codec::bytes_lt(b, c) {
        codec::lemma_bytes_lt_transitive(a, b, c);
    }
}

#[verifier::rlimit(40)]
proof fn lemma_leveled_hit(ls: Seq<Seq<TableView>>, disk: Disk, user_key: Seq<u8>, max_seq: u64)
    requires
        forall|l: int| 0 <= l < ls.len() ==> tables_ok(#[trigger] ls[l], disk) && disjoint(ls[l]),
    ensures
        tables_hit(version::leveled_candidates(ls, user_key), disk, user_key, max_seq)
            == model::read(leveled_sources(ls, disk), user_key, max_seq),
    decreases ls.len(),
{
    if ls.len() > 0 {
        let p = ls.drop_last();
        let s = ls.last();
        assert forall|l: int| 0 <= l < p.len() implies tables_ok(#[trigger] p[l], disk) && disjoint(
            p[l],
        ) by {
            assert(p[l] == ls[l]);
        }
        assert(tables_ok(ls[ls.len() - 1], disk));
        lemma_leveled_hit(p, disk, user_key, max_seq);
        lemma_level_find(s, disk, user_key, max_seq);
        let c = level_contents(s, disk);
        assert(leveled_sources(ls, disk) =~= leveled_sources(p, disk) + seq![c]);
        lemma_read_concat(leveled_sources(p, disk), seq![c], user_key, max_seq);
        lemma_read_one(c, user_key, max_seq);
        if let Some(t) = version::spanning(s, user_key) {
            let q = version::leveled_candidates(p, user_key);
            assert(q.push(t) =~= q + seq![t]);
            lemma_tables_hit_concat(q, seq![t], disk, user_key, max_seq);
            let i = choose|i: int| 0 <= i < s.len() && s[i] == t;
            assert(contents::table_ok(s[i], disk));
            lemma_tables_hit_one(t, disk, user_key, max_seq);
        }
    }
}

/// A lookup through the tables that may hold the key finds what a reader finds who asks all of
/// them in turn.
pub proof fn law_levels_lookup(
    levels: Seq<Seq<TableView>>,
    disk: Disk,
    user_key: Seq<u8>,
    max_seq: u64,
)
    requires
        levels_ok(levels, disk),
    ensures
        tables_hit(version::candidates(levels, user_key), disk, user_key, max_seq) == model::read(
            table_sources(levels, disk),
            user_key,
            max_seq,
        ),
{
    if levels.len() > 0 {
        let ls = levels.skip(1);
        assert(tables_ok(levels[0], disk));
        assert forall|l: int| 0 <= l < ls.len() implies tables_ok(#[trigger] ls[l], disk)
            && disjoint(ls[l]) by {
            assert(ls[l] == levels[l + 1]);
        }
        lemma_l0_hit(levels[0], disk, user_key, max_seq);
        lemma_leveled_hit(ls, disk, user_key, max_seq);
        lemma_tables_hit_concat(
            version::l0_candidates(levels[0], user_key),
            version::leveled_candidates(ls, user_key),
            disk,
            user_key,
            max_seq,
        );
        lemma_read_concat(
            each_contents(levels[0].reverse(), disk),
            leveled_sources(ls, disk),
            user_key,
            max_seq,
        );
    }
}

} // verus!

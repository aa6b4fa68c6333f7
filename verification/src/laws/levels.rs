//! What holds of a level whose tables are put in their places.

use crate::codec;
use crate::key;
use crate::key::Record;
use crate::laws::scans;
use crate::laws::soundness;
use crate::manifest::FileView;
use crate::model;
use crate::sstable::contents;
use crate::sstable::reader::{Disk, TableView};
use crate::tree;
use crate::version;
use vstd::prelude::*;

verus! {

/// The key range of the table is not empty.
pub open spec fn ranged(t: TableView) -> bool {
    codec::bytes_le(t.smallest, t.largest)
}

/// The key ranges of two tables have no key in common.
pub open spec fn apart(a: TableView, b: TableView) -> bool {
    codec::bytes_lt(a.largest, b.smallest) || codec::bytes_lt(b.largest, a.smallest)
}

/// `a <= b < c` on byte strings.
pub proof fn lemma_le_lt(a: Seq<u8>, b: Seq<u8>, c: Seq<u8>)
    requires
        codec::bytes_le(a, b),
        codec::bytes_lt(b, c),
    ensures
        codec::bytes_lt(a, c),
{
    if a != b {
        codec::lemma_bytes_lt_transitive(a, b, c);
    }
}

/// `a < b <= c` on byte strings.
pub proof fn lemma_lt_le(a: Seq<u8>, b: Seq<u8>, c: Seq<u8>)
    requires
        codec::bytes_lt(a, b),
        codec::bytes_le(b, c),
    ensures
        codec::bytes_lt(a, c),
{
    if b != c {
        codec::lemma_bytes_lt_transitive(a, b, c);
    }
}

/// Not both `a < b` and `b <= a`.
pub proof fn lemma_not_lt_le(a: Seq<u8>, b: Seq<u8>)
    requires
        codec::bytes_lt(a, b),
    ensures
        !codec::bytes_le(b, a),
{
    codec::lemma_bytes_lt_irreflexive(a);
    codec::lemma_bytes_lt_asymmetric(a, b);
}

/// A table that is apart from those of a level without overlaps can be put in its place there.
pub proof fn lemma_place_disjoint(level: int, s: Seq<TableView>, t: TableView)
    requires
        level != 0,
        tree::disjoint(s),
        ranged(t),
        forall|i: int| 0 <= i < s.len() ==> ranged(#[trigger] s[i]) && apart(s[i], t),
    ensures
        tree::disjoint(version::place(level, s, t)),
    decreases s.len(),
{
    let all = version::place(level, s, t);
    if s.len() > 0 {
        let p = s.drop_last();
        let l = s.last();
        assert(s[s.len() - 1] == l);
        assert forall|i: int| 0 <= i < p.len() implies ranged(#[trigger] p[i]) && apart(p[i], t)
            && codec::bytes_lt(p[i].largest, l.smallest) by {
            assert(p[i] == s[i]);
        }
        assert forall|i: int, j: int| 0 <= i < j < p.len() implies codec::bytes_lt(
            (#[trigger] p[i]).largest,
            (#[trigger] p[j]).smallest,
        ) by {
            assert(p[i] == s[i] && p[j] == s[j]);
        }
        if version::stands_before(level, t, l) {
            lemma_place_disjoint(level, p, t);
            version::lemma_place(level, p, t);
            let q = version::place(level, p, t);
            assert(codec::bytes_lt(t.largest, l.smallest)) by {
                if codec::bytes_lt(l.largest, t.smallest) {
                    lemma_le_lt(l.smallest, l.largest, t.smallest);
                    codec::lemma_bytes_lt_asymmetric(l.smallest, t.smallest);
                }
            }
            assert forall|i: int, j: int| 0 <= i < j < all.len() implies codec::bytes_lt(
                (#[trigger] all[i]).largest,
                (#[trigger] all[j]).smallest,
            ) by {
                assert(all[i] == q[i]);
                if j < q.len() {
                    assert(all[j] == q[j]);
                } else {
                    assert(q.contains(q[i]));
                    if q[i] != t {
                        assert(p.contains(q[i]));
                        let a = choose|a: int| 0 <= a < p.len() && p[a] == q[i];
                        assert(codec::bytes_lt(p[a].largest, l.smallest));
                    }
                }
            }
        } else {
            assert forall|i: int, j: int| 0 <= i < j < all.len() implies codec::bytes_lt(
                (#[trigger] all[i]).largest,
                (#[trigger] all[j]).smallest,
            ) by {
                assert(all[i] == s[i]);
                if j < s.len() {
                    assert(all[j] == s[j]);
                } else if codec::bytes_lt(t.largest, s[i].smallest) {
                    lemma_le_lt(t.smallest, t.largest, s[i].smallest);
                    if i < s.len() - 1 {
                        assert(codec::bytes_lt(s[i].largest, l.smallest));
                        lemma_le_lt(s[i].smallest, s[i].largest, l.smallest);
                        codec::lemma_bytes_lt_transitive(t.smallest, s[i].smallest, l.smallest);
                    }
                }
            }
        }
    }
}

/// Where the tables of a level's files are pairwise apart, the level has no overlaps.
pub proof fn lemma_level_disjoint(
    level: int,
    files: Seq<FileView>,
    opened: Seq<Option<TableView>>,
)
    requires
        level != 0,
        files.len() == opened.len(),
        forall|i: int, t: TableView|
            0 <= i < files.len() && #[trigger] version::is_table_of(level, files, opened, i, t)
                ==> ranged(t),
        forall|i: int, j: int, a: TableView, b: TableView|
            0 <= i < j < files.len() && #[trigger] version::is_table_of(level, files, opened, i, a)
                && #[trigger] version::is_table_of(level, files, opened, j, b) ==> apart(a, b),
    ensures
        tree::disjoint(version::level_tables(level, files, opened)),
    decreases files.len(),
{
    if files.len() > 0 {
        let fs = files.drop_last();
        let os = opened.drop_last();
        let n = files.len() - 1;
        assert forall|i: int, t: TableView|
            0 <= i < fs.len() && #[trigger] version::is_table_of(level, fs, os, i, t) implies ranged(
        t) by {
            assert(version::is_table_of(level, files, opened, i, t));
        }
        assert forall|i: int, j: int, a: TableView, b: TableView|
            0 <= i < j < fs.len() && #[trigger] version::is_table_of(level, fs, os, i, a)
                && #[trigger] version::is_table_of(level, fs, os, j, b) implies apart(a, b) by {
            assert(version::is_table_of(level, files, opened, i, a));
            assert(version::is_table_of(level, files, opened, j, b));
        }
        lemma_level_disjoint(level, fs, os);
        let s = version::level_tables(level, fs, os);
        if let Some(t) = opened.last() {
            if files.last().level == level {
                assert(version::is_table_of(level, files, opened, n, t));
                assert forall|i: int| 0 <= i < s.len() implies ranged(#[trigger] s[i]) && apart(
                    s[i],
                    t,
                ) by {
                    assert(s.contains(s[i]));
                    version::lemma_level_tables(level, fs, os, s[i]);
                    let a = choose|a: int|
                        0 <= a < fs.len() && #[trigger] version::is_table_of(level, fs, os, a, s[i]);
                    assert(version::is_table_of(level, files, opened, a, s[i]));
                }
                lemma_place_disjoint(level, s, t);
            }
        }
    }
}

/// A table whose number is not among those of level 0 can be put in its place there.
pub proof fn lemma_place_rises(s: Seq<TableView>, t: TableView)
    requires
        soundness::numbers_rise(s),
        forall|i: int| 0 <= i < s.len() ==> (#[trigger] s[i]).file_num != t.file_num,
    ensures
        soundness::numbers_rise(version::place(0, s, t)),
    decreases s.len(),
{
    let all = version::place(0, s, t);
    if s.len() > 0 {
        let p = s.drop_last();
        let l = s.last();
        assert(s[s.len() - 1] == l);
        assert forall|i: int| 0 <= i < p.len() implies (#[trigger] p[i]).file_num != t.file_num
            && p[i].file_num < l.file_num by {
            assert(p[i] == s[i]);
        }
        assert forall|i: int, j: int| 0 <= i < j < p.len() implies (#[trigger] p[i]).file_num < (
        #[trigger] p[j]).file_num by {
            assert(p[i] == s[i] && p[j] == s[j]);
        }
        if version::stands_before(0, t, l) {
            lemma_place_rises(p, t);
            version::lemma_place(0, p, t);
            let q = version::place(0, p, t);
            assert forall|i: int, j: int| 0 <= i < j < all.len() implies (
            #[trigger] all[i]).file_num < (#[trigger] all[j]).file_num by {
                assert(all[i] == q[i]);
                if j < q.len() {
                    assert(all[j] == q[j]);
                } else {
                    assert(q.contains(q[i]));
                    if q[i] != t {
                        assert(p.contains(q[i]));
                        let a = choose|a: int| 0 <= a < p.len() && p[a] == q[i];
                        assert(p[a].file_num < l.file_num);
                    }
                }
            }
        } else {
            assert forall|i: int, j: int| 0 <= i < j < all.len() implies (
            #[trigger] all[i]).file_num < (#[trigger] all[j]).file_num by {
                assert(all[i] == s[i]);
                if j < s.len() {
                    assert(all[j] == s[j]);
                } else if i < s.len() - 1 {
                    assert(s[i].file_num < s[s.len() - 1].file_num);
                }
            }
        }
    }
}

/// Where the tables of the files of level 0 have different numbers, the numbers of the level rise.
pub proof fn lemma_level0_rises(files: Seq<FileView>, opened: Seq<Option<TableView>>)
    requires
        files.len() == opened.len(),
        forall|i: int, j: int, a: TableView, b: TableView|
            0 <= i < j < files.len() && #[trigger] version::is_table_of(0, files, opened, i, a)
                && #[trigger] version::is_table_of(0, files, opened, j, b) ==> a.file_num
                != b.file_num,
    ensures
        soundness::numbers_rise(version::level_tables(0, files, opened)),
    decreases files.len(),
{
    if files.len() > 0 {
        let fs = files.drop_last();
        let os = opened.drop_last();
        let n = files.len() - 1;
        assert forall|i: int, j: int, a: TableView, b: TableView|
            0 <= i < j < fs.len() && #[trigger] version::is_table_of(0, fs, os, i, a)
                && #[trigger] version::is_table_of(0, fs, os, j, b) implies a.file_num
            != b.file_num by {
            assert(version::is_table_of(0, files, opened, i, a));
            assert(version::is_table_of(0, files, opened, j, b));
        }
        lemma_level0_rises(fs, os);
        let s = version::level_tables(0, fs, os);
        if let Some(t) = opened.last() {
            if files.last().level == 0 {
                assert(version::is_table_of(0, files, opened, n, t));
                assert forall|i: int| 0 <= i < s.len() implies (#[trigger] s[i]).file_num
                    != t.file_num by {
                    assert(s.contains(s[i]));
                    version::lemma_level_tables(0, fs, os, s[i]);
                    let a = choose|a: int|
                        0 <= a < fs.len() && #[trigger] version::is_table_of(0, fs, os, a, s[i]);
                    assert(version::is_table_of(0, files, opened, a, s[i]));
                }
                lemma_place_rises(s, t);
            }
        }
    }
}

/// Two runs of tables with rising numbers that have the same members are the same.
pub proof fn lemma_rising_unique(s: Seq<TableView>, t: Seq<TableView>)
    requires
        soundness::numbers_rise(s),
        soundness::numbers_rise(t),
        forall|x: TableView| #[trigger] s.contains(x) <==> t.contains(x),
    ensures
        s == t,
    decreases s.len(),
{
    if s.len() == 0 {
        if t.len() > 0 {
            assert(t.contains(t[0]));
            assert(s.contains(t[0]));
        }
        assert(s =~= t);
    } else {
        let a = s.last();
        assert(s[s.len() - 1] == a);
        assert(s.contains(a));
        assert(t.contains(a));
        let b = t.last();
        assert(t[t.len() - 1] == b);
        assert(t.contains(b));
        assert(s.contains(b));
        let i = choose|i: int| 0 <= i < s.len() && s[i] == b;
        let j = choose|j: int| 0 <= j < t.len() && t[j] == a;
        if i < s.len() - 1 {
            assert(s[i].file_num < s[s.len() - 1].file_num);
            if j < t.len() - 1 {
                assert(t[j].file_num < t[t.len() - 1].file_num);
            }
        }
        assert(a == b);
        let p = s.drop_last();
        let q = t.drop_last();
        assert forall|x: TableView| #[trigger] p.contains(x) <==> q.contains(x) by {
            if p.contains(x) {
                let c = choose|c: int| 0 <= c < p.len() && p[c] == x;
                assert(s[c] == x);
                assert(s[c].file_num < s[s.len() - 1].file_num);
                assert(s.contains(x));
                let d = choose|d: int| 0 <= d < t.len() && t[d] == x;
                assert(d < t.len() - 1);
                assert(q[d] == x);
            }
            if q.contains(x) {
                let c = choose|c: int| 0 <= c < q.len() && q[c] == x;
                assert(t[c] == x);
                assert(t[c].file_num < t[t.len() - 1].file_num);
                assert(t.contains(x));
                assert(s.contains(x));
                let d = choose|d: int| 0 <= d < s.len() && s[d] == x;
                assert(d < s.len() - 1);
                assert(p[d] == x);
            }
        }
        assert forall|c: int, d: int| 0 <= c < d < p.len() implies (#[trigger] p[c]).file_num < (
        #[trigger] p[d]).file_num by {
            assert(p[c] == s[c] && p[d] == s[d]);
        }
        assert forall|c: int, d: int| 0 <= c < d < q.len() implies (#[trigger] q[c]).file_num < (
        #[trigger] q[d]).file_num by {
            assert(q[c] == t[c] && q[d] == t[d]);
        }
        lemma_rising_unique(p, q);
        assert(s =~= p.push(a));
        assert(t =~= q.push(b));
    }
}

/// A table that is in order has a key range, and its records lie in it.
pub proof fn lemma_table_range(t: TableView, disk: Disk, r: Record)
    requires
        contents::table_ok(t, disk),
    ensures
        ranged(t),
        contents::contents(t, disk).contains(r) ==> version::spans(t, r.0.user_key),
{
    let c = contents::contents(t, disk);
    contents::lemma_sorted_user_keys(c, 0, c.len() - 1);
    if c.contains(r) {
        let i = choose|i: int| 0 <= i < c.len() && c[i] == r;
        contents::lemma_sorted_user_keys(c, 0, i);
        contents::lemma_sorted_user_keys(c, i, c.len() - 1);
    }
}

/// Two tables of a level without overlaps whose key ranges hold the same key are the same.
pub proof fn lemma_same_table(s: Seq<TableView>, a: TableView, b: TableView, user_key: Seq<u8>)
    requires
        tree::disjoint(s),
        s.contains(a),
        s.contains(b),
        version::spans(a, user_key),
        version::spans(b, user_key),
    ensures
        a == b,
{
    let i = choose|i: int| 0 <= i < s.len() && s[i] == a;
    let j = choose|j: int| 0 <= j < s.len() && s[j] == b;
    if i < j {
        assert(codec::bytes_lt(s[i].largest, s[j].smallest));
        lemma_lt_le(a.largest, b.smallest, user_key);
        lemma_not_lt_le(a.largest, user_key);
    }
    if j < i {
        assert(codec::bytes_lt(s[j].largest, s[i].smallest));
        lemma_lt_le(b.largest, a.smallest, user_key);
        lemma_not_lt_le(b.largest, user_key);
    }
}

/// In a level without overlaps, the table that has a version of a key decides.
pub proof fn lemma_find_in_level(
    s: Seq<TableView>,
    disk: Disk,
    t: TableView,
    user_key: Seq<u8>,
    max_seq: u64,
)
    requires
        tree::tables_ok(s, disk),
        tree::disjoint(s),
        s.contains(t),
        version::spans(t, user_key),
    ensures
        model::find(tree::level_contents(s, disk), user_key, max_seq) == model::find(
            contents::contents(t, disk),
            user_key,
            max_seq,
        ),
{
    tree::lemma_level_find(s, disk, user_key, max_seq);
    lemma_spanning_some(s, t, user_key);
    let x = version::spanning(s, user_key)->Some_0;
    lemma_same_table(s, x, t, user_key);
}

proof fn lemma_spanning_some(s: Seq<TableView>, t: TableView, user_key: Seq<u8>)
    requires
        s.contains(t),
        version::spans(t, user_key),
    ensures
        version::spanning(s, user_key) is Some,
    decreases s.len(),
{
    if s.len() > 0 && !version::spans(s[0], user_key) {
        let i = choose|i: int| 0 <= i < s.len() && s[i] == t;
        assert(s.skip(1)[i - 1] == t);
        lemma_spanning_some(s.skip(1), t, user_key);
    }
}

/// What a level without overlaps finds, one of its tables finds.
pub proof fn lemma_level_finder(
    s: Seq<TableView>,
    disk: Disk,
    user_key: Seq<u8>,
    max_seq: u64,
) -> (t: TableView)
    requires
        tree::tables_ok(s, disk),
        tree::disjoint(s),
        model::find(tree::level_contents(s, disk), user_key, max_seq) is Some,
    ensures
        s.contains(t),
        contents::table_ok(t, disk),
        version::spans(t, user_key),
        model::find(contents::contents(t, disk), user_key, max_seq) == model::find(
            tree::level_contents(s, disk),
            user_key,
            max_seq,
        ),
{
    tree::lemma_level_find(s, disk, user_key, max_seq);
    let t = version::spanning(s, user_key)->Some_0;
    let i = choose|i: int| 0 <= i < s.len() && s[i] == t;
    assert(contents::table_ok(s[i], disk));
    t
}

/// What a level without overlaps holds is sorted.
pub proof fn lemma_level_sorted(s: Seq<TableView>, disk: Disk)
    requires
        tree::tables_ok(s, disk),
        tree::disjoint(s),
    ensures
        model::sorted(tree::level_contents(s, disk)),
    decreases s.len(),
{
    if s.len() > 0 {
        let p = s.skip(1);
        assert forall|i: int| 0 <= i < p.len() implies contents::table_ok(#[trigger] p[i], disk) by {
            assert(p[i] == s[i + 1]);
        }
        assert forall|i: int, j: int| 0 <= i < j < p.len() implies codec::bytes_lt(
            (#[trigger] p[i]).largest,
            (#[trigger] p[j]).smallest,
        ) by {
            assert(p[i] == s[i + 1] && p[j] == s[j + 1]);
        }
        lemma_level_sorted(p, disk);
        tree::lemma_level_front(s, disk);
        assert(contents::table_ok(s[0], disk));
        let a = contents::contents(s[0], disk);
        let b = tree::level_contents(p, disk);
        let all = a + b;
        assert forall|i: int, j: int| 0 <= i < j < all.len() implies key::key_lt(
            #[trigger] all[i].0,
            #[trigger] all[j].0,
        ) by {
            if j < a.len() {
                assert(all[i] == a[i] && all[j] == a[j]);
            } else if i >= a.len() {
                assert(all[i] == b[i - a.len()] && all[j] == b[j - a.len()]);
            } else {
                let y = b[j - a.len()];
                assert(all[i] == a[i] && all[j] == y);
                assert(b.contains(y));
                let gs = tree::each_contents(p, disk);
                scans::lemma_join_contains(gs, y);
                let c = choose|c: int| 0 <= c < gs.len() && (#[trigger] gs[c]).contains(y);
                assert(p[c] == s[c + 1]);
                assert(contents::table_ok(p[c], disk));
                lemma_table_range(p[c], disk, y);
                assert(a.contains(a[i]));
                lemma_table_range(s[0], disk, a[i]);
                assert(codec::bytes_lt(s[0].largest, s[c + 1].smallest));
                lemma_le_lt(a[i].0.user_key, s[0].largest, p[c].smallest);
                lemma_lt_le(a[i].0.user_key, p[c].smallest, y.0.user_key);
            }
        }
    }
}

/// Two levels without overlaps that have the same members are the same.
pub proof fn lemma_disjoint_unique(s: Seq<TableView>, t: Seq<TableView>)
    requires
        tree::disjoint(s),
        tree::disjoint(t),
        forall|i: int| 0 <= i < s.len() ==> ranged(#[trigger] s[i]),
        forall|x: TableView| #[trigger] s.contains(x) <==> t.contains(x),
    ensures
        s == t,
    decreases s.len(),
{
    if s.len() == 0 {
        if t.len() > 0 {
            assert(t.contains(t[0]));
            assert(s.contains(t[0]));
        }
        assert(s =~= t);
    } else {
        let a = s.last();
        assert(s[s.len() - 1] == a);
        assert(s.contains(a));
        assert(t.contains(a));
        let b = t.last();
        assert(t[t.len() - 1] == b);
        assert(t.contains(b));
        assert(s.contains(b));
        let i = choose|i: int| 0 <= i < s.len() && s[i] == b;
        let j = choose|j: int| 0 <= j < t.len() && t[j] == a;
        if i < s.len() - 1 && j < t.len() - 1 {
            assert(codec::bytes_lt(s[i].largest, s[s.len() - 1].smallest));
            assert(codec::bytes_lt(t[j].largest, t[t.len() - 1].smallest));
            assert(ranged(s[i]) && ranged(s[s.len() - 1]));
            lemma_le_lt(b.smallest, b.largest, a.smallest);
            lemma_lt_le(b.smallest, a.smallest, a.largest);
            codec::lemma_bytes_lt_asymmetric(b.smallest, a.largest);
        }
        assert(a == b);
        let p = s.drop_last();
        let q = t.drop_last();
        lemma_not_last(s);
        assert forall|c: int| 0 <= c < t.len() implies ranged(#[trigger] t[c]) by {
            assert(t.contains(t[c]));
            assert(s.contains(t[c]));
            let d = choose|d: int| 0 <= d < s.len() && s[d] == t[c];
            assert(ranged(s[d]));
        }
        lemma_not_last(t);
        assert forall|x: TableView| #[trigger] p.contains(x) <==> q.contains(x) by {
            if p.contains(x) {
                let c = choose|c: int| 0 <= c < p.len() && p[c] == x;
                assert(s[c] == x);
                assert(s.contains(x));
                let d = choose|d: int| 0 <= d < t.len() && t[d] == x;
                assert(q[d] == x);
            }
            if q.contains(x) {
                let c = choose|c: int| 0 <= c < q.len() && q[c] == x;
                assert(t[c] == x);
                assert(t.contains(x));
                assert(s.contains(x));
                let d = choose|d: int| 0 <= d < s.len() && s[d] == x;
                assert(p[d] == x);
            }
        }
        assert forall|c: int, d: int| 0 <= c < d < p.len() implies codec::bytes_lt(
            (#[trigger] p[c]).largest,
            (#[trigger] p[d]).smallest,
        ) by {
            assert(p[c] == s[c] && p[d] == s[d]);
        }
        assert forall|c: int, d: int| 0 <= c < d < q.len() implies codec::bytes_lt(
            (#[trigger] q[c]).largest,
            (#[trigger] q[d]).smallest,
        ) by {
            assert(q[c] == t[c] && q[d] == t[d]);
        }
        assert forall|c: int| 0 <= c < p.len() implies ranged(#[trigger] p[c]) by {
            assert(p[c] == s[c]);
        }
        lemma_disjoint_unique(p, q);
        assert(s =~= p.push(a));
        assert(t =~= q.push(b));
    }
}

/// In a level without overlaps the last table occurs once.
proof fn lemma_not_last(s: Seq<TableView>)
    requires
        tree::disjoint(s),
        s.len() > 0,
        forall|i: int| 0 <= i < s.len() ==> ranged(#[trigger] s[i]),
    ensures
        forall|i: int| 0 <= i < s.len() - 1 ==> #[trigger] s[i] != s.last(),
{
    assert forall|i: int| 0 <= i < s.len() - 1 implies #[trigger] s[i] != s.last() by {
        assert(codec::bytes_lt(s[i].largest, s[s.len() - 1].smallest));
        assert(ranged(s[i]));
        lemma_not_lt_le(s[i].largest, s[s.len() - 1].smallest);
    }
}

} // verus!

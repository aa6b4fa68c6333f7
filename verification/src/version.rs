//! The levels of the tree: which tables there are and in which order they are probed.

use crate::codec;
use crate::codec::{bytes_less, bytes_less_or_equal};
use crate::manifest;
use crate::manifest::{FileMeta, FileView};
use crate::sstable::bloom;
use crate::sstable::reader;
use crate::sstable::reader::{BlockRead, SsTable, TableView};
use std::sync::Arc;
use vstd::prelude::*;

verus! {

/// What a run of tables says.
pub open spec fn tables_view(s: Seq<Arc<SsTable>>) -> Seq<TableView> {
    Seq::new(s.len(), |i: int| s[i]@)
}

/// What a run of levels says.
pub open spec fn levels_view(s: Seq<Vec<Arc<SsTable>>>) -> Seq<Seq<TableView>> {
    Seq::new(s.len(), |i: int| tables_view(s[i]@))
}

/// What a run of tables that may be missing says.
pub open spec fn opened_view(s: Seq<Option<SsTable>>) -> Seq<Option<TableView>> {
    Seq::new(
        s.len(),
        |i: int|
            match s[i] {
                Some(t) => Some(t@),
                None => None,
            },
    )
}

/// On level `level`, table `a` stands before table `b`: by file number on level 0, where they
/// overlap and the older one comes first, and by smallest key on the others.
pub open spec fn stands_before(level: int, a: TableView, b: TableView) -> bool {
    if level == 0 {
        a.file_num < b.file_num
    } else {
        codec::bytes_lt(a.smallest, b.smallest)
    }
}

/// The level with one more table in its place: behind those that do not have to stand behind it.
pub open spec fn place(level: int, s: Seq<TableView>, t: TableView) -> Seq<TableView>
    decreases s.len(),
{
    if s.len() > 0 && stands_before(level, t, s.last()) {
        place(level, s.drop_last(), t).push(s.last())
    } else {
        s.push(t)
    }
}

/// The tables of a level: those of its files that could be opened, each in its place.
pub open spec fn level_tables(
    level: int,
    files: Seq<FileView>,
    opened: Seq<Option<TableView>>,
) -> Seq<TableView>
    decreases files.len(),
{
    if files.len() == 0 {
        Seq::empty()
    } else {
        let s = level_tables(level, files.drop_last(), opened.drop_last());
        match opened.last() {
            Some(t) => if files.last().level == level {
                place(level, s, t)
            } else {
                s
            },
            None => s,
        }
    }
}

/// The levels that a list of files makes up.
pub open spec fn levels_of(
    files: Seq<FileView>,
    opened: Seq<Option<TableView>>,
    max_levels: nat,
) -> Seq<Seq<TableView>> {
    Seq::new(max_levels, |l: int| level_tables(l, files, opened))
}

/// Bytes in the files of a run of tables.
pub open spec fn tables_size(s: Seq<TableView>) -> nat
    decreases s.len(),
{
    if s.len() == 0 {
        0
    } else {
        tables_size(s.drop_last()) + s.last().file_size as nat
    }
}

/// Bytes in the files of a level; a level that does not exist has none.
pub open spec fn level_size(levels: Seq<Seq<TableView>>, level: int) -> nat {
    if 0 <= level < levels.len() {
        tables_size(levels[level])
    } else {
        0
    }
}

/// How many tables level 0 has.
pub open spec fn l0_count(levels: Seq<Seq<TableView>>) -> nat {
    if levels.len() > 0 {
        levels[0].len()
    } else {
        0
    }
}

/// The tables of level 0 that may hold `user_key`, newest first.
pub open spec fn l0_candidates(s: Seq<TableView>, user_key: Seq<u8>) -> Seq<TableView>
    decreases s.len(),
{
    if s.len() == 0 {
        Seq::empty()
    } else if reader::table_may_hold(s.last(), user_key) {
        seq![s.last()] + l0_candidates(s.drop_last(), user_key)
    } else {
        l0_candidates(s.drop_last(), user_key)
    }
}

/// The key range of the table holds `user_key`.
pub open spec fn spans(t: TableView, user_key: Seq<u8>) -> bool {
    codec::bytes_le(t.smallest, user_key) && codec::bytes_le(user_key, t.largest)
}

/// The first table of a level whose key range holds `user_key`.
pub open spec fn spanning(s: Seq<TableView>, user_key: Seq<u8>) -> Option<TableView>
    decreases s.len(),
{
    if s.len() == 0 {
        None
    } else if spans(s[0], user_key) {
        Some(s[0])
    } else {
        spanning(s.skip(1), user_key)
    }
}

/// Of each level, from the first to the last, the table whose key range holds `user_key`.
pub open spec fn leveled_candidates(levels: Seq<Seq<TableView>>, user_key: Seq<u8>) -> Seq<
    TableView,
>
    decreases levels.len(),
{
    if levels.len() == 0 {
        Seq::empty()
    } else {
        let s = leveled_candidates(levels.drop_last(), user_key);
        match spanning(levels.last(), user_key) {
            Some(t) => s.push(t),
            None => s,
        }
    }
}

/// The tables that a lookup of `user_key` probes, in order: level 0 newest first, then at most one
/// table of each further level.
pub open spec fn candidates(levels: Seq<Seq<TableView>>, user_key: Seq<u8>) -> Seq<TableView> {
    if levels.len() == 0 {
        Seq::empty()
    } else {
        l0_candidates(levels[0], user_key) + leveled_candidates(levels.skip(1), user_key)
    }
}

/// All tables, level by level.
pub open spec fn flat(levels: Seq<Seq<TableView>>) -> Seq<TableView>
    decreases levels.len(),
{
    if levels.len() == 0 {
        Seq::empty()
    } else {
        flat(levels.drop_last()) + levels.last()
    }
}

/// The reads of a lookup of `user_key` in a run of tables.
pub open spec fn tables_reads(s: Seq<TableView>, user_key: Seq<u8>) -> Seq<BlockRead>
    decreases s.len(),
{
    if s.len() == 0 {
        Seq::empty()
    } else {
        tables_reads(s.drop_last(), user_key) + reader::lookup_reads(s.last(), user_key)
    }
}

/// A level with one more table holds that table and those it held.
pub proof fn lemma_place(level: int, s: Seq<TableView>, t: TableView)
    ensures
        place(level, s, t).len() == s.len() + 1,
        forall|r: TableView| #[trigger]
            place(level, s, t).contains(r) <==> (r == t || s.contains(r)),
    decreases s.len(),
{
    let all = place(level, s, t);
    if s.len() > 0 && stands_before(level, t, s.last()) {
        let p = s.drop_last();
        let l = s.last();
        lemma_place(level, p, t);
        let q = place(level, p, t);
        assert forall|r: TableView| #[trigger] all.contains(r) <==> (r == t || s.contains(r)) by {
            lemma_push_contains(q, l, r);
            lemma_push_contains(p, l, r);
            assert(p.push(l) =~= s);
        }
    } else {
        assert forall|r: TableView| #[trigger] all.contains(r) <==> (r == t || s.contains(r)) by {
            lemma_push_contains(s, t, r);
        }
    }
}

proof fn lemma_push_contains(s: Seq<TableView>, t: TableView, r: TableView)
    ensures
        s.push(t).contains(r) <==> (r == t || s.contains(r)),
{
    let all = s.push(t);
    if all.contains(r) && r != t {
        let i = choose|i: int| 0 <= i < all.len() && all[i] == r;
        assert(s[i] == r);
    }
    if s.contains(r) {
        let i = choose|i: int| 0 <= i < s.len() && s[i] == r;
        assert(all[i] == r);
    }
    if r == t {
        assert(all[s.len() as int] == r);
    }
}

/// File `i` of the list is on level `level`, and its table is `t`.
pub open spec fn is_table_of(
    level: int,
    files: Seq<FileView>,
    opened: Seq<Option<TableView>>,
    i: int,
    t: TableView,
) -> bool {
    files[i].level == level && opened[i] == Some(t)
}

/// A level holds the tables of its files that could be opened.
pub proof fn lemma_level_tables(
    level: int,
    files: Seq<FileView>,
    opened: Seq<Option<TableView>>,
    t: TableView,
)
    requires
        files.len() == opened.len(),
    ensures
        level_tables(level, files, opened).contains(t) <==> exists|i: int|
            0 <= i < files.len() && #[trigger] is_table_of(level, files, opened, i, t),
    decreases files.len(),
{
    if files.len() > 0 {
        let fs = files.drop_last();
        let os = opened.drop_last();
        let n = files.len() - 1;
        lemma_level_tables(level, fs, os, t);
        let s = level_tables(level, fs, os);
        if let Some(x) = opened.last() {
            lemma_place(level, s, x);
        }
        if level_tables(level, files, opened).contains(t) {
            if s.contains(t) {
                let i = choose|i: int| 0 <= i < fs.len() && #[trigger] is_table_of(level, fs, os, i, t);
                assert(is_table_of(level, files, opened, i, t));
            } else {
                assert(is_table_of(level, files, opened, n, t));
            }
        }
        if exists|i: int|
            0 <= i < files.len() && #[trigger] is_table_of(level, files, opened, i, t) {
            let i = choose|i: int|
                0 <= i < files.len() && #[trigger] is_table_of(level, files, opened, i, t);
            if i < n {
                assert(is_table_of(level, fs, os, i, t));
            }
        }
    }
}

/// The levels of the tree.
pub struct Version {
    pub levels: Vec<Vec<Arc<SsTable>>>,
}

impl View for Version {
    type V = Seq<Seq<TableView>>;

    open spec fn view(&self) -> Seq<Seq<TableView>> {
        levels_view(self.levels@)
    }
}

/// The filter of every table can be probed.
pub open spec fn probeable(levels: Seq<Seq<TableView>>) -> bool {
    forall|l: int, i: int|
        0 <= l < levels.len() && 0 <= i < levels[l].len() ==> bloom::in_bounds(
            (#[trigger] levels[l][i]).bloom,
        )
}

/// Puts a table in its place in a level.
fn place_table(level: usize, s: &mut Vec<Arc<SsTable>>, t: Arc<SsTable>)
    ensures
        tables_view(final(s)@) == place(level as int, tables_view(old(s)@), t@),
{
    let ghost all = tables_view(s@);
    let mut i: usize = s.len();
    assert(all.take(i as int) =~= all);
    assert(all.skip(i as int) =~= Seq::<TableView>::empty());
    assert(place(level as int, all, t@) + all.skip(i as int) =~= place(level as int, all, t@));
    while i > 0
        invariant
            i <= s@.len(),
            all == tables_view(s@),
            place(level as int, all, t@) == place(level as int, all.take(i as int), t@) + all.skip(
                i as int,
            ),
        ensures
            i <= s@.len(),
            place(level as int, all, t@) == all.take(i as int).push(t@) + all.skip(i as int),
        decreases i,
    {
        let x = &s[i - 1];
        let ghost cur = all.take(i as int);
        assert(cur.last() == x@);
        let goes_before: bool = if level == 0 {
            t.file_num < x.file_num
        } else {
            bytes_less(t.smallest.as_slice(), x.smallest.as_slice())
        };
        if !goes_before {
            break;
        }
        proof {
            assert(cur.drop_last() =~= all.take(i - 1));
            let rest = place(level as int, all.take(i - 1), t@);
            assert(rest.push(x@) + all.skip(i as int) =~= rest + all.skip(i - 1));
        }
        i = i - 1;
    }
    s.insert(i, t);
    assert(tables_view(s@) =~= all.take(i as int).push(t@) + all.skip(i as int));
}

impl Version {
    /// Every table can be probed.
    pub open spec fn wf(&self) -> bool {
        probeable(self@)
    }

    pub fn empty(max_levels: usize) -> (v: Self)
        ensures
            v@ == Seq::new(max_levels as nat, |l: int| Seq::<TableView>::empty()),
            v.wf(),
    {
        let mut levels: Vec<Vec<Arc<SsTable>>> = Vec::new();
        let mut i: usize = 0;
        while i < max_levels
            invariant
                i <= max_levels,
                levels_view(levels@) == Seq::new(i as nat, |l: int| Seq::<TableView>::empty()),
            decreases max_levels - i,
        {
            let none: Vec<Arc<SsTable>> = Vec::new();
            assert(tables_view(none@) =~= Seq::<TableView>::empty());
            let ghost before = levels_view(levels@);
            levels.push(none);
            assert(levels_view(levels@) =~= before.push(Seq::<TableView>::empty()));
            assert(levels_view(levels@) =~= Seq::new(
                (i + 1) as nat,
                |l: int| Seq::<TableView>::empty(),
            ));
            i = i + 1;
        }
        Self { levels }
    }

    /// The levels that a list of files makes up. `opened[i]` is the table of `files[i]`, or `None`
    /// where that file does not exist; such a file, and one of a level beyond the last, is left
    /// out.
    pub fn from_metas(
        files: &Vec<FileMeta>,
        opened: Vec<Option<SsTable>>,
        max_levels: usize,
    ) -> (v: Self)
        requires
            opened@.len() == files@.len(),
        ensures
            v@ == levels_of(manifest::files_view(files@), opened_view(opened@), max_levels as nat),
            (forall|i: int|
                0 <= i < opened@.len() ==> ((#[trigger] opened@[i]) matches Some(t) ==> t.wf()))
                ==> v.wf(),
    {
        let ghost fs = manifest::files_view(files@);
        let ghost os = opened_view(opened@);
        let ghost given = opened@;
        let mut v = Self::empty(max_levels);
        let mut left = opened;
        let n: usize = files.len();
        let mut i: usize = 0;
        proof {
            assert(v@ =~= levels_of(fs.take(0), os.take(0), max_levels as nat));
            assert(left@ =~= given.skip(0));
        }
        while i < n
            invariant
                n == files@.len(),
                given.len() == n,
                given == opened@,
                fs == manifest::files_view(files@),
                os == opened_view(given),
                i <= n,
                left@ == given.skip(i as int),
                v@ == levels_of(fs.take(i as int), os.take(i as int), max_levels as nat),
            decreases n - i,
        {
            let ghost before = v@;
            proof {
                assert(fs.take(i + 1).drop_last() =~= fs.take(i as int));
                assert(os.take(i + 1).drop_last() =~= os.take(i as int));
                assert(fs.take(i + 1).last() == files@[i as int]@);
                assert(v@.len() == max_levels);
                assert(v.levels@.len() == max_levels);
            }
            let o = left.remove(0);
            proof {
                assert(o == given[i as int]);
                assert(left@ =~= given.skip(i + 1));
            }
            let level: usize = files[i].level as usize;
            match o {
                Some(sst) => {
                    assert(os.take(i + 1).last() == Some(sst@));
                    if level < v.levels.len() {
                        let t = Arc::new(sst);
                        let ghost was = v.levels@;
                        assert(tables_view(was[level as int]@) == before[level as int]);
                        place_table(level, &mut v.levels[level], t);
                        assert(v@ =~= before.update(
                            level as int,
                            place(level as int, before[level as int], t@),
                        ));
                    }
                },
                None => {
                    assert(os.take(i + 1).last() is None);
                },
            }
            assert(v@ =~= levels_of(fs.take(i + 1), os.take(i + 1), max_levels as nat));
            i = i + 1;
        }
        proof {
            assert(fs.take(n as int) =~= fs);
            assert(os.take(n as int) =~= os);
            if forall|a: int|
                0 <= a < given.len() ==> ((#[trigger] given[a]) matches Some(t) ==> t.wf()) {
                assert forall|l: int, a: int|
                    0 <= l < v@.len() && 0 <= a < v@[l].len() implies bloom::in_bounds(
                    (#[trigger] v@[l][a]).bloom,
                ) by {
                    let t = v@[l][a];
                    assert(v@[l].contains(t));
                    lemma_level_tables(l, fs, os, t);
                    let b = choose|b: int| 0 <= b < fs.len() && #[trigger] is_table_of(l, fs, os, b, t);
                    assert(given[b] is Some);
                    assert(given[b]->Some_0.wf());
                }
            }
        }
        v
    }

    pub fn l0_num_files(&self) -> (n: usize)
        ensures
            n == l0_count(self@),
    {
        if self.levels.len() > 0 {
            self.levels[0].len()
        } else {
            0
        }
    }

    /// Bytes in the files of a level, as a number that no level is too large for.
    pub fn level_bytes_wide(&self, level: usize) -> (n: u128)
        ensures
            n == level_size(self@, level as int),
    {
        if level >= self.levels.len() {
            return 0;
        }
        let files = &self.levels[level];
        let ghost all = tables_view(files@);
        let k: usize = files.len();
        let mut n: u128 = 0;
        let mut i: usize = 0;
        assert(all.take(0) =~= Seq::<TableView>::empty());
        while i < k
            invariant
                k == files@.len(),
                all == tables_view(files@),
                i <= k,
                n == tables_size(all.take(i as int)),
                n <= i * u64::MAX,
            decreases k - i,
        {
            proof {
                assert(all.take(i + 1).drop_last() =~= all.take(i as int));
                assert(all.take(i + 1).last() == files@[i as int]@);
                assert(i * u64::MAX + u64::MAX <= u128::MAX) by (nonlinear_arith)
                    requires
                        i <= u64::MAX,
                ;
                assert((i + 1) * u64::MAX == i * u64::MAX + u64::MAX) by (nonlinear_arith);
            }
            n = n + files[i].file_size as u128;
            i = i + 1;
        }
        assert(all.take(k as int) =~= all);
        n
    }

    pub fn level_bytes(&self, level: usize) -> (n: u64)
        requires
            level_size(self@, level as int) <= u64::MAX,
        ensures
            n == level_size(self@, level as int),
    {
        self.level_bytes_wide(level) as u64
    }

    pub fn get_sstables_for_key(&self, user_key: &[u8]) -> (out: Vec<Arc<SsTable>>)
        requires
            self.wf(),
        ensures
            tables_view(out@) == candidates(self@, user_key@),
            forall|i: int| 0 <= i < out@.len() ==> (#[trigger] out@[i]).wf(),
    {
        let mut out: Vec<Arc<SsTable>> = Vec::new();
        let n: usize = self.levels.len();
        if n == 0 {
            assert(tables_view(out@) =~= candidates(self@, user_key@));
            return out;
        }
        let l0 = &self.levels[0];
        let ghost all = tables_view(l0@);
        assert(all == self@[0]);
        let mut i: usize = l0.len();
        assert(all.take(i as int) =~= all);
        assert(tables_view(out@) + l0_candidates(all, user_key@) =~= l0_candidates(all, user_key@));
        while i > 0
            invariant
                self.wf(),
                self@.len() == n,
                n > 0,
                self.levels@.len() == n,
                l0 == self.levels@[0],
                all == tables_view(l0@),
                all == self@[0],
                i <= l0@.len(),
                forall|a: int| 0 <= a < out@.len() ==> (#[trigger] out@[a]).wf(),
                tables_view(out@) + l0_candidates(all.take(i as int), user_key@) == l0_candidates(
                    all,
                    user_key@,
                ),
            decreases i,
        {
            let sst = &l0[i - 1];
            proof {
                assert(all.take(i as int).drop_last() =~= all.take(i - 1));
                assert(all.take(i as int).last() == sst@);
                assert(self@[0][i - 1] == sst@);
            }
            if sst.may_contain(user_key) {
                let ghost before = tables_view(out@);
                out.push(sst.clone());
                proof {
                    assert(tables_view(out@) =~= before.push(sst@));
                    let rest = l0_candidates(all.take(i - 1), user_key@);
                    assert(before + (seq![sst@] + rest) =~= before.push(sst@) + rest);
                }
            }
            i = i - 1;
        }
        let ghost head = l0_candidates(all, user_key@);
        let ghost more = self@.skip(1);
        proof {
            assert(all.take(0) =~= Seq::<TableView>::empty());
            assert(tables_view(out@) =~= head);
            assert(more.take(0) =~= Seq::<Seq<TableView>>::empty());
            assert(head + leveled_candidates(more.take(0), user_key@) =~= head);
        }
        let mut l: usize = 1;
        while l < n
            invariant
                self.wf(),
                self.levels@.len() == n,
                more == self@.skip(1),
                1 <= l <= n,
                forall|a: int| 0 <= a < out@.len() ==> (#[trigger] out@[a]).wf(),
                tables_view(out@) == head + leveled_candidates(more.take(l - 1), user_key@),
            decreases n - l,
        {
            proof {
                assert(more.take(l as int).drop_last() =~= more.take(l - 1));
                assert(more.take(l as int).last() == tables_view(self.levels@[l as int]@));
            }
            match find_in_level(&self.levels[l], user_key) {
                Some(t) => {
                    let ghost before = tables_view(out@);
                    let ghost tv = t@;
                    proof {
                        let at = choose|a: int|
                            0 <= a < self.levels@[l as int]@.len() && self.levels@[l as int]@[a]
                                == t;
                        assert(self@[l as int][at] == t@);
                    }
                    out.push(t);
                    proof {
                        assert(tables_view(out@) =~= before.push(tv));
                        let s = leveled_candidates(more.take(l - 1), user_key@);
                        assert((head + s).push(tv) =~= head + s.push(tv));
                    }
                },
                None => {},
            }
            l = l + 1;
        }
        assert(more.take(n - 1) =~= more);
        out
    }

    pub fn all_tables(&self) -> (out: Vec<Arc<SsTable>>)
        ensures
            tables_view(out@) == flat(self@),
    {
        let mut out: Vec<Arc<SsTable>> = Vec::new();
        let n: usize = self.levels.len();
        let ghost all = self@;
        let mut l: usize = 0;
        assert(all.take(0) =~= Seq::<Seq<TableView>>::empty());
        assert(tables_view(out@) =~= flat(all.take(0)));
        while l < n
            invariant
                n == self.levels@.len(),
                all == self@,
                l <= n,
                tables_view(out@) == flat(all.take(l as int)),
            decreases n - l,
        {
            let ghost before = tables_view(out@);
            let ghost lvl = all[l as int];
            push_all(&mut out, &self.levels[l]);
            proof {
                assert(all.take(l + 1).drop_last() =~= all.take(l as int));
                assert(all.take(l + 1).last() == lvl);
            }
            l = l + 1;
        }
        assert(all.take(n as int) =~= all);
        out
    }
}

/// Adds the tables of `more` to `out`.
pub fn push_all(out: &mut Vec<Arc<SsTable>>, more: &Vec<Arc<SsTable>>)
    ensures
        tables_view(final(out)@) == tables_view(old(out)@) + tables_view(more@),
{
    let ghost before = tables_view(out@);
    let ghost all = tables_view(more@);
    let n: usize = more.len();
    let mut i: usize = 0;
    assert(before + all.take(0) =~= before);
    while i < n
        invariant
            n == more@.len(),
            all == tables_view(more@),
            i <= n,
            tables_view(out@) == before + all.take(i as int),
        decreases n - i,
    {
        let ghost cur = tables_view(out@);
        out.push(more[i].clone());
        assert(tables_view(out@) =~= cur.push(all[i as int]));
        assert(tables_view(out@) =~= before + all.take(i + 1));
        i = i + 1;
    }
    assert(all.take(n as int) =~= all);
}

/// The first table of a level whose key range holds `user_key`.
pub fn find_in_level(level: &Vec<Arc<SsTable>>, user_key: &[u8]) -> (r: Option<Arc<SsTable>>)
    ensures
        match r {
            Some(t) => level@.contains(t) && spanning(tables_view(level@), user_key@) == Some(t@),
            None => spanning(tables_view(level@), user_key@) is None,
        },
{
    let ghost all = tables_view(level@);
    let n: usize = level.len();
    let mut i: usize = 0;
    assert(all.skip(0) =~= all);
    while i < n
        invariant
            n == level@.len(),
            all == tables_view(level@),
            i <= n,
            spanning(all, user_key@) == spanning(all.skip(i as int), user_key@),
        decreases n - i,
    {
        let t = &level[i];
        proof {
            assert(all.skip(i as int)[0] == t@);
            assert(all.skip(i as int).skip(1) =~= all.skip(i + 1));
        }
        if bytes_less_or_equal(t.smallest.as_slice(), user_key) && bytes_less_or_equal(
            user_key,
            t.largest.as_slice(),
        ) {
            assert(level@.contains(level@[i as int]));
            return Some(t.clone());
        }
        i = i + 1;
    }
    None
}

} // verus!

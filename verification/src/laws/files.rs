//! Which files make up the database after a compaction.

use crate::compact;
use crate::db;
use crate::laws::soundness;
use crate::manifest;
use crate::manifest::{EditView, FileView, StateView};
use crate::sstable::reader::TableView;
use vstd::prelude::*;

verus! {

/// No two files have the same number.
pub open spec fn distinct(files: Seq<FileView>) -> bool {
    forall|i: int, j: int|
        0 <= i < j < files.len() ==> (#[trigger] files[i]).file_num != (
        #[trigger] files[j]).file_num
}

/// No edit of the run deletes the file.
pub open spec fn spared(f: FileView, edits: Seq<EditView>) -> bool {
    forall|i: int|
        0 <= i < edits.len() ==> match #[trigger] edits[i] {
            EditView::DeleteFile { level, file_num } => manifest::survives(f, level, file_num),
            _ => true,
        }
}

/// Additions add their files at the end.
pub proof fn lemma_apply_additions(s: StateView, ms: Seq<FileView>)
    ensures
        manifest::apply_all(s, compact::additions(ms)) == (StateView { files: s.files + ms, ..s }),
    decreases ms.len(),
{
    let es = compact::additions(ms);
    if ms.len() == 0 {
        assert(s.files + ms =~= s.files);
    } else {
        let p = ms.drop_last();
        lemma_apply_additions(s, p);
        assert(es.drop_last() =~= compact::additions(p));
        assert((s.files + p).push(ms.last()) =~= s.files + ms);
    }
}

proof fn lemma_filter(s: Seq<FileView>, p: spec_fn(FileView) -> bool, f: FileView)
    ensures
        s.filter(p).contains(f) <==> (s.contains(f) && p(f)),
        distinct(s) ==> distinct(s.filter(p)),
    decreases s.len(),
{
    reveal(Seq::filter);
    let all = s.filter(p);
    if s.len() == 0 {
        assert(!all.contains(f));
    } else {
        let q = s.drop_last();
        let l = s.last();
        assert(s[s.len() - 1] == l);
        lemma_filter(q, p, f);
        let r = q.filter(p);
        if all.contains(f) {
            let i = choose|i: int| 0 <= i < all.len() && all[i] == f;
            if p(l) && i == r.len() {
                assert(s.contains(l));
            } else {
                assert(r[i] == f);
                assert(r.contains(f));
                let j = choose|j: int| 0 <= j < q.len() && q[j] == f;
                assert(s[j] == f);
            }
        }
        if s.contains(f) && p(f) {
            let j = choose|j: int| 0 <= j < s.len() && s[j] == f;
            if j < q.len() {
                assert(q[j] == f);
                assert(q.contains(f));
                let i = choose|i: int| 0 <= i < r.len() && r[i] == f;
                assert(all[i] == f);
            } else {
                assert(all[r.len() as int] == f);
            }
        }
        if distinct(s) {
            assert forall|i: int, j: int| 0 <= i < j < q.len() implies (#[trigger] q[i]).file_num
                != (#[trigger] q[j]).file_num by {
                assert(q[i] == s[i] && q[j] == s[j]);
            }
            assert(distinct(r));
            if p(l) {
                assert forall|i: int, j: int| 0 <= i < j < all.len() implies (
                #[trigger] all[i]).file_num != (#[trigger] all[j]).file_num by {
                    assert(all[i] == r[i]);
                    if j < r.len() {
                        assert(all[j] == r[j]);
                    } else {
                        assert(r.contains(r[i]));
                        lemma_filter(q, p, r[i]);
                        let a = choose|a: int| 0 <= a < q.len() && q[a] == r[i];
                        assert(s[a] == r[i]);
                        assert(s[a].file_num != s[s.len() - 1].file_num);
                    }
                }
            }
        }
    }
}

/// After a run of edits that add nothing, the files that no edit deletes are left.
pub proof fn lemma_apply_deletions(s: StateView, edits: Seq<EditView>, f: FileView)
    requires
        forall|i: int| 0 <= i < edits.len() ==> !((#[trigger] edits[i]) is AddFile),
    ensures
        manifest::apply_all(s, edits).files.contains(f) <==> (s.files.contains(f) && spared(
            f,
            edits,
        )),
        distinct(s.files) ==> distinct(manifest::apply_all(s, edits).files),
    decreases edits.len(),
{
    if edits.len() > 0 {
        let p = edits.drop_last();
        let e = edits.last();
        assert(edits[edits.len() - 1] == e);
        assert forall|i: int| 0 <= i < p.len() implies !((#[trigger] p[i]) is AddFile) by {
            assert(p[i] == edits[i]);
        }
        lemma_apply_deletions(s, p, f);
        let mid = manifest::apply_all(s, p).files;
        if let EditView::DeleteFile { level, file_num } = e {
            lemma_filter(mid, |x: FileView| manifest::survives(x, level, file_num), f);
        }
        if spared(f, edits) {
            assert forall|i: int| 0 <= i < p.len() implies match #[trigger] p[i] {
                EditView::DeleteFile { level, file_num } => manifest::survives(f, level, file_num),
                _ => true,
            } by {
                assert(p[i] == edits[i]);
            }
        }
        if spared(f, p) {
            assert(spared(f, edits) <==> match e {
                EditView::DeleteFile { level, file_num } => manifest::survives(f, level, file_num),
                _ => true,
            }) by {
                assert forall|i: int| 0 <= i < p.len() implies #[trigger] edits[i] == p[i] by {}
            }
        }
    }
}

/// The file is that of some table.
pub open spec fn is_file_of(levels: Seq<Seq<TableView>>, f: FileView, l: int, i: int) -> bool {
    0 <= l < levels.len() && 0 <= i < levels[l].len() && f == db::file_of(levels[l][i], l)
}

/// The files of the levels are those of their tables.
pub proof fn lemma_level_files(levels: Seq<Seq<TableView>>, f: FileView)
    ensures
        db::level_files(levels).contains(f) <==> exists|l: int, i: int| #[trigger]
            is_file_of(levels, f, l, i),
    decreases levels.len(),
{
    let all = db::level_files(levels);
    if levels.len() == 0 {
        assert(!all.contains(f));
    } else {
        let p = levels.drop_last();
        let n = levels.len() - 1;
        let s = levels.last();
        let a = db::level_files(p);
        let b = db::files_of(s, n);
        assert(all == a + b);
        lemma_level_files(p, f);
        if all.contains(f) {
            let x = choose|x: int| 0 <= x < all.len() && all[x] == f;
            if x < a.len() {
                assert(a[x] == f);
                assert(a.contains(f));
                let (l, i) = choose|l: int, i: int| #[trigger] is_file_of(p, f, l, i);
                assert(is_file_of(levels, f, l, i));
            } else {
                assert(b[x - a.len()] == f);
                assert(is_file_of(levels, f, n, x - a.len()));
            }
        }
        if exists|l: int, i: int| #[trigger] is_file_of(levels, f, l, i) {
            let (l, i) = choose|l: int, i: int| #[trigger] is_file_of(levels, f, l, i);
            if l < n {
                assert(is_file_of(p, f, l, i));
                let x = choose|x: int| 0 <= x < a.len() && a[x] == f;
                assert(all[x] == f);
            } else {
                assert(all[a.len() + i] == b[i]);
            }
        }
    }
}

/// Where every table has a number of its own, so has every file.
pub proof fn lemma_level_files_distinct(levels: Seq<Seq<TableView>>, n: u64)
    requires
        soundness::numbered(levels, n),
    ensures
        distinct(db::level_files(levels)),
    decreases levels.len(),
{
    if levels.len() > 0 {
        let p = levels.drop_last();
        let m = levels.len() - 1;
        let s = levels.last();
        let a = db::level_files(p);
        let b = db::files_of(s, m);
        let all = a + b;
        assert(levels[m] == s);
        assert(soundness::numbered(p, n)) by {
            assert forall|l: int, i: int|
                0 <= l < p.len() && 0 <= i < p[l].len() implies (#[trigger] p[l][i]).file_num < n by {
                assert(p[l][i] == levels[l][i]);
            }
            assert forall|l: int, i: int, m: int, j: int|
                0 <= l < p.len() && 0 <= i < p[l].len() && 0 <= m < p.len() && 0 <= j < p[m].len()
                    && (#[trigger] p[l][i]).file_num == (#[trigger] p[m][j]).file_num implies l == m
                && i == j by {
                assert(p[l][i] == levels[l][i] && p[m][j] == levels[m][j]);
            }
        }
        lemma_level_files_distinct(p, n);
        assert forall|x: int, y: int| 0 <= x < y < all.len() implies (#[trigger] all[x]).file_num
            != (#[trigger] all[y]).file_num by {
            if y < a.len() {
                assert(all[x] == a[x] && all[y] == a[y]);
            } else {
                let j = y - a.len();
                assert(all[y] == b[j]);
                assert(b[j].file_num == levels[m][j].file_num);
                if x < a.len() {
                    assert(all[x] == a[x]);
                    assert(a.contains(a[x]));
                    lemma_level_files(p, a[x]);
                    let (l, i) = choose|l: int, i: int| #[trigger] is_file_of(p, a[x], l, i);
                    assert(p[l][i] == levels[l][i]);
                } else {
                    let i = x - a.len();
                    assert(all[x] == b[i]);
                    assert(b[i].file_num == levels[m][i].file_num);
                }
            }
        }
    }
}

} // verus!

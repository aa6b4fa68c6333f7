//! What a database starts from, what the manifest tells it, and how its files are kept.

use crate::codec;
use crate::db;
use crate::db::{DbView, FlushJob};
use crate::key::Record;
use crate::laws::files;
use crate::manifest;
use crate::manifest::{EditView, FileView, StateView};
use crate::model;
use crate::options::Options;
use crate::sstable::builder;
use crate::sstable::reader::TableView;
use crate::version;
use crate::wal::WalView;
use vstd::prelude::*;

verus! {

/// A database that is opened is open, has nothing waiting to be flushed, no snapshot and all
/// counters at zero; its log and its manifest are synced as the options say.
pub proof fn law_opened_db_starts_afresh(
    opts: Options,
    state: StateView,
    opened: Seq<Option<TableView>>,
    writes: Seq<Record>,
)
    ensures
        ({
            let w = db::opened_db(opts, state, opened, writes);
            &&& w.opts == opts
            &&& !w.closed
            &&& w.imms.len() == 0
            &&& w.flushing is None
            &&& w.snapshots.len() == 0
            &&& w.wal == (WalView { fsync: opts.fsync, pending: 0 })
            &&& w.manifest_fsync == opts.fsync
            &&& w.flush_count == 0
            &&& w.compact_count == 0
            &&& w.stall_count == 0
            &&& w.user_bytes == 0
            &&& w.disk_bytes_written == 0
        }),
{
}

/// Writes go on behind the last sequence number that is known, from the manifest or from the log:
/// the database starts with the largest of them, and no larger one.
pub proof fn law_opened_db_counts_on(
    opts: Options,
    state: StateView,
    opened: Seq<Option<TableView>>,
    writes: Seq<Record>,
)
    ensures
        ({
            let n = db::opened_db(opts, state, opened, writes).next_seq;
            &&& n >= state.last_seq
            &&& forall|i: int| 0 <= i < writes.len() ==> (#[trigger] writes[i]).0.seq <= n
            &&& n == state.last_seq || exists|i: int|
                0 <= i < writes.len() && (#[trigger] writes[i]).0.seq == n
        }),
{
    lemma_largest(state.last_seq, writes);
}

proof fn lemma_largest(start: u64, s: Seq<Record>)
    ensures
        ({
            let n = db::largest_seq(start, s);
            &&& n >= start
            &&& forall|i: int| 0 <= i < s.len() ==> (#[trigger] s[i]).0.seq <= n
            &&& n == start || exists|i: int| 0 <= i < s.len() && (#[trigger] s[i]).0.seq == n
        }),
    decreases s.len(),
{
    let n = db::largest_seq(start, s);
    if s.len() > 0 {
        let p = s.drop_last();
        lemma_largest(start, p);
        assert forall|i: int| 0 <= i < s.len() implies (#[trigger] s[i]).0.seq <= n by {
            if i < p.len() {
                assert(p[i] == s[i]);
            }
        }
        if n == s.last().0.seq {
            assert(s[s.len() - 1].0.seq == n);
        } else if n != start {
            let i = choose|i: int| 0 <= i < p.len() && (#[trigger] p[i]).0.seq == n;
            assert(s[i].0.seq == n);
        }
    }
}

/// The first file number that a database gives out is the least one from 1 on that is neither below
/// the next one of the manifest nor that of a file, nor below that of a file.
pub proof fn law_opened_db_numbers_on(
    opts: Options,
    state: StateView,
    opened: Seq<Option<TableView>>,
    writes: Seq<Record>,
)
    requires
        forall|i: int|
            0 <= i < state.files.len() ==> (#[trigger] state.files[i]).file_num < u64::MAX,
    ensures
        ({
            let n = db::opened_db(opts, state, opened, writes).next_file_num;
            &&& n >= 1
            &&& n >= state.next_file_num
            &&& forall|i: int|
                0 <= i < state.files.len() ==> (#[trigger] state.files[i]).file_num < n
            &&& n == 1 || n == state.next_file_num || exists|i: int|
                0 <= i < state.files.len() && (#[trigger] state.files[i]).file_num + 1 == n
        }),
{
    let first: u64 = if state.next_file_num == 0 {
        1
    } else {
        state.next_file_num
    };
    lemma_free(first, state.files);
}

proof fn lemma_free(first: u64, fs: Seq<FileView>)
    requires
        forall|i: int| 0 <= i < fs.len() ==> (#[trigger] fs[i]).file_num < u64::MAX,
    ensures
        ({
            let n = db::free_number(first, fs);
            &&& n >= first
            &&& forall|i: int| 0 <= i < fs.len() ==> (#[trigger] fs[i]).file_num < n
            &&& n == first || exists|i: int|
                0 <= i < fs.len() && (#[trigger] fs[i]).file_num + 1 == n
        }),
    decreases fs.len(),
{
    let n = db::free_number(first, fs);
    if fs.len() > 0 {
        let p = fs.drop_last();
        assert(fs[fs.len() - 1] == fs.last());
        assert forall|i: int| 0 <= i < p.len() implies (#[trigger] p[i]).file_num < u64::MAX by {
            assert(p[i] == fs[i]);
        }
        lemma_free(first, p);
        assert forall|i: int| 0 <= i < fs.len() implies (#[trigger] fs[i]).file_num < n by {
            if i < p.len() {
                assert(p[i] == fs[i]);
            }
        }
        if n == db::free_number(first, p) && n != first {
            let i = choose|i: int| 0 <= i < p.len() && (#[trigger] p[i]).file_num + 1 == n;
            assert(fs[i].file_num + 1 == n);
        }
    }
}

/// The memtable of a database that is opened holds, in order, the writes of its log: of each
/// internal key the last one.
pub proof fn law_opened_db_holds_its_log(
    opts: Options,
    state: StateView,
    opened: Seq<Option<TableView>>,
    writes: Seq<Record>,
    r: Record,
)
    ensures
        ({
            let m = db::opened_db(opts, state, opened, writes).mem;
            &&& model::sorted(m)
            &&& m.contains(r) <==> exists|i: int| #[trigger] stays(writes, i) && writes[i] == r
        }),
{
    lemma_memtable(writes, r);
}

/// No later write has the internal key of the `i`-th.
pub open spec fn stays(writes: Seq<Record>, i: int) -> bool {
    &&& 0 <= i < writes.len()
    &&& forall|j: int| i < j < writes.len() ==> (#[trigger] writes[j]).0 != writes[i].0
}

proof fn lemma_memtable(s: Seq<Record>, r: Record)
    ensures
        model::sorted(db::memtable_of(s)),
        db::memtable_of(s).contains(r) <==> exists|i: int| #[trigger] stays(s, i) && s[i] == r,
    decreases s.len(),
{
    let m = db::memtable_of(s);
    if s.len() == 0 {
        assert(!m.contains(r));
    } else {
        let p = s.drop_last();
        let l = s.last();
        let n = s.len() - 1;
        lemma_memtable(p, r);
        let q = db::memtable_of(p);
        model::lemma_with_record(q, l.0, l.1);
        if m.contains(r) {
            if r == l {
                assert(stays(s, n));
            } else {
                let i = choose|i: int| #[trigger] stays(p, i) && p[i] == r;
                assert forall|j: int| i < j < s.len() implies (#[trigger] s[j]).0 != s[i].0 by {
                    if j < n {
                        assert(p[j].0 != p[i].0);
                    }
                }
                assert(stays(s, i) && s[i] == r);
            }
        }
        if exists|i: int| #[trigger] stays(s, i) && s[i] == r {
            let i = choose|i: int| #[trigger] stays(s, i) && s[i] == r;
            if i < n {
                assert(s[n].0 != s[i].0);
                assert forall|j: int| i < j < p.len() implies (#[trigger] p[j]).0 != p[i].0 by {
                    assert(s[j].0 != s[i].0);
                }
                assert(stays(p, i) && p[i] == r);
            }
        }
    }
}

/// What one edit changes, and that it changes nothing else.
pub proof fn law_edit_changes_one_thing(s: StateView, e: EditView, f: FileView)
    ensures
        ({
            let t = manifest::apply(s, e);
            match e {
                EditView::AddFile(m) => t.files == s.files.push(m) && t.next_file_num
                    == s.next_file_num && t.last_seq == s.last_seq,
                EditView::DeleteFile { level, file_num } => {
                    &&& t.files == s.files.filter(
                        |x: FileView| !(x.level == level && x.file_num == file_num),
                    )
                    &&& t.next_file_num == s.next_file_num
                    &&& t.last_seq == s.last_seq
                },
                EditView::SetNextFileNum(n) => t.files == s.files && t.next_file_num == n
                    && t.last_seq == s.last_seq,
                EditView::SetLastSeq(q) => t.files == s.files && t.next_file_num == s.next_file_num
                    && t.last_seq == q,
            }
        }),
{
    if let EditView::DeleteFile { level, file_num } = e {
        let p = |x: FileView| !(x.level == level && x.file_num == file_num);
        let q = |x: FileView| manifest::survives(x, level, file_num);
        lemma_same_filter(s.files, p, q);
    }
}

proof fn lemma_same_filter(
    s: Seq<FileView>,
    p: spec_fn(FileView) -> bool,
    q: spec_fn(FileView) -> bool,
)
    requires
        forall|x: FileView| #[trigger] p(x) == q(x),
    ensures
        s.filter(p) == s.filter(q),
    decreases s.len(),
{
    reveal(Seq::filter);
    if s.len() > 0 {
        lemma_same_filter(s.drop_last(), p, q);
        assert(p(s.last()) == q(s.last()));
    }
}

/// Edits are carried out one after the other.
pub proof fn law_edits_are_carried_out_in_order(s: StateView, edits: Seq<EditView>, e: EditView)
    ensures
        manifest::apply_all(s, Seq::empty()) == s,
        manifest::apply_all(s, edits.push(e)) == manifest::apply(manifest::apply_all(s, edits), e),
{
    assert(edits.push(e).drop_last() =~= edits);
}

/// What reopening leaves out of a manifest is a run at its end that was begun and not finished: it
/// deletes files or adds some below level 0, and nothing else; and what it keeps ends with an edit
/// that adds a file to level 0 or sets a number.
pub proof fn law_only_an_unfinished_run_is_left_out(edits: Seq<EditView>)
    ensures
        ({
            let kept = manifest::whole_runs(edits);
            &&& kept.len() <= edits.len()
            &&& kept == edits.take(kept.len() as int)
            &&& forall|i: int|
                kept.len() <= i < edits.len() ==> match #[trigger] edits[i] {
                    EditView::AddFile(m) => m.level > 0,
                    EditView::DeleteFile { level: _, file_num: _ } => true,
                    _ => false,
                }
            &&& kept.len() > 0 ==> match edits[kept.len() - 1] {
                EditView::AddFile(m) => m.level == 0,
                EditView::DeleteFile { level: _, file_num: _ } => false,
                _ => true,
            }
        }),
    decreases edits.len(),
{
    let kept = manifest::whole_runs(edits);
    if edits.len() == 0 {
        assert(kept =~= edits.take(0));
    } else {
        let t = edits.skip(1);
        let q = manifest::whole_runs(t);
        law_only_an_unfinished_run_is_left_out(t);
        assert forall|i: int| kept.len() <= i < edits.len() implies match #[trigger] edits[i] {
            EditView::AddFile(m) => m.level > 0,
            EditView::DeleteFile { level: _, file_num: _ } => true,
            _ => false,
        } by {
            if i > 0 {
                assert(edits[i] == t[i - 1]);
            }
        }
        assert(kept =~= edits.take(kept.len() as int));
        if q.len() > 0 {
            assert(edits[kept.len() - 1] == t[q.len() - 1]);
        }
    }
}

/// On level 0 the table with the higher file number does not stand before; on the others the one
/// with the larger smallest key does not.
pub open spec fn in_place(level: int, a: TableView, b: TableView) -> bool {
    if level == 0 {
        a.file_num <= b.file_num
    } else {
        codec::bytes_le(a.smallest, b.smallest)
    }
}

/// The levels that a list of files makes up: as many as the options name; on each the tables of its
/// files that could be opened, all of them and no others, in their places.
pub proof fn law_levels_are_made_of_files(
    fs: Seq<FileView>,
    opened: Seq<Option<TableView>>,
    max_levels: nat,
    l: int,
    t: TableView,
)
    requires
        fs.len() == opened.len(),
        0 <= l < max_levels,
    ensures
        ({
            let levels = version::levels_of(fs, opened, max_levels);
            &&& levels.len() == max_levels
            &&& levels[l].contains(t) <==> exists|i: int|
                0 <= i < fs.len() && (#[trigger] fs[i]).level == l && opened[i] == Some(t)
            &&& forall|i: int, j: int|
                0 <= i < j < levels[l].len() ==> in_place(
                    l,
                    #[trigger] levels[l][i],
                    #[trigger] levels[l][j],
                )
        }),
{
    version::lemma_level_tables(l, fs, opened, t);
    lemma_in_place(l, fs, opened);
    let s = version::level_tables(l, fs, opened);
    assert(version::levels_of(fs, opened, max_levels)[l] == s);
    if s.contains(t) {
        let i = choose|i: int|
            0 <= i < fs.len() && #[trigger] version::is_table_of(l, fs, opened, i, t);
        assert(fs[i].level == l && opened[i] == Some(t));
    }
    if exists|i: int| 0 <= i < fs.len() && (#[trigger] fs[i]).level == l && opened[i] == Some(t) {
        let i = choose|i: int|
            0 <= i < fs.len() && (#[trigger] fs[i]).level == l && opened[i] == Some(t);
        assert(version::is_table_of(l, fs, opened, i, t));
    }
}

proof fn lemma_le_transitive(a: Seq<u8>, b: Seq<u8>, c: Seq<u8>)
    requires
        codec::bytes_le(a, b),
        codec::bytes_le(b, c),
    ensures
        codec::bytes_le(a, c),
{
    if a != b && b != c {
        codec::lemma_bytes_lt_transitive(a, b, c);
    }
}

proof fn lemma_place_in_place(level: int, s: Seq<TableView>, t: TableView)
    requires
        forall|i: int, j: int|
            0 <= i < j < s.len() ==> in_place(level, #[trigger] s[i], #[trigger] s[j]),
    ensures
        ({
            let all = version::place(level, s, t);
            forall|i: int, j: int|
                0 <= i < j < all.len() ==> in_place(level, #[trigger] all[i], #[trigger] all[j])
        }),
    decreases s.len(),
{
    let all = version::place(level, s, t);
    if s.len() > 0 && version::stands_before(level, t, s.last()) {
        let p = s.drop_last();
        let q = version::place(level, p, t);
        assert forall|i: int, j: int| 0 <= i < j < p.len() implies in_place(
            level,
            #[trigger] p[i],
            #[trigger] p[j],
        ) by {
            assert(p[i] == s[i] && p[j] == s[j]);
        }
        lemma_place_in_place(level, p, t);
        version::lemma_place(level, p, t);
        assert forall|i: int, j: int| 0 <= i < j < all.len() implies in_place(
            level,
            #[trigger] all[i],
            #[trigger] all[j],
        ) by {
            assert(all[i] == q[i]);
            if j < q.len() {
                assert(all[j] == q[j]);
            } else {
                assert(q.contains(q[i]));
                if q[i] != t {
                    let k = choose|k: int| 0 <= k < p.len() && p[k] == q[i];
                    assert(s[k] == p[k]);
                    assert(in_place(level, s[k], s[s.len() - 1]));
                }
            }
        }
    } else {
        assert forall|i: int, j: int| 0 <= i < j < all.len() implies in_place(
            level,
            #[trigger] all[i],
            #[trigger] all[j],
        ) by {
            assert(all[i] == s[i]);
            if j < s.len() {
                assert(all[j] == s[j]);
            } else {
                let l = s[s.len() - 1];
                if level != 0 {
                    codec::lemma_bytes_lt_total(t.smallest, l.smallest);
                }
                assert(in_place(level, l, t));
                if i < s.len() - 1 {
                    assert(in_place(level, s[i], l));
                    if level != 0 {
                        lemma_le_transitive(s[i].smallest, l.smallest, t.smallest);
                    }
                }
            }
        }
    }
}

proof fn lemma_in_place(level: int, fs: Seq<FileView>, opened: Seq<Option<TableView>>)
    requires
        fs.len() == opened.len(),
    ensures
        ({
            let s = version::level_tables(level, fs, opened);
            forall|i: int, j: int|
                0 <= i < j < s.len() ==> in_place(level, #[trigger] s[i], #[trigger] s[j])
        }),
    decreases fs.len(),
{
    if fs.len() > 0 {
        lemma_in_place(level, fs.drop_last(), opened.drop_last());
        let s = version::level_tables(level, fs.drop_last(), opened.drop_last());
        if let Some(t) = opened.last() {
            lemma_place_in_place(level, s, t);
        }
    }
}

/// A level is as large as all of its files, and one that does not exist has none.
pub proof fn law_level_counts_its_files(levels: Seq<Seq<TableView>>, l: int)
    ensures
        0 <= l < levels.len() ==> version::level_size(levels, l) == levels[l].fold_left(
            0int,
            |n: int, t: TableView| n + t.file_size,
        ),
        !(0 <= l < levels.len()) ==> version::level_size(levels, l) == 0,
        levels.len() > 0 ==> version::l0_count(levels) == levels[0].len(),
        levels.len() == 0 ==> version::l0_count(levels) == 0,
{
    if 0 <= l < levels.len() {
        lemma_sizes(levels[l]);
    }
}

proof fn lemma_sizes(s: Seq<TableView>)
    ensures
        version::tables_size(s) == s.fold_left(0int, |n: int, t: TableView| n + t.file_size),
    decreases s.len(),
{
    reveal(Seq::fold_left);
    if s.len() > 0 {
        lemma_sizes(s.drop_last());
    }
}

/// A flush leaves out the empty memtables in front, and takes the oldest of the others: that one is
/// written as a table, under the next file number, and nothing else changes.
pub proof fn law_flush_takes_the_oldest(r: Option<FlushJob>, v: DbView, w: DbView) -> (k: int)
    requires
        db::flush_starts(r, v, w),
        v.next_file_num < u64::MAX,
    ensures
        0 <= k <= v.imms.len(),
        forall|i: int| 0 <= i < k ==> (#[trigger] v.imms[i]).len() == 0,
        w.imms == v.imms.skip(k),
        r is None <==> k == v.imms.len(),
        r is None ==> w == (DbView { imms: w.imms, ..v }),
        r matches Some(job) ==> {
            &&& v.imms[k].len() > 0
            &&& job.bytes() == builder::table_file(
                v.imms[k],
                v.opts.block_size,
                v.opts.bloom_bits_per_key,
            )
            &&& job.meta().file_num == v.next_file_num
            &&& job.meta().level == 0
            &&& job.meta().smallest == v.imms[k][0].0.user_key
            &&& job.meta().largest == v.imms[k][v.imms[k].len() - 1].0.user_key
            &&& w.next_file_num == v.next_file_num + 1
            &&& w.flushing == Some(job.meta())
            &&& w == (DbView {
                imms: w.imms,
                next_file_num: w.next_file_num,
                flushing: w.flushing,
                ..v
            })
        },
{
    lemma_skip_empty(v.imms)
}

proof fn lemma_skip_empty(imms: Seq<Seq<Record>>) -> (k: int)
    ensures
        0 <= k <= imms.len(),
        forall|i: int| 0 <= i < k ==> (#[trigger] imms[i]).len() == 0,
        db::skip_empty(imms) == imms.skip(k),
        k < imms.len() ==> imms[k].len() > 0,
    decreases imms.len(),
{
    if imms.len() > 0 && imms[0].len() == 0 {
        let t = imms.skip(1);
        let k = lemma_skip_empty(t);
        assert forall|i: int| 0 <= i < k + 1 implies (#[trigger] imms[i]).len() == 0 by {
            if i > 0 {
                assert(imms[i] == t[i - 1]);
            }
        }
        assert(t.skip(k) =~= imms.skip(k + 1));
        k + 1
    } else {
        assert(imms.skip(0) =~= imms);
        0
    }
}

/// A flush can start wherever a file number is left and the filter of its table can be counted.
pub proof fn law_flush_can_start(v: DbView)
    requires
        v.next_file_num < u64::MAX,
        forall|i: int|
            0 <= i < v.imms.len() ==> (#[trigger] v.imms[i]).len() * (if v.opts.bloom_bits_per_key
                < 1 {
                1
            } else {
                v.opts.bloom_bits_per_key as int
            }) + 7 <= usize::MAX,
    ensures
        db::flushable(v),
{
    let k = lemma_skip_empty(v.imms);
    if k < v.imms.len() {
        assert(v.imms.skip(k)[0] == v.imms[k]);
        assert(v.imms[k].len() * (if v.opts.bloom_bits_per_key < 1 {
            1
        } else {
            v.opts.bloom_bits_per_key as int
        }) + 7 <= usize::MAX);
    }
}

/// Once a flush is logged, the manifest knows the new file besides those that it knew, and names
/// the next file number and the last sequence number of the database; a new manifest names those
/// too.
pub proof fn law_flush_is_logged(s: StateView, m: FileView, v: DbView)
    ensures
        ({
            let t = manifest::apply_all(s, db::flush_edits(m, v));
            &&& t.files == s.files.push(m)
            &&& t.next_file_num == v.next_file_num
            &&& t.last_seq == v.next_seq
        }),
        ({
            let t = manifest::apply_all(manifest::initial_state(), db::first_edits(v));
            &&& t.files.len() == 0
            &&& t.next_file_num == v.next_file_num
            &&& t.last_seq == v.next_seq
        }),
        manifest::initial_state().files.len() == 0,
        manifest::initial_state().next_file_num == 0,
        manifest::initial_state().last_seq == 0,
{
    let es = db::flush_edits(m, v);
    assert(es.drop_last() =~= seq![es[0], es[1]]);
    assert(es.drop_last().drop_last() =~= seq![es[0]]);
    assert(es.drop_last().drop_last().drop_last() =~= Seq::<EditView>::empty());
    let fs = db::first_edits(v);
    assert(fs.drop_last() =~= seq![fs[0]]);
    assert(fs.drop_last().drop_last() =~= Seq::<EditView>::empty());
    reveal_with_fuel(manifest::apply_all, 4);
}

/// What the user writes is counted by the length of keys and values, and what is written to disk by
/// the size of the files.
pub proof fn law_bytes_are_counted(v: DbView, key_len: nat, value_len: nat, n: u64, fs: Seq<FileView>)
    ensures
        v.user_bytes + key_len + value_len <= u64::MAX ==> db::counted(
            v,
            key_len,
            value_len,
        ).user_bytes == v.user_bytes + key_len + value_len,
        db::counted(v, key_len, value_len) == (DbView {
            user_bytes: db::counted(v, key_len, value_len).user_bytes,
            ..v
        }),
        n + sizes(fs) <= u64::MAX ==> db::bytes_added(n, fs) == n + sizes(fs),
    decreases fs.len(),
{
    reveal(Seq::fold_left);
    if fs.len() > 0 {
        law_bytes_are_counted(v, key_len, value_len, n, fs.drop_last());
    }
}

/// The sizes of a run of files, added up.
pub open spec fn sizes(fs: Seq<FileView>) -> int {
    fs.fold_left(0int, |n: int, f: FileView| n + f.file_size)
}

/// What the manifest is told of all tables: of each one its number, its level, its keys and its
/// size, and nothing else.
pub proof fn law_all_files_are_listed(levels: Seq<Seq<TableView>>, f: FileView)
    requires
        levels.len() <= u32::MAX,
    ensures
        db::level_files(levels).contains(f) <==> exists|l: int, i: int| #[trigger]
            describes(f, levels, l, i),
{
    files::lemma_level_files(levels, f);
    if exists|l: int, i: int| #[trigger] files::is_file_of(levels, f, l, i) {
        let (l, i) = choose|l: int, i: int| #[trigger] files::is_file_of(levels, f, l, i);
        assert(describes(f, levels, l, i));
    }
    if exists|l: int, i: int| #[trigger] describes(f, levels, l, i) {
        let (l, i) = choose|l: int, i: int| #[trigger] describes(f, levels, l, i);
        assert(files::is_file_of(levels, f, l, i));
    }
}

/// The description is that of the `i`-th table of level `l`.
pub open spec fn describes(f: FileView, levels: Seq<Seq<TableView>>, l: int, i: int) -> bool {
    &&& 0 <= l < levels.len()
    &&& 0 <= i < levels[l].len()
    &&& f.file_num == levels[l][i].file_num
    &&& f.level == l
    &&& f.smallest == levels[l][i].smallest
    &&& f.largest == levels[l][i].largest
    &&& f.file_size == levels[l][i].file_size
}

} // verus!

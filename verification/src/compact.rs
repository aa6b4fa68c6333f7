//! Leveled compaction: which tables to merge, and what comes out.

use crate::codec;
use crate::codec::{bytes_equal, bytes_less, bytes_less_or_equal, copy_bytes};
use crate::iter;
use crate::iter::RunSet;
use crate::key::{InternalKey, KeyView, Record, ValueKind};
use crate::manifest;
use crate::manifest::{EditView, FileMeta, FileView, ManifestEdit};
use crate::model;
use crate::model::StartView;
use crate::options::{FsyncMode, Options};
use crate::sstable::block;
use crate::sstable::block::Block;
use crate::sstable::bloom;
use crate::sstable::builder;
use crate::sstable::builder::SsTableBuilder;
use crate::sstable::reader;
use crate::sstable::reader::{SsTable, TableView};
use crate::version;
use crate::version::{push_all, Version};
use std::sync::Arc;
use vstd::prelude::*;

verus! {

/// `b` to the power of `n`.
pub open spec fn power(b: nat, n: nat) -> nat
    decreases n,
{
    if n == 0 {
        1
    } else {
        power(b, (n - 1) as nat) * b
    }
}

/// Bytes that level `level`, from 1 on, may hold before it is compacted.
pub open spec fn level_limit(opts: Options, level: int) -> nat {
    opts.base_level_bytes as nat * power(opts.level_ratio as nat, (level - 1) as nat)
}

/// The limit of a level, and the number of the level below it, can be computed.
pub open spec fn limit_fits(opts: Options, level: int) -> bool {
    &&& level < u32::MAX
    &&& power(opts.level_ratio as nat, (level - 1) as nat) <= u64::MAX
    &&& level_limit(opts, level) <= u64::MAX
}

/// The level holds more than it may.
pub open spec fn overfull(levels: Seq<Seq<TableView>>, opts: Options, level: int) -> bool {
    version::level_size(levels, level) > level_limit(opts, level)
}

/// The first level from `level` on, without the last one, that holds more than it may.
pub open spec fn first_overfull(
    levels: Seq<Seq<TableView>>,
    opts: Options,
    level: int,
) -> Option<int>
    decreases opts.max_levels - level,
{
    if level >= opts.max_levels - 1 {
        None
    } else if overfull(levels, opts, level) {
        Some(level)
    } else {
        first_overfull(levels, opts, level + 1)
    }
}

/// The limits of the levels that the search for an overfull one comes to can be computed.
pub open spec fn limits_fit(levels: Seq<Seq<TableView>>, opts: Options, level: int) -> bool
    decreases opts.max_levels - level,
{
    level >= opts.max_levels - 1 || (limit_fits(opts, level) && (overfull(levels, opts, level)
        || limits_fit(levels, opts, level + 1)))
}

/// The smallest key of a run of tables.
pub open spec fn range_min(s: Seq<TableView>) -> Seq<u8>
    decreases s.len(),
{
    if s.len() <= 1 {
        s[0].smallest
    } else {
        let m = range_min(s.drop_last());
        if codec::bytes_lt(s.last().smallest, m) {
            s.last().smallest
        } else {
            m
        }
    }
}

/// The largest key of a run of tables.
pub open spec fn range_max(s: Seq<TableView>) -> Seq<u8>
    decreases s.len(),
{
    if s.len() <= 1 {
        s[0].largest
    } else {
        let m = range_max(s.drop_last());
        if codec::bytes_lt(m, s.last().largest) {
            s.last().largest
        } else {
            m
        }
    }
}

/// The key range of the table and the one from `smallest` to `largest` have a key in common.
pub open spec fn overlaps(t: TableView, smallest: Seq<u8>, largest: Seq<u8>) -> bool {
    codec::bytes_le(smallest, t.largest) && codec::bytes_le(t.smallest, largest)
}

/// The tables of a level that overlap the range from `smallest` to `largest`.
pub open spec fn overlap(s: Seq<TableView>, smallest: Seq<u8>, largest: Seq<u8>) -> Seq<TableView>
    decreases s.len(),
{
    if s.len() == 0 {
        Seq::empty()
    } else {
        let p = overlap(s.drop_last(), smallest, largest);
        if overlaps(s.last(), smallest, largest) {
            p.push(s.last())
        } else {
            p
        }
    }
}

/// Tables to be merged: those of `upper`, of level `level`, into those of `lower`, of the level
/// below.
pub struct JobView {
    pub level: usize,
    pub upper: Seq<TableView>,
    pub lower: Seq<TableView>,
}

/// The compaction that is due, if any: of all of level 0 once it has enough tables, else of the
/// first table of the first level that holds more than it may.
pub open spec fn job_for(levels: Seq<Seq<TableView>>, opts: Options) -> Option<JobView> {
    if version::l0_count(levels) >= opts.l0_compaction_trigger {
        if levels[0].len() == 0 {
            None
        } else {
            Some(
                JobView {
                    level: 0,
                    upper: levels[0],
                    lower: overlap(levels[1], range_min(levels[0]), range_max(levels[0])),
                },
            )
        }
    } else {
        match first_overfull(levels, opts, 1) {
            None => None,
            Some(l) => Some(
                JobView {
                    level: l as usize,
                    upper: seq![levels[l][0]],
                    lower: overlap(levels[l + 1], levels[l][0].smallest, levels[l][0].largest),
                },
            ),
        }
    }
}

/// The search for a compaction meets no level that is missing and no limit that overflows.
pub open spec fn pickable(levels: Seq<Seq<TableView>>, opts: Options) -> bool {
    if version::l0_count(levels) >= opts.l0_compaction_trigger {
        levels.len() > 0 && (levels[0].len() > 0 ==> levels.len() > 1)
    } else {
        limits_fit(levels, opts, 1) && match first_overfull(levels, opts, 1) {
            None => true,
            Some(l) => l + 1 < levels.len(),
        }
    }
}

#[derive(Debug)]
pub struct CompactionJob {
    pub level: usize,
    pub inputs_upper: Vec<Arc<SsTable>>,
    pub inputs_lower: Vec<Arc<SsTable>>,
}

impl View for CompactionJob {
    type V = JobView;

    open spec fn view(&self) -> JobView {
        JobView {
            level: self.level,
            upper: version::tables_view(self.inputs_upper@),
            lower: version::tables_view(self.inputs_lower@),
        }
    }
}

/// What is left of the search for an overfull level, step by step.
fn find_overfull(version: &Version, opts: &Options) -> (r: Option<Option<usize>>)
    ensures
        match r {
            None => !limits_fit(version@, *opts, 1),
            Some(None) => limits_fit(version@, *opts, 1) && first_overfull(version@, *opts, 1)
                is None,
            Some(Some(l)) => {
                &&& limits_fit(version@, *opts, 1)
                &&& first_overfull(version@, *opts, 1) == Some(l as int)
                &&& overfull(version@, *opts, l as int)
                &&& limit_fits(*opts, l as int)
            },
        },
{
    let mut level: usize = 1;
    let mut scale: u64 = 1;
    let ratio: u64 = opts.level_ratio as u64;
    let base: u64 = opts.base_level_bytes as u64;
    let ghost levels = version@;
    let ghost o = *opts;
    let mut fits: bool = true;
    while opts.max_levels > 0 && level < opts.max_levels - 1
        invariant
            1 <= level,
            levels == version@,
            o == *opts,
            ratio == opts.level_ratio,
            base == opts.base_level_bytes,
            fits ==> scale == power(ratio as nat, (level - 1) as nat),
            !fits && level < opts.max_levels - 1 ==> power(ratio as nat, (level - 1) as nat)
                > u64::MAX,
            first_overfull(levels, o, 1) == first_overfull(levels, o, level as int),
            limits_fit(levels, o, 1) == limits_fit(levels, o, level as int),
        decreases opts.max_levels - level,
    {
        if !fits || level >= u32::MAX as usize {
            return None;
        }
        assert(base * scale <= u64::MAX * u64::MAX) by (nonlinear_arith)
            requires
                base <= u64::MAX,
                scale <= u64::MAX,
        ;
        let wide: u128 = base as u128 * scale as u128;
        assert(level_limit(o, level as int) == wide);
        if wide > u64::MAX as u128 {
            return None;
        }
        if version.level_bytes_wide(level) > wide {
            return Some(Some(level));
        }
        proof {
            assert(power(ratio as nat, level as nat) == power(ratio as nat, (level - 1) as nat)
                * ratio as nat);
        }
        match scale.checked_mul(ratio) {
            Some(s) => {
                scale = s;
            },
            None => {
                fits = false;
            },
        }
        level = level + 1;
    }
    Some(None)
}

/// Whether the search for a compaction meets neither a missing level nor a limit that overflows.
pub fn can_pick(version: &Version, opts: &Options) -> (r: bool)
    ensures
        r == pickable(version@, *opts),
{
    let n: usize = version.levels.len();
    if version.l0_num_files() >= opts.l0_compaction_trigger {
        n > 0 && (version.levels[0].len() == 0 || n > 1)
    } else {
        match find_overfull(version, opts) {
            None => false,
            Some(None) => true,
            Some(Some(l)) => l < n - 1,
        }
    }
}

/// The compaction that is due, if any.
pub fn pick_compaction(version: &Version, opts: &Options) -> (r: Option<CompactionJob>)
    requires
        pickable(version@, *opts),
    ensures
        match r {
            Some(job) => job_for(version@, *opts) == Some(job@),
            None => job_for(version@, *opts) is None,
        },
{
    let ghost levels = version@;
    if version.l0_num_files() >= opts.l0_compaction_trigger {
        let mut upper: Vec<Arc<SsTable>> = Vec::new();
        push_all(&mut upper, &version.levels[0]);
        assert(version::tables_view(upper@) =~= levels[0]);
        let (min_k, max_k) = match key_range(&upper) {
            Some(range) => range,
            None => {
                return None;
            },
        };
        let lower = overlapping(&version.levels[1], min_k.as_slice(), max_k.as_slice());
        return Some(CompactionJob { level: 0, inputs_upper: upper, inputs_lower: lower });
    }
    match find_overfull(version, opts) {
        Some(Some(level)) => {
            proof {
                assert(level < levels.len());
                assert(levels[level as int] == version::tables_view(version.levels@[level as int]@));
                assert(levels[level as int].len() > 0);
            }
            let upper = version.levels[level][0].clone();
            let lower = overlapping(
                &version.levels[level + 1],
                upper.smallest.as_slice(),
                upper.largest.as_slice(),
            );
            let mut inputs_upper: Vec<Arc<SsTable>> = Vec::new();
            inputs_upper.push(upper);
            assert(version::tables_view(inputs_upper@) =~= seq![levels[level as int][0]]);
            Some(CompactionJob { level, inputs_upper, inputs_lower: lower })
        },
        _ => None,
    }
}

/// The smallest and the largest key of a run of tables.
pub fn key_range(tables: &Vec<Arc<SsTable>>) -> (r: Option<(Vec<u8>, Vec<u8>)>)
    ensures
        match r {
            None => tables@.len() == 0,
            Some((min_k, max_k)) => {
                &&& tables@.len() > 0
                &&& min_k@ == range_min(version::tables_view(tables@))
                &&& max_k@ == range_max(version::tables_view(tables@))
            },
        },
{
    let n: usize = tables.len();
    if n == 0 {
        return None;
    }
    let ghost all = version::tables_view(tables@);
    let mut min_k: Vec<u8> = copy_bytes(&tables[0].smallest);
    let mut max_k: Vec<u8> = copy_bytes(&tables[0].largest);
    let mut i: usize = 1;
    while i < n
        invariant
            n == tables@.len(),
            all == version::tables_view(tables@),
            1 <= i <= n,
            min_k@ == range_min(all.take(i as int)),
            max_k@ == range_max(all.take(i as int)),
        decreases n - i,
    {
        let t = &tables[i];
        proof {
            assert(all.take(i + 1).drop_last() =~= all.take(i as int));
            assert(all.take(i + 1).last() == t@);
        }
        if bytes_less(t.smallest.as_slice(), min_k.as_slice()) {
            min_k = copy_bytes(&t.smallest);
        }
        if bytes_less(max_k.as_slice(), t.largest.as_slice()) {
            max_k = copy_bytes(&t.largest);
        }
        i = i + 1;
    }
    assert(all.take(n as int) =~= all);
    Some((min_k, max_k))
}

/// The tables of a level that overlap a key range.
pub fn overlapping(level: &Vec<Arc<SsTable>>, smallest: &[u8], largest: &[u8]) -> (out: Vec<
    Arc<SsTable>,
>)
    ensures
        version::tables_view(out@) == overlap(
            version::tables_view(level@),
            smallest@,
            largest@,
        ),
{
    let mut out: Vec<Arc<SsTable>> = Vec::new();
    let ghost all = version::tables_view(level@);
    let n: usize = level.len();
    let mut i: usize = 0;
    assert(version::tables_view(out@) =~= overlap(all.take(0), smallest@, largest@));
    while i < n
        invariant
            n == level@.len(),
            all == version::tables_view(level@),
            i <= n,
            version::tables_view(out@) == overlap(all.take(i as int), smallest@, largest@),
        decreases n - i,
    {
        let t = &level[i];
        proof {
            assert(all.take(i + 1).drop_last() =~= all.take(i as int));
            assert(all.take(i + 1).last() == t@);
        }
        if bytes_less_or_equal(smallest, t.largest.as_slice()) && bytes_less_or_equal(
            t.smallest.as_slice(),
            largest,
        ) {
            let ghost before = version::tables_view(out@);
            out.push(t.clone());
            assert(version::tables_view(out@) =~= before.push(t@));
        }
        i = i + 1;
    }
    assert(all.take(n as int) =~= all);
    out
}

/// The tables of a job in the order in which they are merged: newer ones first.
pub open spec fn job_tables(job: JobView) -> Seq<TableView> {
    job.upper.reverse() + job.lower
}

/// A tombstone that compaction into level `output_level` need not keep: no snapshot is older, and
/// no level below could hold what it hides.
pub open spec fn droppable(
    r: Record,
    output_level: int,
    watermark: u64,
    max_levels: usize,
) -> bool {
    r.0.kind == ValueKind::Delete && r.0.seq <= watermark && output_level + 1 >= max_levels
}

/// The records of `s` that compaction keeps.
pub open spec fn kept(
    s: Seq<Record>,
    output_level: int,
    watermark: u64,
    max_levels: usize,
) -> Seq<Record>
    decreases s.len(),
{
    if s.len() == 0 {
        Seq::empty()
    } else if droppable(s[0], output_level, watermark, max_levels) {
        kept(s.skip(1), output_level, watermark, max_levels)
    } else {
        seq![s[0]] + kept(s.skip(1), output_level, watermark, max_levels)
    }
}

/// A record of key `k` that follows one of key `before` in the order of the keys is of use to no
/// reader: either the two are the same version of one user key, or every reader, those of open
/// snapshots too, sees the one before.
pub open spec fn superseded(before: Option<KeyView>, k: KeyView, watermark: u64) -> bool {
    match before {
        Some(b) => b.user_key == k.user_key && (b.seq == k.seq || b.seq <= watermark),
        None => false,
    }
}

/// The records of `s` that some reader can see; `before` is the key of the record that came before
/// `s`.
pub open spec fn needed(s: Seq<Record>, before: Option<KeyView>, watermark: u64) -> Seq<Record>
    decreases s.len(),
{
    if s.len() == 0 {
        Seq::empty()
    } else if superseded(before, s[0].0, watermark) {
        needed(s.skip(1), Some(s[0].0), watermark)
    } else {
        seq![s[0]] + needed(s.skip(1), Some(s[0].0), watermark)
    }
}

/// What compaction makes of the runs: of each user key the versions above the watermark and the
/// newest one up to it, unless that is a tombstone that need not be kept.
pub open spec fn survivors(
    runs: Seq<Seq<Record>>,
    output_level: int,
    watermark: u64,
    max_levels: usize,
) -> Seq<Record> {
    kept(needed(iter::merged(runs), None, watermark), output_level, watermark, max_levels)
}

/// What a record adds to the size at which an output file is closed.
pub open spec fn weight(r: Record) -> nat {
    r.0.user_key.len() + r.1.len() + 16
}

/// Records dealt out to files: the files that are full, the one being filled, and its size.
pub struct FileCut {
    pub full: Seq<Seq<Record>>,
    pub open: Seq<Record>,
    pub size: nat,
}

/// A file that holds `open`, of size `size`, is closed before `r`: it has reached `target`, and `r`
/// is of another user key than the last record in it.
pub open spec fn closes(open: Seq<Record>, size: nat, r: Record, target: usize) -> bool {
    open.len() > 0 && size >= target && open.last().0.user_key != r.0.user_key
}

/// How records are dealt out to files: a file is full once its size reaches `target`, and all
/// versions of a user key go into one file.
pub open spec fn file_cut(s: Seq<Record>, target: usize) -> FileCut
    decreases s.len(),
{
    if s.len() == 0 {
        FileCut { full: Seq::empty(), open: Seq::empty(), size: 0 }
    } else {
        let c = file_cut(s.drop_last(), target);
        let r = s.last();
        if closes(c.open, c.size, r, target) {
            FileCut { full: c.full.push(c.open), open: seq![r], size: weight(r) }
        } else {
            FileCut { full: c.full, open: c.open.push(r), size: c.size + weight(r) }
        }
    }
}

/// The records of each output file.
pub open spec fn output_files(s: Seq<Record>, target: usize) -> Seq<Seq<Record>> {
    let c = file_cut(s, target);
    if c.open.len() > 0 {
        c.full.push(c.open)
    } else {
        c.full
    }
}

/// The bytes of each output file.
pub open spec fn output_bytes(files: Seq<Seq<Record>>, opts: Options) -> Seq<Seq<u8>> {
    Seq::new(
        files.len(),
        |i: int| builder::table_file(files[i], opts.block_size, opts.bloom_bits_per_key),
    )
}

/// What the manifest is told of each output file; the files are numbered from `next_file_num` on.
pub open spec fn output_metas(
    files: Seq<Seq<Record>>,
    opts: Options,
    level: usize,
    next_file_num: u64,
) -> Seq<FileView> {
    Seq::new(
        files.len(),
        |i: int|
            FileView {
                file_num: (next_file_num + i) as u64,
                level: (level + 1) as u32,
                smallest: files[i][0].0.user_key,
                largest: files[i].last().0.user_key,
                file_size: builder::table_file(
                    files[i],
                    opts.block_size,
                    opts.bloom_bits_per_key,
                ).len() as u64,
            },
    )
}

/// The edits that add files.
pub open spec fn additions(files: Seq<FileView>) -> Seq<EditView> {
    Seq::new(files.len(), |i: int| EditView::AddFile(files[i]))
}

/// Some table of the run has the file number.
pub open spec fn has_file(s: Seq<TableView>, file_num: u64) -> bool {
    exists|i: int| 0 <= i < s.len() && (#[trigger] s[i]).file_num == file_num
}

/// The edit that deletes an input of a job.
pub open spec fn deletion(job: JobView, t: TableView) -> EditView {
    EditView::DeleteFile {
        level: if has_file(job.upper, t.file_num) {
            job.level as u32
        } else {
            (job.level + 1) as u32
        },
        file_num: t.file_num,
    }
}

/// The edits that delete the inputs of a job.
pub open spec fn deletions(job: JobView) -> Seq<EditView> {
    let s = job.upper + job.lower;
    Seq::new(s.len(), |i: int| deletion(job, s[i]))
}

/// The output files can be numbered, and their filters laid out.
pub open spec fn outputs_fit(
    files: Seq<Seq<Record>>,
    bits_per_key: usize,
    next_file_num: u64,
) -> bool {
    &&& next_file_num + files.len() <= u64::MAX
    &&& forall|i: int|
        0 <= i < files.len() ==> bloom::filter_fits((#[trigger] files[i]).len(), bits_per_key)
}

/// The entries of a run of tables, from their blocks.
pub open spec fn inputs_view(inputs: Seq<Vec<Arc<Block>>>) -> Seq<Seq<Record>> {
    Seq::new(inputs.len(), |i: int| reader::blocks_entries(reader::blocks_view(inputs[i]@)))
}

/// What compaction of `runs`, from level `level` into the next, puts out, file by file.
pub open spec fn compacted(
    level: usize,
    runs: Seq<Seq<Record>>,
    opts: Options,
    watermark: u64,
) -> Seq<Seq<Record>> {
    output_files(
        survivors(runs, level + 1, watermark, opts.max_levels),
        opts.target_file_size,
    )
}

/// What a compaction puts out: the edits of the manifest, what it is told of the new files, their
/// bytes, and whether the files have to be fsynced once they are written.
#[derive(Debug)]
pub struct CompactionOutput {
    pub edits: Vec<ManifestEdit>,
    pub new_metas: Vec<FileMeta>,
    pub files: Vec<Vec<u8>>,
    pub sync: bool,
}

proof fn lemma_select_all(s: Seq<Record>)
    ensures
        model::select(s, StartView::Unbounded, u64::MAX) == s,
    decreases s.len(),
{
    if s.len() > 0 {
        lemma_select_all(s.skip(1));
        assert(seq![s[0]] + s.skip(1) =~= s);
    }
}

/// A reader that sees everything sees all of each run.
pub proof fn lemma_all_visible(ps: Seq<Seq<Record>>)
    ensures
        iter::visible_runs(ps, u64::MAX) == ps,
{
    assert forall|i: int| 0 <= i < ps.len() implies #[trigger] iter::visible_runs(ps, u64::MAX)[i]
        == ps[i] by {
        lemma_select_all(ps[i]);
    }
    assert(iter::visible_runs(ps, u64::MAX) =~= ps);
}

/// Files that are full stay as they are when more records come.
proof fn lemma_cut_prefix(a: Seq<Record>, b: Seq<Record>, target: usize)
    ensures
        file_cut(a, target).full.len() <= file_cut(a + b, target).full.len(),
        file_cut(a + b, target).full.take(file_cut(a, target).full.len() as int) == file_cut(
            a,
            target,
        ).full,
    decreases b.len(),
{
    let f = file_cut(a, target).full;
    let n = f.len() as int;
    if b.len() == 0 {
        assert(a + b =~= a);
        assert(f.take(n) =~= f);
    } else {
        lemma_cut_prefix(a, b.drop_last(), target);
        assert((a + b).drop_last() =~= a + b.drop_last());
        let g = file_cut(a + b.drop_last(), target).full;
        assert(file_cut(a + b, target).full.take(n) =~= g.take(n));
    }
}

/// The output of a compaction while it is being made.
struct OutputFiles {
    builder: Option<SsTableBuilder>,
    size: usize,
    last_user: Vec<u8>,
    new_metas: Vec<FileMeta>,
    files: Vec<Vec<u8>>,
    written: Ghost<Seq<Seq<Record>>>,
}

/// The bytes of stored files.
pub open spec fn bytes_view(s: Seq<Vec<u8>>) -> Seq<Seq<u8>> {
    Seq::new(s.len(), |i: int| s[i]@)
}

impl OutputFiles {
    /// The records of the file being filled.
    spec fn open(&self) -> Seq<Record> {
        match self.builder {
            Some(b) => b@.records,
            None => Seq::empty(),
        }
    }

    spec fn wf(&self, opts: Options, level: usize, next_file_num: u64) -> bool {
        &&& match self.builder {
            Some(b) => {
                &&& b.wf()
                &&& b@.records.len() > 0
                &&& b@.block_size == opts.block_size
                &&& b@.bits_per_key == opts.bloom_bits_per_key
                &&& b@.records.last().0.user_key == self.last_user@
            },
            None => self.size == 0,
        }
        &&& manifest::files_view(self.new_metas@) == output_metas(
            self.written@,
            opts,
            level,
            next_file_num,
        )
        &&& bytes_view(self.files@) == output_bytes(self.written@, opts)
    }

    /// Closes the file that is being filled, if there is one.
    fn flush_builder(
        &mut self,
        opts: &Options,
        level: usize,
        next_file_num: &mut u64,
        Ghost(first): Ghost<u64>,
    )
        requires
            old(self).wf(*opts, level, first),
            level + 1 <= u32::MAX,
            *old(next_file_num) == first + old(self).written@.len(),
            old(self).open().len() > 0 ==> *old(next_file_num) < u64::MAX && bloom::filter_fits(
                old(self).open().len(),
                opts.bloom_bits_per_key,
            ),
        ensures
            final(self).wf(*opts, level, first),
            final(self).open().len() == 0,
            final(self).size == 0,
            final(self).written@ == (if old(self).open().len() > 0 {
                old(self).written@.push(old(self).open())
            } else {
                old(self).written@
            }),
            *final(next_file_num) == first + final(self).written@.len(),
    {
        let ghost before = *self;
        let mut taken: Option<SsTableBuilder> = None;
        core::mem::swap(&mut taken, &mut self.builder);
        self.size = 0;
        if let Some(b) = taken {
            let file_num: u64 = *next_file_num;
            *next_file_num = file_num + 1;
            let ghost s = b@.records;
            let (bytes, meta, _) = b.finish(opts.fsync);
            let fm = FileMeta {
                file_num,
                level: (level + 1) as u32,
                smallest: meta.smallest.user_key,
                largest: meta.largest.user_key,
                file_size: meta.file_size,
            };
            let ghost metas = manifest::files_view(self.new_metas@);
            let ghost data = bytes_view(self.files@);
            self.new_metas.push(fm);
            self.files.push(bytes);
            self.written = Ghost(self.written@.push(s));
            proof {
                assert(metas.len() == before.written@.len());
                assert(data.len() == before.written@.len());
                assert(manifest::files_view(self.new_metas@) =~= metas.push(fm@));
                assert(bytes_view(self.files@) =~= data.push(bytes@));
                assert(manifest::files_view(self.new_metas@) =~= output_metas(
                    self.written@,
                    *opts,
                    level,
                    first,
                ));
                assert(bytes_view(self.files@) =~= output_bytes(self.written@, *opts));
            }
        }
    }

    /// Whether the file that is being filled is to be closed before a record of `user_key`.
    fn closes_before(&self, user_key: &Vec<u8>, opts: &Options, Ghost(r): Ghost<Record>, Ghost(
        level,
    ): Ghost<usize>, Ghost(first): Ghost<u64>, Ghost(size): Ghost<nat>) -> (c: bool)
        requires
            self.wf(*opts, level, first),
            r.0.user_key == user_key@,
            self.size == block::capped(size),
        ensures
            c == closes(self.open(), size, r, opts.target_file_size),
    {
        self.builder.is_some() && self.size >= opts.target_file_size && !bytes_equal(
            self.last_user.as_slice(),
            user_key.as_slice(),
        )
    }

    /// Puts a record into the file that is being filled, or into a new one.
    fn add(
        &mut self,
        k: &InternalKey,
        v: &Vec<u8>,
        opts: &Options,
        Ghost(level): Ghost<usize>,
        Ghost(first): Ghost<u64>,
    )
        requires
            old(self).wf(*opts, level, first),
        ensures
            final(self).wf(*opts, level, first),
            final(self).open() == old(self).open().push((k@, v@)),
            final(self).written@ == old(self).written@,
            final(self).size == old(self).size.saturating_add(
                k.user_key.len().saturating_add(v.len()).saturating_add(16),
            ),
    {
        let mut taken: Option<SsTableBuilder> = None;
        core::mem::swap(&mut taken, &mut self.builder);
        let mut b = match taken {
            Some(b) => b,
            None => SsTableBuilder::new(opts.block_size, opts.bloom_bits_per_key),
        };
        b.add(k, v.as_slice());
        self.builder = Some(b);
        self.last_user = copy_bytes(&k.user_key);
        self.size = self.size.saturating_add(
            k.user_key.len().saturating_add(v.len()).saturating_add(16),
        );
    }
}

/// Merges the tables of a job: of each user key the versions survive that a reader can still see,
/// but for tombstones that need not be kept. `streams` holds the entries of the tables, newer tables
/// first.
pub fn run_compaction(
    job: &CompactionJob,
    streams: Vec<Vec<(InternalKey, Vec<u8>)>>,
    opts: &Options,
    next_file_num: &mut u64,
    watermark: u64,
) -> (out: CompactionOutput)
    requires
        streams@.len() == job_tables(job@).len(),
        job.level < u32::MAX,
        outputs_fit(
            compacted(job.level, iter::runs_view(streams@), *opts, watermark),
            opts.bloom_bits_per_key,
            *old(next_file_num),
        ),
    ensures
        ({
            let files = compacted(job.level, iter::runs_view(streams@), *opts, watermark);
            let metas = output_metas(files, *opts, job.level, *old(next_file_num));
            &&& *final(next_file_num) == *old(next_file_num) + files.len()
            &&& manifest::files_view(out.new_metas@) == metas
            &&& bytes_view(out.files@) == output_bytes(files, *opts)
            &&& manifest::edits_view(out.edits@) == additions(metas) + deletions(job@)
            &&& out.sync == (opts.fsync != FsyncMode::Never)
        }),
{
    let ghost first = *next_file_num;
    let ghost files = compacted(job.level, iter::runs_view(streams@), *opts, watermark);
    let ghost level = (job.level + 1) as int;
    let ghost target = opts.target_file_size;
    let ghost given = iter::runs_view(streams@);
    let ghost all = survivors(given, level, watermark, opts.max_levels);
    proof {
        lemma_all_visible(given);
    }
    let mut heads = RunSet::new(streams, u64::MAX);
    let mut done = OutputFiles {
        builder: None,
        size: 0,
        last_user: Vec::new(),
        new_metas: Vec::new(),
        files: Vec::new(),
        written: Ghost(Seq::empty()),
    };
    let mut last: Option<(Vec<u8>, u64)> = None;
    let ghost mut before: Option<KeyView> = None;
    let mut next: u64 = *next_file_num;
    let ghost mut k: Seq<Record> = Seq::empty();
    let last_output: bool = opts.max_levels <= 2 || job.level >= opts.max_levels - 2;
    proof {
        assert(manifest::files_view(done.new_metas@) =~= output_metas(
            done.written@,
            *opts,
            job.level,
            first,
        ));
        assert(bytes_view(done.files@) =~= output_bytes(done.written@, *opts));
        assert(k + kept(
            needed(iter::merged(heads.runs()), before, watermark),
            level,
            watermark,
            opts.max_levels,
        ) =~= all);
    }
    loop
        invariant
            job.level < u32::MAX,
            level == job.level + 1,
            target == opts.target_file_size,
            last_output == (level + 1 >= opts.max_levels),
            files == output_files(all, target),
            outputs_fit(files, opts.bloom_bits_per_key, first),
            done.wf(*opts, job.level, first),
            next == first + done.written@.len(),
            done.written@ == file_cut(k, target).full,
            done.open() == file_cut(k, target).open,
            done.size == block::capped(file_cut(k, target).size),
            match last {
                Some(l) => before matches Some(b) && b.user_key == l.0@ && b.seq == l.1,
                None => before is None,
            },
            all == k + kept(
                needed(iter::merged(heads.runs()), before, watermark),
                level,
                watermark,
                opts.max_levels,
            ),
        ensures
            all == k,
            files == output_files(all, target),
            outputs_fit(files, opts.bloom_bits_per_key, first),
            done.wf(*opts, job.level, first),
            next == first + done.written@.len(),
            done.written@ == file_cut(k, target).full,
            done.open() == file_cut(k, target).open,
        decreases iter::total(heads.runs()),
    {
        let ghost runs = heads.runs();
        match heads.pop() {
            None => {
                assert(all =~= k);
                break ;
            },
            Some((item, i)) => {
                let (ik, v) = item;
                let ghost x = (ik@, v@);
                let ghost more = iter::merged(heads.runs());
                let ghost fs = needed(more, Some(x.0), watermark);
                proof {
                    iter::lemma_total_update(runs, i as int);
                    assert(iter::merged(runs) == seq![x] + more);
                    assert(iter::merged(runs).skip(1) =~= more);
                }
                let hidden: bool = match &last {
                    None => false,
                    Some(l) => bytes_equal(l.0.as_slice(), ik.user_key.as_slice()) && (l.1 == ik.seq
                        || l.1 <= watermark),
                };
                assert(hidden == superseded(before, x.0, watermark));
                last = Some((copy_bytes(&ik.user_key), ik.seq));
                proof {
                    before = Some(x.0);
                }
                if hidden {
                    continue ;
                }
                let ghost tail = kept(fs, level, watermark, opts.max_levels);
                assert((seq![x] + fs).skip(1) =~= fs);
                let drop: bool = match ik.kind {
                    ValueKind::Delete => ik.seq <= watermark && last_output,
                    ValueKind::Put => false,
                };
                if drop {
                    continue ;
                }
                let ghost c = file_cut(k, target);
                proof {
                    assert(all =~= k.push(x) + tail);
                    assert(k.push(x).drop_last() =~= k);
                    lemma_cut_prefix(k.push(x), tail, target);
                }
                if done.closes_before(
                    &ik.user_key,
                    opts,
                    Ghost(x),
                    Ghost(job.level),
                    Ghost(first),
                    Ghost(c.size),
                ) {
                    proof {
                        let d = file_cut(k.push(x), target);
                        let f = file_cut(all, target).full;
                        assert(d.full.last() == done.open());
                        assert(f.take(d.full.len() as int).last() == f[d.full.len() - 1]);
                        assert(files[d.full.len() - 1] == done.open());
                    }
                    done.flush_builder(opts, job.level, &mut next, Ghost(first));
                    assert(done.open() =~= Seq::<Record>::empty());
                }
                done.add(&ik, &v, opts, Ghost(job.level), Ghost(first));
                proof {
                    assert(done.open() =~= file_cut(k.push(x), target).open);
                    k = k.push(x);
                }
            },
        }
    }
    proof {
        if done.open().len() > 0 {
            assert(files.last() == done.open());
        }
    }
    done.flush_builder(opts, job.level, &mut next, Ghost(first));
    assert(done.written@ =~= files);
    *next_file_num = next;
    let edits = job_edits(job, &done.new_metas);
    CompactionOutput {
        edits,
        new_metas: done.new_metas,
        files: done.files,
        sync: opts.fsync != FsyncMode::Never,
    }
}

/// The entries of the tables to be merged, from their blocks.
pub fn read_inputs(inputs: &Vec<Vec<Arc<Block>>>) -> (streams: Vec<Vec<(InternalKey, Vec<u8>)>>)
    ensures
        iter::runs_view(streams@) == inputs_view(inputs@),
{
    let mut streams: Vec<Vec<(InternalKey, Vec<u8>)>> = Vec::new();
    let ghost all = inputs_view(inputs@);
    let n: usize = inputs.len();
    let mut i: usize = 0;
    assert(iter::runs_view(streams@) =~= all.take(0));
    while i < n
        invariant
            n == inputs@.len(),
            all == inputs_view(inputs@),
            i <= n,
            iter::runs_view(streams@) == all.take(i as int),
        decreases n - i,
    {
        let entries = SsTable::iter_all(&inputs[i]);
        let ghost before = iter::runs_view(streams@);
        streams.push(entries);
        assert(iter::runs_view(streams@) =~= before.push(all[i as int]));
        assert(all.take(i + 1) =~= all.take(i as int).push(all[i as int]));
        i = i + 1;
    }
    assert(all.take(n as int) =~= all);
    streams
}

/// The edits that replace the inputs of a job by its outputs.
fn job_edits(job: &CompactionJob, new_metas: &Vec<FileMeta>) -> (edits: Vec<ManifestEdit>)
    requires
        job.level < u32::MAX,
    ensures
        manifest::edits_view(edits@) == additions(manifest::files_view(new_metas@)) + deletions(
            job@,
        ),
{
    let mut edits: Vec<ManifestEdit> = Vec::new();
    let ghost adds = additions(manifest::files_view(new_metas@));
    let n: usize = new_metas.len();
    let mut i: usize = 0;
    assert(manifest::edits_view(edits@) =~= adds.take(0));
    while i < n
        invariant
            n == new_metas@.len(),
            adds == additions(manifest::files_view(new_metas@)),
            i <= n,
            manifest::edits_view(edits@) == adds.take(i as int),
        decreases n - i,
    {
        let ghost before = manifest::edits_view(edits@);
        edits.push(ManifestEdit::AddFile(new_metas[i].clone()));
        assert(manifest::edits_view(edits@) =~= before.push(adds[i as int]));
        assert(adds.take(i + 1) =~= adds.take(i as int).push(adds[i as int]));
        i = i + 1;
    }
    assert(adds.take(n as int) =~= adds);
    let mut tables: Vec<Arc<SsTable>> = Vec::new();
    push_all(&mut tables, &job.inputs_upper);
    push_all(&mut tables, &job.inputs_lower);
    let ghost all = job@.upper + job@.lower;
    assert(version::tables_view(tables@) =~= all);
    let ghost dels = deletions(job@);
    let m: usize = tables.len();
    let mut j: usize = 0;
    assert(manifest::edits_view(edits@) =~= adds + dels.take(0));
    while j < m
        invariant
            job.level < u32::MAX,
            m == tables@.len(),
            all == version::tables_view(tables@),
            all == job@.upper + job@.lower,
            dels == deletions(job@),
            j <= m,
            manifest::edits_view(edits@) == adds + dels.take(j as int),
        decreases m - j,
    {
        let file_num: u64 = tables[j].file_num;
        assert(all[j as int].file_num == file_num);
        let level: u32 = if has_file_num(&job.inputs_upper, file_num) {
            job.level as u32
        } else {
            (job.level + 1) as u32
        };
        let ghost before = manifest::edits_view(edits@);
        edits.push(ManifestEdit::DeleteFile { level, file_num });
        assert(manifest::edits_view(edits@) =~= before.push(dels[j as int]));
        assert(dels.take(j + 1) =~= dels.take(j as int).push(dels[j as int]));
        assert(manifest::edits_view(edits@) =~= adds + dels.take(j + 1));
        j = j + 1;
    }
    assert(dels.take(m as int) =~= dels);
    edits
}

/// Some table of the run has the file number.
fn has_file_num(tables: &Vec<Arc<SsTable>>, file_num: u64) -> (r: bool)
    ensures
        r == has_file(version::tables_view(tables@), file_num),
{
    let n: usize = tables.len();
    let mut i: usize = 0;
    while i < n
        invariant
            n == tables@.len(),
            i <= n,
            forall|j: int|
                0 <= j < i ==> (#[trigger] version::tables_view(tables@)[j]).file_num != file_num,
        decreases n - i,
    {
        assert(version::tables_view(tables@)[i as int] == tables@[i as int]@);
        if tables[i].file_num == file_num {
            return true;
        }
        i = i + 1;
    }
    false
}

/// The tables of a job in the order in which they are merged.
pub fn tables_to_merge(job: &CompactionJob) -> (out: Vec<Arc<SsTable>>)
    ensures
        version::tables_view(out@) == job_tables(job@),
{
    let mut out: Vec<Arc<SsTable>> = Vec::new();
    let ghost upper = job@.upper;
    let mut i: usize = job.inputs_upper.len();
    assert(version::tables_view(out@) =~= upper.skip(i as int).reverse());
    while i > 0
        invariant
            i <= job.inputs_upper@.len(),
            upper == version::tables_view(job.inputs_upper@),
            version::tables_view(out@) == upper.skip(i as int).reverse(),
        decreases i,
    {
        let ghost before = version::tables_view(out@);
        out.push(job.inputs_upper[i - 1].clone());
        assert(version::tables_view(out@) =~= before.push(upper[i - 1]));
        assert(version::tables_view(out@) =~= upper.skip(i - 1).reverse());
        i = i - 1;
    }
    assert(upper.skip(0) =~= upper);
    push_all(&mut out, &job.inputs_lower);
    out
}

proof fn lemma_merged_len(ps: Seq<Seq<Record>>)
    ensures
        iter::merged(ps).len() == iter::total(ps),
    decreases iter::total(ps),
{
    iter::lemma_least(ps);
    match iter::least(ps) {
        None => {
            lemma_total_empty(ps);
        },
        Some(i) => {
            iter::lemma_total_update(ps, i);
            lemma_merged_len(iter::without_head(ps, i));
        },
    }
}

proof fn lemma_total_empty(ps: Seq<Seq<Record>>)
    requires
        forall|j: int| 0 <= j < ps.len() ==> (#[trigger] ps[j]).len() == 0,
    ensures
        iter::total(ps) == 0,
    decreases ps.len(),
{
    if ps.len() > 0 {
        let p = ps.drop_last();
        assert forall|j: int| 0 <= j < p.len() implies (#[trigger] p[j]).len() == 0 by {
            assert(p[j] == ps[j]);
        }
        lemma_total_empty(p);
    }
}

proof fn lemma_needed_len(s: Seq<Record>, before: Option<KeyView>, watermark: u64)
    ensures
        needed(s, before, watermark).len() <= s.len(),
    decreases s.len(),
{
    if s.len() > 0 {
        lemma_needed_len(s.skip(1), Some(s[0].0), watermark);
    }
}

proof fn lemma_kept_len(s: Seq<Record>, output_level: int, watermark: u64, max_levels: usize)
    ensures
        kept(s, output_level, watermark, max_levels).len() <= s.len(),
    decreases s.len(),
{
    if s.len() > 0 {
        lemma_kept_len(s.skip(1), output_level, watermark, max_levels);
    }
}

proof fn lemma_cut_len(s: Seq<Record>, target: usize)
    ensures
        file_cut(s, target).full.len() + file_cut(s, target).open.len() <= s.len(),
        forall|i: int|
            0 <= i < file_cut(s, target).full.len() ==> (#[trigger] file_cut(
                s,
                target,
            ).full[i]).len() <= s.len(),
    decreases s.len(),
{
    if s.len() > 0 {
        lemma_cut_len(s.drop_last(), target);
    }
}

/// Whether there is room for whatever compaction of `streams` can put out: as many files as there
/// are records, or all of them in one.
pub fn has_room(
    streams: &Vec<Vec<(InternalKey, Vec<u8>)>>,
    level: usize,
    opts: &Options,
    next_file_num: u64,
    watermark: u64,
) -> (r: bool)
    ensures
        r == (next_file_num + iter::total(iter::runs_view(streams@)) <= u64::MAX
            && bloom::filter_fits(iter::total(iter::runs_view(streams@)), opts.bloom_bits_per_key)),
        r ==> outputs_fit(
            compacted(level, iter::runs_view(streams@), *opts, watermark),
            opts.bloom_bits_per_key,
            next_file_num,
        ),
{
    let ghost runs = iter::runs_view(streams@);
    let n: usize = streams.len();
    let mut count: u128 = 0;
    let mut i: usize = 0;
    assert(runs.take(0) =~= Seq::<Seq<Record>>::empty());
    while i < n
        invariant
            n == streams@.len(),
            runs == iter::runs_view(streams@),
            i <= n,
            count == iter::total(runs.take(i as int)),
            count <= i * usize::MAX,
        decreases n - i,
    {
        proof {
            assert(runs.take(i + 1).drop_last() =~= runs.take(i as int));
            assert(runs.take(i + 1).last() == runs[i as int]);
            assert((i + 1) * usize::MAX == i * usize::MAX + usize::MAX) by (nonlinear_arith);
            assert(i * usize::MAX + usize::MAX <= u128::MAX) by (nonlinear_arith)
                requires
                    i <= u64::MAX,
            ;
        }
        count = count + streams[i].len() as u128;
        i = i + 1;
    }
    assert(runs.take(n as int) =~= runs);
    let per_key: usize = if opts.bloom_bits_per_key == 0 {
        1
    } else {
        opts.bloom_bits_per_key
    };
    if count > (u64::MAX - next_file_num) as u128 {
        return false;
    }
    assert(count * per_key <= u64::MAX * u64::MAX) by (nonlinear_arith)
        requires
            count <= u64::MAX,
            per_key <= u64::MAX,
    ;
    let bits: u128 = count * per_key as u128;
    if bits + 7 > usize::MAX as u128 {
        return false;
    }
    proof {
        let s = needed(iter::merged(runs), None, watermark);
        lemma_merged_len(runs);
        lemma_needed_len(iter::merged(runs), None, watermark);
        lemma_kept_len(s, level + 1, watermark, opts.max_levels);
        let all = survivors(runs, level + 1, watermark, opts.max_levels);
        lemma_cut_len(all, opts.target_file_size);
        let files = compacted(level, runs, *opts, watermark);
        assert forall|j: int| 0 <= j < files.len() implies bloom::filter_fits(
            (#[trigger] files[j]).len(),
            opts.bloom_bits_per_key,
        ) by {
            let m = files[j].len();
            assert(m * per_key <= count * per_key) by (nonlinear_arith)
                requires
                    m <= count,
            ;
        }
    }
    true
}

} // verus!

//! The manifest: a log of which table files make up the database.

use crate::codec;
use crate::codec::{bytes_equal, copy_bytes, copy_range, get_u32, get_u64, put_bytes, put_u32, put_u64};
use crate::error;
use crate::error::{corruption, Error, Result};
use crate::frame;
use crate::frame::{frame_step, framed, FrameStep};
use crate::options::FsyncMode;
use crate::text;
use crate::text::push_decimal;
use vstd::prelude::*;

verus! {

/// What the manifest knows of a table file.
pub struct FileView {
    pub file_num: u64,
    pub level: u32,
    pub smallest: Seq<u8>,
    pub largest: Seq<u8>,
    pub file_size: u64,
}

#[derive(Debug)]
pub struct FileMeta {
    pub file_num: u64,
    pub level: u32,
    pub smallest: Vec<u8>,
    pub largest: Vec<u8>,
    pub file_size: u64,
}

impl View for FileMeta {
    type V = FileView;

    open spec fn view(&self) -> FileView {
        FileView {
            file_num: self.file_num,
            level: self.level,
            smallest: self.smallest@,
            largest: self.largest@,
            file_size: self.file_size,
        }
    }
}

impl FileMeta {
    /// Whether two descriptions say the same.
    pub fn is_same(&self, other: &FileMeta) -> (r: bool)
        ensures
            r == (self@ == other@),
    {
        self.file_num == other.file_num && self.level == other.level && bytes_equal(
            self.smallest.as_slice(),
            other.smallest.as_slice(),
        ) && bytes_equal(self.largest.as_slice(), other.largest.as_slice()) && self.file_size
            == other.file_size
    }
}

impl Clone for FileMeta {
    fn clone(&self) -> (r: Self)
        ensures
            r@ == self@,
    {
        Self {
            file_num: self.file_num,
            level: self.level,
            smallest: copy_bytes(&self.smallest),
            largest: copy_bytes(&self.largest),
            file_size: self.file_size,
        }
    }
}

/// What an edit says.
pub enum EditView {
    AddFile(FileView),
    DeleteFile { level: u32, file_num: u64 },
    SetNextFileNum(u64),
    SetLastSeq(u64),
}

#[derive(Debug)]
pub enum ManifestEdit {
    AddFile(FileMeta),
    DeleteFile { level: u32, file_num: u64 },
    SetNextFileNum(u64),
    SetLastSeq(u64),
}

impl View for ManifestEdit {
    type V = EditView;

    open spec fn view(&self) -> EditView {
        match *self {
            ManifestEdit::AddFile(m) => EditView::AddFile(m@),
            ManifestEdit::DeleteFile { level, file_num } => EditView::DeleteFile {
                level,
                file_num,
            },
            ManifestEdit::SetNextFileNum(n) => EditView::SetNextFileNum(n),
            ManifestEdit::SetLastSeq(s) => EditView::SetLastSeq(s),
        }
    }
}

impl Clone for ManifestEdit {
    fn clone(&self) -> (r: Self)
        ensures
            r@ == self@,
    {
        match self {
            ManifestEdit::AddFile(m) => ManifestEdit::AddFile(m.clone()),
            ManifestEdit::DeleteFile { level, file_num } => ManifestEdit::DeleteFile {
                level: *level,
                file_num: *file_num,
            },
            ManifestEdit::SetNextFileNum(n) => ManifestEdit::SetNextFileNum(*n),
            ManifestEdit::SetLastSeq(s) => ManifestEdit::SetLastSeq(*s),
        }
    }
}

/// What a run of edits says.
pub open spec fn edits_view(s: Seq<ManifestEdit>) -> Seq<EditView> {
    Seq::new(s.len(), |i: int| s[i]@)
}

/// What a run of file descriptions says.
pub open spec fn files_view(s: Seq<FileMeta>) -> Seq<FileView> {
    Seq::new(s.len(), |i: int| s[i]@)
}

/// Layout of an edit: a byte for what it does, then its parts.
pub open spec fn edit_bytes(e: EditView) -> Seq<u8> {
    match e {
        EditView::AddFile(m) => seq![1u8] + codec::le64(m.file_num) + codec::le32(m.level)
            + codec::le32(m.smallest.len() as u32) + m.smallest + codec::le32(
            m.largest.len() as u32,
        ) + m.largest + codec::le64(m.file_size),
        EditView::DeleteFile { level, file_num } => seq![2u8] + codec::le32(level) + codec::le64(
            file_num,
        ),
        EditView::SetNextFileNum(n) => seq![3u8] + codec::le64(n),
        EditView::SetLastSeq(s) => seq![4u8] + codec::le64(s),
    }
}

/// No part of the edit that `b` claims to hold lies beyond its end.
pub open spec fn edit_complete(b: Seq<u8>) -> bool {
    if b.len() == 0 {
        true
    } else if b[0] == 1 {
        &&& 17 <= b.len()
        &&& 21 + codec::u32_at(b, 13) <= b.len()
        &&& 29 + codec::u32_at(b, 13) + codec::u32_at(b, 17 + codec::u32_at(b, 13)) <= b.len()
    } else if b[0] == 2 {
        13 <= b.len()
    } else if b[0] == 3 || b[0] == 4 {
        9 <= b.len()
    } else {
        true
    }
}

/// The edit that a complete `b` holds, or why it holds none.
pub open spec fn edit_of(b: Seq<u8>) -> std::result::Result<EditView, Seq<char>> {
    if b.len() == 0 {
        Err("empty edit"@)
    } else if b[0] == 1 {
        let sl = codec::u32_at(b, 13) as int;
        let ll = codec::u32_at(b, 17 + sl) as int;
        Ok(
            EditView::AddFile(
                FileView {
                    file_num: codec::u64_at(b, 1),
                    level: codec::u32_at(b, 9),
                    smallest: b.subrange(17, 17 + sl),
                    largest: b.subrange(21 + sl, 21 + sl + ll),
                    file_size: codec::u64_at(b, 21 + sl + ll),
                },
            ),
        )
    } else if b[0] == 2 {
        Ok(EditView::DeleteFile { level: codec::u32_at(b, 1), file_num: codec::u64_at(b, 5) })
    } else if b[0] == 3 {
        Ok(EditView::SetNextFileNum(codec::u64_at(b, 1)))
    } else if b[0] == 4 {
        Ok(EditView::SetLastSeq(codec::u64_at(b, 1)))
    } else {
        Err("unknown edit "@ + text::numeral(b[0] as nat))
    }
}

/// What recovery learns from the manifest.
pub struct StateView {
    pub files: Seq<FileView>,
    pub next_file_num: u64,
    pub last_seq: u64,
}

#[derive(Debug)]
pub struct RecoveredState {
    pub files: Vec<FileMeta>,
    pub next_file_num: u64,
    pub last_seq: u64,
}

impl View for RecoveredState {
    type V = StateView;

    open spec fn view(&self) -> StateView {
        StateView {
            files: files_view(self.files@),
            next_file_num: self.next_file_num,
            last_seq: self.last_seq,
        }
    }
}

/// What an empty manifest says.
pub open spec fn initial_state() -> StateView {
    StateView { files: Seq::empty(), next_file_num: 0, last_seq: 0 }
}

impl Default for RecoveredState {
    fn default() -> (s: Self)
        ensures
            s@ == initial_state(),
    {
        let s = RecoveredState { files: Vec::new(), next_file_num: 0, last_seq: 0 };
        assert(s@.files =~= initial_state().files);
        s
    }
}

/// `f` is not the file that a deletion names.
pub open spec fn survives(f: FileView, level: u32, file_num: u64) -> bool {
    !(f.level == level && f.file_num == file_num)
}

/// The files left of `files` after a deletion.
pub open spec fn without_file(files: Seq<FileView>, level: u32, file_num: u64) -> Seq<FileView> {
    files.filter(|f: FileView| survives(f, level, file_num))
}

/// The state after one more edit.
pub open spec fn apply(s: StateView, e: EditView) -> StateView {
    match e {
        EditView::AddFile(m) => StateView { files: s.files.push(m), ..s },
        EditView::DeleteFile { level, file_num } => StateView {
            files: without_file(s.files, level, file_num),
            ..s
        },
        EditView::SetNextFileNum(n) => StateView { next_file_num: n, ..s },
        EditView::SetLastSeq(q) => StateView { last_seq: q, ..s },
    }
}

/// The state after a run of edits.
pub open spec fn apply_all(s: StateView, edits: Seq<EditView>) -> StateView
    decreases edits.len(),
{
    if edits.len() == 0 {
        s
    } else {
        apply(apply_all(s, edits.drop_last()), edits.last())
    }
}

/// The edits that a manifest holds, up to the first frame that is cut short, or the message of the
/// first frame that is damaged.
pub open spec fn manifest_edits(buf: Seq<u8>) -> std::result::Result<Seq<EditView>, Seq<char>> {
    frame::unframe(buf, |b: Seq<u8>| edit_of(b), "manifest checksum"@)
}

/// What recovery learns from a manifest, or why it learns nothing.
pub open spec fn recover_state(buf: Seq<u8>) -> std::result::Result<StateView, Seq<char>> {
    match manifest_edits(buf) {
        Ok(edits) => Ok(apply_all(initial_state(), edits)),
        Err(m) => Err(m),
    }
}

/// Every intact frame that recovery comes to holds a complete edit.
pub open spec fn readable(buf: Seq<u8>) -> bool
    decreases buf.len(),
{
    if !frame::has_frame(buf) || !frame::head_intact(buf) {
        true
    } else {
        edit_complete(frame::head_record(buf)) && (edit_of(frame::head_record(buf)) is Ok
            ==> readable(frame::after_head(buf)))
    }
}

/// The edit is the last of those that have to be carried out together: it sets a number, or adds a
/// table to level 0, where tables may overlap.
pub open spec fn ends_run(e: EditView) -> bool {
    match e {
        EditView::AddFile(m) => m.level == 0,
        EditView::DeleteFile { level: _, file_num: _ } => false,
        _ => true,
    }
}

/// The edits up to the last one that ends a run: what stands behind it is the beginning of a run
/// that was never finished.
pub open spec fn whole_runs(edits: Seq<EditView>) -> Seq<EditView>
    decreases edits.len(),
{
    if edits.len() == 0 {
        Seq::empty()
    } else {
        let rest = whole_runs(edits.skip(1));
        if rest.len() > 0 || ends_run(edits[0]) {
            seq![edits[0]] + rest
        } else {
            Seq::empty()
        }
    }
}

/// Length of the whole runs of edits at the head of a manifest.
pub open spec fn intact_len(buf: Seq<u8>) -> nat
    decreases buf.len(),
{
    if !frame::has_frame(buf) || !frame::head_intact(buf) {
        0
    } else {
        let b = frame::head_record(buf);
        if !edit_complete(b) || edit_of(b) is Err {
            0
        } else {
            let n = intact_len(frame::after_head(buf));
            if n > 0 || ends_run(edit_of(b)->Ok_0) {
                (8 + frame::frame_len(buf)) as nat + n
            } else {
                0
            }
        }
    }
}

/// The records of a run of edits.
pub open spec fn edit_records(edits: Seq<EditView>) -> Seq<Seq<u8>> {
    Seq::new(edits.len(), |i: int| edit_bytes(edits[i]))
}

/// The manifest of a run of edits.
pub open spec fn manifest_bytes(edits: Seq<EditView>) -> Seq<u8> {
    frame::frames_bytes(edit_records(edits))
}

/// Bookkeeping of an open manifest.
pub struct Manifest {
    fsync: FsyncMode,
}

impl Manifest {
    /// The durability policy of the manifest.
    pub closed spec fn fsync(&self) -> FsyncMode {
        self.fsync
    }

    /// Bookkeeping of a manifest that has just been created.
    pub fn create(fsync: FsyncMode) -> (m: Self)
        ensures
            m.fsync() == fsync,
    {
        Self { fsync }
    }

    /// Bookkeeping of a manifest that has just been opened for appending.
    pub fn open(fsync: FsyncMode) -> (m: Self)
        ensures
            m.fsync() == fsync,
    {
        Self { fsync }
    }

    /// The bytes to be written at the end of the manifest for a run of edits.
    pub fn log(&self, edits: &[ManifestEdit]) -> (out: Vec<u8>)
        ensures
            out@ == manifest_bytes(edits_view(edits@)),
    {
        let mut out: Vec<u8> = Vec::new();
        let ghost all = edit_records(edits_view(edits@));
        let n: usize = edits.len();
        let mut i: usize = 0;
        assert(all.take(0) =~= Seq::<Seq<u8>>::empty());
        while i < n
            invariant
                n == edits@.len(),
                all == edit_records(edits_view(edits@)),
                i <= n,
                out@ == frame::frames_bytes(all.take(i as int)),
            decreases n - i,
        {
            let bytes: Vec<u8> = encode_edit(&edits[i]);
            let f: Vec<u8> = framed(bytes.as_slice());
            put_bytes(&mut out, f.as_slice());
            proof {
                assert(all.take(i + 1).drop_last() =~= all.take(i as int));
                assert(all.take(i + 1).last() == bytes@);
            }
            i = i + 1;
        }
        assert(all.take(n as int) =~= all);
        out
    }

    /// Whether an append to the manifest has to be followed by an fsync.
    pub fn sync_due(&self) -> (r: bool)
        ensures
            r == (self.fsync() != FsyncMode::Never),
    {
        self.fsync != FsyncMode::Never
    }

    /// Whether every edit that recovery comes to is complete.
    pub fn is_readable(buf: &[u8]) -> (r: bool)
        ensures
            r == readable(buf@),
    {
        let mut i: usize = 0;
        assert(buf@.skip(0) =~= buf@);
        loop
            invariant
                i <= buf@.len(),
                readable(buf@) == readable(buf@.skip(i as int)),
            decreases buf@.len() - i,
        {
            match frame_step(buf, i) {
                FrameStep::End => {
                    return true;
                },
                FrameStep::Damaged => {
                    return true;
                },
                FrameStep::Intact { from, to } => {
                    let rec = vstd::slice::slice_subrange(buf, from, to);
                    if !is_edit_complete(rec) {
                        return false;
                    }
                    match decode_edit(rec) {
                        Err(_) => {
                            return true;
                        },
                        Ok(_) => {
                            i = to;
                        },
                    }
                },
            }
        }
    }

    /// Reads a manifest back. A frame that was cut short by a crash ends it; a damaged one is an
    /// error.
    pub fn recover(buf: &[u8]) -> (r: Result<RecoveredState>)
        requires
            readable(buf@),
        ensures
            match r {
                Ok(s) => recover_state(buf@) == Ok::<StateView, Seq<char>>(s@),
                Err(e) => recover_state(buf@) is Err && error::is_corruption(
                    e,
                    recover_state(buf@)->Err_0,
                ),
            },
    {
        let mut state = RecoveredState::default();
        let mut i: usize = 0;
        let ghost mut seen: Seq<EditView> = Seq::empty();
        proof {
            assert(buf@.skip(0) =~= buf@);
            if let Ok(rest) = manifest_edits(buf@) {
                assert(seen + rest =~= rest);
            }
        }
        loop
            invariant
                i <= buf@.len(),
                readable(buf@.skip(i as int)),
                state@ == apply_all(initial_state(), seen),
                match manifest_edits(buf@.skip(i as int)) {
                    Ok(rest) => manifest_edits(buf@) == Ok::<Seq<EditView>, Seq<char>>(seen + rest),
                    Err(m) => manifest_edits(buf@) == Err::<Seq<EditView>, Seq<char>>(m),
                },
            decreases buf@.len() - i,
        {
            match frame_step(buf, i) {
                FrameStep::End => {
                    assert(seen + Seq::<EditView>::empty() =~= seen);
                    return Ok(state);
                },
                FrameStep::Damaged => {
                    return Err(corruption("manifest checksum"));
                },
                FrameStep::Intact { from, to } => {
                    match decode_edit(vstd::slice::slice_subrange(buf, from, to)) {
                        Err(e) => {
                            return Err(e);
                        },
                        Ok(edit) => {
                            let ghost x = edit@;
                            apply_edit(&mut state, edit);
                            proof {
                                assert(seen.push(x).drop_last() =~= seen);
                                if let Ok(xs) = manifest_edits(buf@.skip(to as int)) {
                                    assert(seen + (seq![x] + xs) =~= seen.push(x) + xs);
                                }
                                seen = seen.push(x);
                            }
                            i = to;
                        },
                    }
                },
            }
        }
    }

    /// The length to which a manifest that a crash may have cut short is to be cut before anything
    /// is written to it: that of its whole runs of edits.
    pub fn intact_len(buf: &[u8]) -> (n: usize)
        ensures
            n == intact_len(buf@),
            n <= buf@.len(),
    {
        let mut i: usize = 0;
        let mut whole: usize = 0;
        assert(buf@.skip(0) =~= buf@);
        loop
            invariant
                whole <= i <= buf@.len(),
                intact_len(buf@) == (if intact_len(buf@.skip(i as int)) > 0 {
                    i + intact_len(buf@.skip(i as int))
                } else {
                    whole as int
                }),
            decreases buf@.len() - i,
        {
            let ghost rest = buf@.skip(i as int);
            match frame_step(buf, i) {
                FrameStep::Intact { from, to } => {
                    assert(buf@.skip(to as int).len() == frame::after_head(rest).len());
                    let rec = vstd::slice::slice_subrange(buf, from, to);
                    if !is_edit_complete(rec) {
                        return whole;
                    }
                    match decode_edit(rec) {
                        Err(_) => {
                            return whole;
                        },
                        Ok(edit) => {
                            let ends: bool = match edit {
                                ManifestEdit::AddFile(m) => m.level == 0,
                                ManifestEdit::DeleteFile { level: _, file_num: _ } => false,
                                _ => true,
                            };
                            if ends {
                                whole = to;
                            }
                            i = to;
                        },
                    }
                },
                _ => {
                    return whole;
                },
            }
        }
    }

    /// Reads back a manifest that a crash may have cut short: what its whole runs of edits say, and
    /// the length to which it is to be cut. `None` where an intact frame holds an edit whose parts
    /// lie beyond its end.
    pub fn reopen(buf: &[u8]) -> (r: Option<Result<(RecoveredState, usize)>>)
        ensures
            r is None <==> !readable(buf@),
            match r {
                Some(Ok((s, n))) => {
                    &&& manifest_edits(buf@) is Ok
                    &&& n == intact_len(buf@)
                    &&& n <= buf@.len()
                    &&& recover_state(buf@.take(n as int)) == Ok::<StateView, Seq<char>>(s@)
                    &&& s@ == apply_all(initial_state(), whole_runs(manifest_edits(buf@)->Ok_0))
                },
                Some(Err(e)) => recover_state(buf@) is Err && error::is_corruption(
                    e,
                    recover_state(buf@)->Err_0,
                ),
                None => !readable(buf@),
            },
    {
        if !Manifest::is_readable(buf) {
            return None;
        }
        match Manifest::recover(buf) {
            Err(e) => Some(Err(e)),
            Ok(_) => {
                let n: usize = Manifest::intact_len(buf);
                let whole = vstd::slice::slice_subrange(buf, 0, n);
                proof {
                    lemma_cut_to_runs(buf@);
                    assert(whole@ =~= buf@.take(n as int));
                }
                match Manifest::recover(whole) {
                    Ok(s) => Some(Ok((s, n))),
                    Err(e) => Some(Err(e)),
                }
            },
        }
    }
}

/// Carries out one edit.
pub fn apply_edit(state: &mut RecoveredState, edit: ManifestEdit)
    ensures
        final(state)@ == apply(old(state)@, edit@),
{
    let ghost before = state@;
    match edit {
        ManifestEdit::AddFile(m) => {
            state.files.push(m);
            assert(state@.files =~= before.files.push(m@));
        },
        ManifestEdit::DeleteFile { level, file_num } => {
            remove_file(&mut state.files, level, file_num);
        },
        ManifestEdit::SetNextFileNum(n) => {
            state.next_file_num = n;
        },
        ManifestEdit::SetLastSeq(s) => {
            state.last_seq = s;
        },
    }
}

fn remove_file(files: &mut Vec<FileMeta>, level: u32, file_num: u64)
    ensures
        files_view(final(files)@) == without_file(files_view(old(files)@), level, file_num),
{
    let ghost all = files_view(files@);
    let ghost p = |f: FileView| survives(f, level, file_num);
    let mut i: usize = 0;
    let ghost mut done: int = 0;
    proof {
        reveal(Seq::filter);
        assert(all.take(0) =~= Seq::<FileView>::empty());
        assert(files_view(files@).take(0) =~= all.take(0).filter(p));
        assert(files_view(files@).skip(0) =~= all.skip(0));
    }
    while i < files.len()
        invariant
            i <= files@.len(),
            0 <= done <= all.len(),
            files@.len() - i == all.len() - done,
            p == (|f: FileView| survives(f, level, file_num)),
            files_view(files@).take(i as int) == all.take(done).filter(p),
            files_view(files@).skip(i as int) == all.skip(done),
        decreases files@.len() - i,
    {
        let ghost cur = files_view(files@);
        proof {
            assert(cur.skip(i as int)[0] == all.skip(done)[0]);
            assert(cur[i as int] == all[done]);
            assert(all.take(done + 1).drop_last() =~= all.take(done));
            assert(all.take(done + 1).last() == all[done]);
            reveal(Seq::filter);
        }
        if files[i].level == level && files[i].file_num == file_num {
            files.remove(i);
            proof {
                assert(files_view(files@) =~= cur.remove(i as int));
                assert(files_view(files@).take(i as int) =~= cur.take(i as int));
                assert(files_view(files@).skip(i as int) =~= cur.skip(i as int).skip(1));
                assert(all.skip(done).skip(1) =~= all.skip(done + 1));
                done = done + 1;
            }
        } else {
            proof {
                assert(cur.take(i + 1) =~= cur.take(i as int).push(cur[i as int]));
                assert(cur.skip(i + 1) =~= cur.skip(i as int).skip(1));
                assert(all.skip(done).skip(1) =~= all.skip(done + 1));
                done = done + 1;
            }
            i = i + 1;
        }
    }
    proof {
        assert(files_view(files@).take(i as int) =~= files_view(files@));
        assert(all.take(done) =~= all);
    }
}

/// Lays out an edit.
pub fn encode_edit(e: &ManifestEdit) -> (b: Vec<u8>)
    ensures
        b@ == edit_bytes(e@),
{
    let mut b: Vec<u8> = Vec::new();
    match e {
        ManifestEdit::AddFile(m) => {
            b.push(1);
            put_u64(&mut b, m.file_num);
            put_u32(&mut b, m.level);
            put_u32(&mut b, m.smallest.len() as u32);
            put_bytes(&mut b, m.smallest.as_slice());
            put_u32(&mut b, m.largest.len() as u32);
            put_bytes(&mut b, m.largest.as_slice());
            put_u64(&mut b, m.file_size);
            assert(b@ =~= edit_bytes(e@));
        },
        ManifestEdit::DeleteFile { level, file_num } => {
            b.push(2);
            put_u32(&mut b, *level);
            put_u64(&mut b, *file_num);
            assert(b@ =~= edit_bytes(e@));
        },
        ManifestEdit::SetNextFileNum(n) => {
            b.push(3);
            put_u64(&mut b, *n);
            assert(b@ =~= edit_bytes(e@));
        },
        ManifestEdit::SetLastSeq(s) => {
            b.push(4);
            put_u64(&mut b, *s);
            assert(b@ =~= edit_bytes(e@));
        },
    }
    b
}

/// Whether no part of the edit that `b` claims to hold lies beyond its end.
pub fn is_edit_complete(b: &[u8]) -> (r: bool)
    ensures
        r == edit_complete(b@),
{
    let len: usize = b.len();
    if len == 0 {
        return true;
    }
    match b[0] {
        1 => {
            if len < 21 {
                return false;
            }
            let sl: usize = get_u32(b, 13) as usize;
            if len - 21 < sl {
                return false;
            }
            let ll: usize = get_u32(b, 17 + sl) as usize;
            len - 21 - sl >= 8 && len - 21 - sl - 8 >= ll
        },
        2 => len >= 13,
        3 => len >= 9,
        4 => len >= 9,
        _ => true,
    }
}

/// Reads an edit.
pub fn decode_edit(b: &[u8]) -> (r: Result<ManifestEdit>)
    requires
        edit_complete(b@),
    ensures
        match r {
            Ok(e) => edit_of(b@) == Ok::<EditView, Seq<char>>(e@),
            Err(e) => edit_of(b@) is Err && error::is_corruption(e, edit_of(b@)->Err_0),
        },
{
    if b.len() == 0 {
        return Err(corruption("empty edit"));
    }
    match b[0] {
        1 => {
            let file_num: u64 = get_u64(b, 1);
            let level: u32 = get_u32(b, 9);
            let sl: usize = get_u32(b, 13) as usize;
            let smallest: Vec<u8> = copy_range(b, 17, 17 + sl);
            let ll: usize = get_u32(b, 17 + sl) as usize;
            let largest: Vec<u8> = copy_range(b, 21 + sl, 21 + sl + ll);
            let file_size: u64 = get_u64(b, 21 + sl + ll);
            Ok(ManifestEdit::AddFile(FileMeta { file_num, level, smallest, largest, file_size }))
        },
        2 => {
            let level: u32 = get_u32(b, 1);
            let file_num: u64 = get_u64(b, 5);
            Ok(ManifestEdit::DeleteFile { level, file_num })
        },
        3 => Ok(ManifestEdit::SetNextFileNum(get_u64(b, 1))),
        4 => Ok(ManifestEdit::SetLastSeq(get_u64(b, 1))),
        t => {
            let mut msg = "unknown edit ".to_owned();
            push_decimal(&mut msg, t as u64);
            Err(Error::Corruption(msg))
        },
    }
}

/// An edit whose parts fit their length fields.
pub open spec fn codable(e: EditView) -> bool {
    match e {
        EditView::AddFile(m) => m.smallest.len() <= u32::MAX && m.largest.len() <= u32::MAX,
        _ => true,
    }
}

/// An edit whose parts, and whose record, fit the length fields of the manifest.
pub open spec fn editable(e: EditView) -> bool {
    match e {
        EditView::AddFile(m) => m.smallest.len() + m.largest.len() + 29 <= u32::MAX,
        _ => true,
    }
}

/// Decoding an encoded edit gives the edit back.
pub proof fn law_edit_round_trip(e: EditView)
    requires
        codable(e),
    ensures
        edit_complete(edit_bytes(e)),
        edit_of(edit_bytes(e)) == Ok::<EditView, Seq<char>>(e),
        editable(e) ==> edit_bytes(e).len() <= u32::MAX,
{
    let b = edit_bytes(e);
    match e {
        EditView::AddFile(m) => {
            let n = m.smallest.len() as int;
            let k = m.largest.len() as int;
            assert(b.len() == 29 + n + k);
            assert(b.subrange(1, 9) =~= codec::le64(m.file_num));
            codec::lemma_u64_at(b, 1, m.file_num);
            assert(b.subrange(9, 13) =~= codec::le32(m.level));
            codec::lemma_u32_at(b, 9, m.level);
            assert(b.subrange(13, 17) =~= codec::le32(n as u32));
            codec::lemma_u32_at(b, 13, n as u32);
            assert(b.subrange(17, 17 + n) =~= m.smallest);
            assert(b.subrange(17 + n, 21 + n) =~= codec::le32(k as u32));
            codec::lemma_u32_at(b, 17 + n, k as u32);
            assert(b.subrange(21 + n, 21 + n + k) =~= m.largest);
            assert(b.subrange(21 + n + k, 29 + n + k) =~= codec::le64(m.file_size));
            codec::lemma_u64_at(b, 21 + n + k, m.file_size);
        },
        EditView::DeleteFile { level, file_num } => {
            assert(b.subrange(1, 5) =~= codec::le32(level));
            codec::lemma_u32_at(b, 1, level);
            assert(b.subrange(5, 13) =~= codec::le64(file_num));
            codec::lemma_u64_at(b, 5, file_num);
        },
        EditView::SetNextFileNum(n) => {
            assert(b.subrange(1, 9) =~= codec::le64(n));
            codec::lemma_u64_at(b, 1, n);
        },
        EditView::SetLastSeq(s) => {
            assert(b.subrange(1, 9) =~= codec::le64(s));
            codec::lemma_u64_at(b, 1, s);
        },
    }
}

proof fn lemma_readable_frames(edits: Seq<EditView>, tail: Seq<u8>)
    requires
        forall|i: int| 0 <= i < edits.len() ==> editable(#[trigger] edits[i]),
        !frame::has_frame(tail),
    ensures
        readable(manifest_bytes(edits) + tail),
    decreases edits.len(),
{
    let recs = edit_records(edits);
    if edits.len() == 0 {
        assert(manifest_bytes(edits) + tail =~= tail);
    } else {
        let rest = edits.skip(1);
        assert forall|i: int| 0 <= i < rest.len() implies editable(#[trigger] rest[i]) by {
            assert(rest[i] == edits[i + 1]);
        }
        lemma_readable_frames(rest, tail);
        law_edit_round_trip(edits[0]);
        frame::lemma_frames_front(recs);
        assert(recs.skip(1) =~= edit_records(rest));
        let more = manifest_bytes(rest) + tail;
        assert(manifest_bytes(edits) + tail =~= frame::frame_bytes(edit_bytes(edits[0])) + more);
        frame::lemma_unframe_front(
            edit_bytes(edits[0]),
            more,
            |b: Seq<u8>| edit_of(b),
            "manifest checksum"@,
        );
    }
}

/// Recovery carries out the edits that were logged, in order. What a crash left of one more edit
/// is dropped without a trace.
pub proof fn law_manifest_recovers(edits: Seq<EditView>, torn: EditView, cut: int)
    requires
        forall|i: int| 0 <= i < edits.len() ==> editable(#[trigger] edits[i]),
        editable(torn),
        0 <= cut < frame::frame_bytes(edit_bytes(torn)).len(),
    ensures
        readable(manifest_bytes(edits) + frame::frame_bytes(edit_bytes(torn)).take(cut)),
        recover_state(manifest_bytes(edits) + frame::frame_bytes(edit_bytes(torn)).take(cut))
            == Ok::<StateView, Seq<char>>(apply_all(initial_state(), edits)),
        readable(manifest_bytes(edits)),
        recover_state(manifest_bytes(edits)) == Ok::<StateView, Seq<char>>(
            apply_all(initial_state(), edits),
        ),
{
    let recs = edit_records(edits);
    let decode = |b: Seq<u8>| edit_of(b);
    let tail = frame::frame_bytes(edit_bytes(torn)).take(cut);
    let none = Seq::<u8>::empty();
    assert forall|i: int| 0 <= i < recs.len() implies (#[trigger] recs[i]).len() <= u32::MAX
        && decode(recs[i]) == Ok::<EditView, Seq<char>>(edits[i]) by {
        law_edit_round_trip(edits[i]);
    }
    law_edit_round_trip(torn);
    frame::lemma_torn_frame(edit_bytes(torn), cut);
    frame::lemma_unframe_all(recs, edits, tail, decode, "manifest checksum"@);
    frame::lemma_unframe_all(recs, edits, none, decode, "manifest checksum"@);
    lemma_readable_frames(edits, tail);
    lemma_readable_frames(edits, none);
    assert(manifest_bytes(edits) + none =~= manifest_bytes(edits));
}

/// Logging a run of edits behind an earlier run gives the manifest of both.
pub proof fn law_log_extends_manifest(first: Seq<EditView>, more: Seq<EditView>)
    ensures
        manifest_bytes(first + more) == manifest_bytes(first) + manifest_bytes(more),
    decreases more.len(),
{
    if more.len() == 0 {
        assert(first + more =~= first);
        assert(manifest_bytes(more) =~= Seq::<u8>::empty());
        assert(manifest_bytes(first) + manifest_bytes(more) =~= manifest_bytes(first));
    } else {
        let m = more.drop_last();
        law_log_extends_manifest(first, m);
        let recs = edit_records(first + more);
        assert(recs.drop_last() =~= edit_records(first + m));
        assert(edit_records(more).drop_last() =~= edit_records(m));
        assert(recs.last() == edit_bytes(more.last()));
        assert(manifest_bytes(first + more) =~= manifest_bytes(first) + manifest_bytes(more));
    }
}

/// A manifest that can be read, cut behind its whole runs of edits, is read as these, and so is what
/// is written behind the cut.
pub proof fn lemma_append_behind_runs(buf: Seq<u8>, more: Seq<u8>)
    requires
        readable(buf),
        manifest_edits(buf) is Ok,
    ensures
        ({
            let edits = whole_runs(manifest_edits(buf)->Ok_0);
            let all = buf.take(intact_len(buf) as int) + more;
            &&& intact_len(buf) <= buf.len()
            &&& intact_len(buf) > 0 <==> edits.len() > 0
            &&& readable(all) == readable(more)
            &&& manifest_edits(all) == (match manifest_edits(more) {
                Ok(ys) => Ok(edits + ys),
                Err(m) => Err(m),
            })
        }),
    decreases buf.len(),
{
    let es = manifest_edits(buf)->Ok_0;
    let edits = whole_runs(es);
    let n = intact_len(buf) as int;
    let all = buf.take(n) + more;
    if frame::has_frame(buf) {
        let rest = frame::after_head(buf);
        let x = edit_of(frame::head_record(buf))->Ok_0;
        let r = manifest_edits(rest)->Ok_0;
        lemma_append_behind_runs(rest, more);
        assert(es == seq![x] + r);
        assert(es.skip(1) =~= r);
        if n > 0 {
            let k = intact_len(rest) as int;
            assert(buf.take(8 + frame::frame_len(buf)) =~= all.take(8 + frame::frame_len(buf)));
            frame::lemma_same_head(buf, all);
            assert(frame::after_head(all) =~= rest.take(k) + more);
            if let Ok(ys) = manifest_edits(more) {
                assert(seq![x] + (whole_runs(r) + ys) =~= edits + ys);
            }
        }
    }
    if n == 0 {
        assert(all =~= more);
        if let Ok(ys) = manifest_edits(more) {
            assert(edits + ys =~= ys);
        }
    }
}

/// A manifest that can be read, cut behind its whole runs of edits, says what these say.
pub proof fn lemma_cut_to_runs(buf: Seq<u8>)
    requires
        readable(buf),
        manifest_edits(buf) is Ok,
    ensures
        intact_len(buf) <= buf.len(),
        readable(buf.take(intact_len(buf) as int)),
        recover_state(buf.take(intact_len(buf) as int)) == Ok::<StateView, Seq<char>>(
            apply_all(initial_state(), whole_runs(manifest_edits(buf)->Ok_0)),
        ),
{
    let none = Seq::<u8>::empty();
    let whole = buf.take(intact_len(buf) as int);
    let edits = whole_runs(manifest_edits(buf)->Ok_0);
    lemma_append_behind_runs(buf, none);
    assert(whole + none =~= whole);
    assert(edits + Seq::<EditView>::empty() =~= edits);
}

/// What a manifest of edits is read as, with whatever holds no complete frame behind them.
proof fn lemma_manifest_edits(edits: Seq<EditView>, tail: Seq<u8>)
    requires
        forall|i: int| 0 <= i < edits.len() ==> editable(#[trigger] edits[i]),
        !frame::has_frame(tail),
    ensures
        readable(manifest_bytes(edits) + tail),
        manifest_edits(manifest_bytes(edits) + tail) == Ok::<Seq<EditView>, Seq<char>>(edits),
{
    let recs = edit_records(edits);
    let decode = |b: Seq<u8>| edit_of(b);
    assert forall|i: int| 0 <= i < recs.len() implies (#[trigger] recs[i]).len() <= u32::MAX
        && decode(recs[i]) == Ok::<EditView, Seq<char>>(edits[i]) by {
        law_edit_round_trip(edits[i]);
    }
    frame::lemma_unframe_all(recs, edits, tail, decode, "manifest checksum"@);
    lemma_readable_frames(edits, tail);
}

/// Carrying out two runs of edits in turn.
pub proof fn lemma_apply_concat(s: StateView, a: Seq<EditView>, b: Seq<EditView>)
    ensures
        apply_all(s, a + b) == apply_all(apply_all(s, a), b),
    decreases b.len(),
{
    if b.len() == 0 {
        assert(a + b =~= a);
    } else {
        lemma_apply_concat(s, a, b.drop_last());
        assert((a + b).drop_last() =~= a + b.drop_last());
        assert((a + b).last() == b.last());
    }
}

/// Behind whole runs, the whole runs of what follows are whole.
pub proof fn lemma_whole_runs_concat(a: Seq<EditView>, b: Seq<EditView>)
    requires
        whole_runs(a) == a,
    ensures
        whole_runs(a + b) == a + whole_runs(b),
    decreases a.len(),
{
    if a.len() == 0 {
        assert(a + b =~= b);
        assert(a + whole_runs(b) =~= whole_runs(b));
    } else {
        let rest = a.skip(1);
        assert((seq![a[0]] + whole_runs(rest)).skip(1) =~= whole_runs(rest));
        assert(a.skip(1) =~= whole_runs(rest));
        lemma_whole_runs_concat(rest, b);
        assert((a + b).skip(1) =~= rest + b);
        assert((a + b)[0] == a[0]);
        assert(seq![a[0]] + (rest + whole_runs(b)) =~= a + whole_runs(b));
    }
}

/// Edits none of which ends a run are no whole run; with one that does behind them they are.
pub proof fn lemma_one_run(edits: Seq<EditView>, end: EditView)
    requires
        forall|i: int| 0 <= i < edits.len() ==> !ends_run(#[trigger] edits[i]),
        ends_run(end),
    ensures
        whole_runs(edits) == Seq::<EditView>::empty(),
        whole_runs(edits.push(end)) == edits.push(end),
    decreases edits.len(),
{
    let all = edits.push(end);
    if edits.len() == 0 {
        assert(all.skip(1) =~= Seq::<EditView>::empty());
        assert(whole_runs(all.skip(1)) =~= Seq::<EditView>::empty());
        assert(seq![end] + Seq::<EditView>::empty() =~= all);
    } else {
        let rest = edits.skip(1);
        assert forall|i: int| 0 <= i < rest.len() implies !ends_run(#[trigger] rest[i]) by {
            assert(rest[i] == edits[i + 1]);
        }
        lemma_one_run(rest, end);
        assert(all.skip(1) =~= rest.push(end));
        assert(!ends_run(edits[0]));
        assert(all[0] == edits[0]);
        assert(seq![all[0]] + rest.push(end) =~= all);
        assert(seq![edits[0]] + rest =~= edits);
    }
}

/// A manifest that could be read back, cut behind its whole runs, takes further edits: recovery
/// carries these out behind the others.
pub proof fn law_edits_follow_recovery(buf: Seq<u8>, edits: Seq<EditView>)
    requires
        readable(buf),
        manifest_edits(buf) is Ok,
        forall|i: int| 0 <= i < edits.len() ==> editable(#[trigger] edits[i]),
    ensures
        ({
            let whole = buf.take(intact_len(buf) as int);
            &&& recover_state(whole) is Ok
            &&& readable(whole + manifest_bytes(edits))
            &&& recover_state(whole + manifest_bytes(edits)) == Ok::<StateView, Seq<char>>(
                apply_all(recover_state(whole)->Ok_0, edits),
            )
        }),
{
    let whole = buf.take(intact_len(buf) as int);
    let none = Seq::<u8>::empty();
    let es = whole_runs(manifest_edits(buf)->Ok_0);
    let more = manifest_bytes(edits);
    lemma_cut_to_runs(buf);
    lemma_append_behind_runs(buf, more);
    lemma_manifest_edits(edits, none);
    assert(more + none =~= more);
    lemma_apply_concat(initial_state(), es, edits);
}

/// Whatever a crash leaves of the bytes of a run of edits, what recovery keeps of them is made of
/// whole edits, and of whole runs of these: the manifest, cut to its intact length, says what was
/// logged before and the whole runs among the first `j` of the edits.
pub proof fn law_torn_edits(before: Seq<EditView>, edits: Seq<EditView>, cut: int) -> (j: int)
    requires
        forall|i: int| 0 <= i < before.len() ==> editable(#[trigger] before[i]),
        forall|i: int| 0 <= i < edits.len() ==> editable(#[trigger] edits[i]),
        whole_runs(before) == before,
        0 <= cut <= manifest_bytes(edits).len(),
    ensures
        0 <= j <= edits.len(),
        cut == manifest_bytes(edits).len() ==> j == edits.len(),
        ({
            let buf = manifest_bytes(before) + manifest_bytes(edits).take(cut);
            &&& readable(buf)
            &&& manifest_edits(buf) is Ok
            &&& recover_state(buf.take(intact_len(buf) as int)) == Ok::<StateView, Seq<char>>(
                apply_all(apply_all(initial_state(), before), whole_runs(edits.take(j))),
            )
        }),
{
    let buf = manifest_bytes(before) + manifest_bytes(edits).take(cut);
    let j = lemma_torn_bytes(before, edits, cut);
    lemma_cut_to_runs(buf);
    lemma_whole_runs_concat(before, edits.take(j));
    lemma_apply_concat(initial_state(), before, whole_runs(edits.take(j)));
    j
}

/// Whatever a crash leaves of the bytes of a run of edits is read as the first ones of these.
proof fn lemma_torn_bytes(before: Seq<EditView>, edits: Seq<EditView>, cut: int) -> (j: int)
    requires
        forall|i: int| 0 <= i < before.len() ==> editable(#[trigger] before[i]),
        forall|i: int| 0 <= i < edits.len() ==> editable(#[trigger] edits[i]),
        0 <= cut <= manifest_bytes(edits).len(),
    ensures
        0 <= j <= edits.len(),
        cut == manifest_bytes(edits).len() ==> j == edits.len(),
        readable(manifest_bytes(before) + manifest_bytes(edits).take(cut)),
        manifest_edits(manifest_bytes(before) + manifest_bytes(edits).take(cut)) == Ok::<
            Seq<EditView>,
            Seq<char>,
        >(before + edits.take(j)),
{
    let recs = edit_records(edits);
    assert forall|i: int| 0 <= i < recs.len() implies (#[trigger] recs[i]).len() <= u32::MAX by {
        law_edit_round_trip(edits[i]);
    }
    let (j, tail) = frame::lemma_torn_frames(recs, cut);
    let left = edits.take(j);
    let all = before + left;
    let buf = manifest_bytes(before) + manifest_bytes(edits).take(cut);
    assert(recs.take(j) =~= edit_records(left));
    law_log_extends_manifest(before, left);
    assert(buf =~= manifest_bytes(all) + tail);
    assert forall|i: int| 0 <= i < all.len() implies editable(#[trigger] all[i]) by {
        if i < before.len() {
            assert(all[i] == before[i]);
        } else {
            assert(all[i] == edits[i - before.len()]);
        }
    }
    lemma_manifest_edits(all, tail);
    j
}

} // verus!

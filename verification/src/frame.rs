//! Checksummed frames, which make up the write-ahead log and the manifest:
//! [len:u32][crc:u32][record].

use crate::checksum;
use crate::codec;
use crate::codec::{get_u32, put_bytes, put_u32};
use vstd::prelude::*;

verus! {

/// A record with its length and checksum in front.
pub open spec fn frame_bytes(rec: Seq<u8>) -> Seq<u8> {
    codec::le32(rec.len() as u32) + codec::le32(checksum::crc32(rec)) + rec
}

/// A run of records, each in its frame.
pub open spec fn frames_bytes(recs: Seq<Seq<u8>>) -> Seq<u8>
    decreases recs.len(),
{
    if recs.len() == 0 {
        Seq::empty()
    } else {
        frames_bytes(recs.drop_last()) + frame_bytes(recs.last())
    }
}

/// Length of the record that the frame at the head of `buf` claims to hold.
pub open spec fn frame_len(buf: Seq<u8>) -> int {
    codec::u32_at(buf, 0) as int
}

/// The frame at the head of `buf` is there in full.
pub open spec fn has_frame(buf: Seq<u8>) -> bool {
    buf.len() >= 8 && 8 + frame_len(buf) <= buf.len()
}

/// The record of the frame at the head of `buf`.
pub open spec fn head_record(buf: Seq<u8>) -> Seq<u8> {
    buf.subrange(8, 8 + frame_len(buf))
}

/// The checksum of the frame at the head of `buf` is that of its record.
pub open spec fn head_intact(buf: Seq<u8>) -> bool {
    checksum::crc32(head_record(buf)) == codec::u32_at(buf, 4)
}

/// What follows the frame at the head of `buf`.
pub open spec fn after_head(buf: Seq<u8>) -> Seq<u8> {
    buf.skip(8 + frame_len(buf))
}

/// What a log holds: its records, decoded, up to the first frame that is cut short; or the message
/// of the first frame that is damaged or cannot be decoded.
pub open spec fn unframe<T>(
    buf: Seq<u8>,
    decode: spec_fn(Seq<u8>) -> Result<T, Seq<char>>,
    mismatch: Seq<char>,
) -> Result<Seq<T>, Seq<char>>
    decreases buf.len(),
{
    if !has_frame(buf) {
        Ok(Seq::empty())
    } else if !head_intact(buf) {
        Err(mismatch)
    } else {
        match decode(head_record(buf)) {
            Err(m) => Err(m),
            Ok(x) => match unframe(after_head(buf), decode, mismatch) {
                Err(m) => Err(m),
                Ok(xs) => Ok(seq![x] + xs),
            },
        }
    }
}

/// Length of the whole, undamaged frames at the head of a log.
pub open spec fn intact_len(buf: Seq<u8>) -> nat
    decreases buf.len(),
{
    if !has_frame(buf) || !head_intact(buf) {
        0
    } else {
        (8 + frame_len(buf)) as nat + intact_len(after_head(buf))
    }
}

/// What stands at a position of a log.
pub enum FrameStep {
    /// No complete frame: the log ends here.
    End,
    /// A frame whose checksum is wrong.
    Damaged,
    /// An intact frame; its record stands in `from..to`.
    Intact { from: usize, to: usize },
}

/// Puts a record into its frame.
pub fn framed(rec: &[u8]) -> (out: Vec<u8>)
    ensures
        out@ == frame_bytes(rec@),
{
    let mut out: Vec<u8> = Vec::new();
    put_u32(&mut out, rec.len() as u32);
    put_u32(&mut out, crc32fast::hash(rec));
    put_bytes(&mut out, rec);
    assert(out@ =~= frame_bytes(rec@));
    out
}

/// Looks at the frame that starts at `at`.
pub fn frame_step(buf: &[u8], at: usize) -> (r: FrameStep)
    requires
        at <= buf@.len(),
    ensures
        match r {
            FrameStep::End => !has_frame(buf@.skip(at as int)),
            FrameStep::Damaged => has_frame(buf@.skip(at as int)) && !head_intact(
                buf@.skip(at as int),
            ),
            FrameStep::Intact { from, to } => {
                let rest = buf@.skip(at as int);
                &&& has_frame(rest)
                &&& head_intact(rest)
                &&& at < from <= to <= buf@.len()
                &&& buf@.subrange(from as int, to as int) == head_record(rest)
                &&& buf@.skip(to as int) == after_head(rest)
            },
        },
{
    let ghost rest = buf@.skip(at as int);
    let avail: usize = buf.len() - at;
    if avail < 8 {
        return FrameStep::End;
    }
    let len: usize = get_u32(buf, at) as usize;
    let crc: u32 = get_u32(buf, at + 4);
    assert(len == frame_len(rest));
    assert(crc == codec::u32_at(rest, 4));
    if avail - 8 < len {
        return FrameStep::End;
    }
    let from: usize = at + 8;
    let to: usize = from + len;
    let rec = vstd::slice::slice_subrange(buf, from, to);
    assert(rec@ =~= head_record(rest));
    assert(buf@.skip(to as int) =~= after_head(rest));
    if crc32fast::hash(rec) != crc {
        return FrameStep::Damaged;
    }
    FrameStep::Intact { from, to }
}

/// Measures the whole, undamaged frames at the head of a log.
pub fn measure_intact(buf: &[u8]) -> (n: usize)
    ensures
        n == intact_len(buf@),
        n <= buf@.len(),
{
    let mut i: usize = 0;
    assert(buf@.skip(0) =~= buf@);
    loop
        invariant
            i <= buf@.len(),
            intact_len(buf@) == i + intact_len(buf@.skip(i as int)),
        decreases buf@.len() - i,
    {
        match frame_step(buf, i) {
            FrameStep::Intact { from: _, to } => {
                proof {
                    let rest = buf@.skip(i as int);
                    assert(buf@.skip(to as int).len() == after_head(rest).len());
                }
                i = to;
            },
            _ => {
                return i;
            },
        }
    }
}

/// A log that can be read, cut behind its whole frames, is read as before, and so is what is
/// written behind the cut.
pub proof fn lemma_append_behind_intact<T>(
    buf: Seq<u8>,
    more: Seq<u8>,
    decode: spec_fn(Seq<u8>) -> Result<T, Seq<char>>,
    mismatch: Seq<char>,
)
    requires
        unframe(buf, decode, mismatch) is Ok,
    ensures
        intact_len(buf) <= buf.len(),
        unframe(buf.take(intact_len(buf) as int) + more, decode, mismatch) == (match unframe(
            more,
            decode,
            mismatch,
        ) {
            Ok(ys) => Ok(unframe(buf, decode, mismatch)->Ok_0 + ys),
            Err(m) => Err(m),
        }),
    decreases buf.len(),
{
    let xs = unframe(buf, decode, mismatch)->Ok_0;
    let n = intact_len(buf) as int;
    let all = buf.take(n) + more;
    if !has_frame(buf) {
        assert(all =~= more);
        if let Ok(ys) = unframe(more, decode, mismatch) {
            assert(xs + ys =~= ys);
        }
    } else {
        let rest = after_head(buf);
        lemma_append_behind_intact(rest, more, decode, mismatch);
        assert(buf.take(8 + frame_len(buf)) =~= all.take(8 + frame_len(buf)));
        lemma_same_head(buf, all);
        let k = intact_len(rest) as int;
        assert(after_head(all) =~= rest.take(k) + more);
        let x = decode(head_record(buf))->Ok_0;
        let r = unframe(rest, decode, mismatch)->Ok_0;
        if let Ok(ys) = unframe(more, decode, mismatch) {
            assert((seq![x] + r) + ys =~= seq![x] + (r + ys));
        }
    }
}

/// Two logs that agree on the frame at the head of one of them have the same frame there.
pub proof fn lemma_same_head(a: Seq<u8>, b: Seq<u8>)
    requires
        has_frame(a),
        b.len() >= 8 + frame_len(a),
        a.take(8 + frame_len(a)) == b.take(8 + frame_len(a)),
    ensures
        has_frame(b),
        frame_len(b) == frame_len(a),
        head_record(b) == head_record(a),
        head_intact(b) == head_intact(a),
{
    let n = 8 + frame_len(a);
    assert forall|i: int| 0 <= i < n implies a[i] == b[i] by {
        assert(a.take(n)[i] == a[i] && b.take(n)[i] == b[i]);
    }
    assert(a.subrange(0, 4) =~= b.subrange(0, 4));
    assert(a.subrange(4, 8) =~= b.subrange(4, 8));
    assert(codec::u32_at(a, 0) == codec::u32_at(b, 0));
    assert(codec::u32_at(a, 4) == codec::u32_at(b, 4));
    assert(head_record(b) =~= head_record(a));
}

/// What a crash leaves of a run of frames: the first ones, and of the next one less than all.
pub proof fn lemma_torn_frames(recs: Seq<Seq<u8>>, cut: int) -> (r: (int, Seq<u8>))
    requires
        forall|i: int| 0 <= i < recs.len() ==> (#[trigger] recs[i]).len() <= u32::MAX,
        0 <= cut <= frames_bytes(recs).len(),
    ensures
        0 <= r.0 <= recs.len(),
        !has_frame(r.1),
        frames_bytes(recs).take(cut) == frames_bytes(recs.take(r.0)) + r.1,
        cut == frames_bytes(recs).len() ==> r.0 == recs.len(),
    decreases recs.len(),
{
    let all = frames_bytes(recs);
    let none = Seq::<u8>::empty();
    if cut == all.len() {
        assert(recs.take(recs.len() as int) =~= recs);
        assert(all.take(cut) =~= frames_bytes(recs.take(recs.len() as int)) + none);
        (recs.len() as int, none)
    } else {
        let p = recs.drop_last();
        let front = frames_bytes(p);
        let k = p.len() as int;
        if cut >= front.len() {
            let tail = frame_bytes(recs.last()).take(cut - front.len());
            assert(recs[recs.len() - 1] == recs.last());
            lemma_torn_frame(recs.last(), cut - front.len());
            assert(recs.take(k) =~= p);
            assert(all.take(cut) =~= frames_bytes(recs.take(k)) + tail);
            (k, tail)
        } else {
            assert forall|i: int| 0 <= i < p.len() implies (#[trigger] p[i]).len() <= u32::MAX by {
                assert(p[i] == recs[i]);
            }
            let r = lemma_torn_frames(p, cut);
            assert(p.take(r.0) =~= recs.take(r.0));
            assert(all.take(cut) =~= front.take(cut));
            r
        }
    }
}

/// A frame in front of a log is read as its record.
pub proof fn lemma_unframe_front<T>(
    rec: Seq<u8>,
    rest: Seq<u8>,
    decode: spec_fn(Seq<u8>) -> Result<T, Seq<char>>,
    mismatch: Seq<char>,
)
    requires
        rec.len() <= u32::MAX,
    ensures
        has_frame(frame_bytes(rec) + rest),
        head_record(frame_bytes(rec) + rest) == rec,
        head_intact(frame_bytes(rec) + rest),
        after_head(frame_bytes(rec) + rest) == rest,
        unframe(frame_bytes(rec) + rest, decode, mismatch) == (match decode(rec) {
            Err(m) => Err(m),
            Ok(x) => match unframe(rest, decode, mismatch) {
                Err(m) => Err(m),
                Ok(xs) => Ok(seq![x] + xs),
            },
        }),
{
    let buf = frame_bytes(rec) + rest;
    assert(buf.subrange(0, 4) =~= codec::le32(rec.len() as u32));
    codec::lemma_u32_at(buf, 0, rec.len() as u32);
    assert(buf.subrange(4, 8) =~= codec::le32(checksum::crc32(rec)));
    codec::lemma_u32_at(buf, 4, checksum::crc32(rec));
    assert(head_record(buf) =~= rec);
    assert(after_head(buf) =~= rest);
}

/// A frame that is cut short is not there.
pub proof fn lemma_torn_frame(rec: Seq<u8>, cut: int)
    requires
        rec.len() <= u32::MAX,
        0 <= cut < frame_bytes(rec).len(),
    ensures
        !has_frame(frame_bytes(rec).take(cut)),
{
    let t = frame_bytes(rec).take(cut);
    if t.len() >= 8 {
        assert(t.subrange(0, 4) =~= codec::le32(rec.len() as u32));
        codec::lemma_u32_at(t, 0, rec.len() as u32);
    }
}

/// The first of a run of frames stands in front.
pub proof fn lemma_frames_front(recs: Seq<Seq<u8>>)
    requires
        recs.len() > 0,
    ensures
        frames_bytes(recs) == frame_bytes(recs[0]) + frames_bytes(recs.skip(1)),
    decreases recs.len(),
{
    if recs.len() == 1 {
        assert(recs.drop_last() =~= Seq::<Seq<u8>>::empty());
        assert(recs.skip(1) =~= Seq::<Seq<u8>>::empty());
        assert(frames_bytes(recs) =~= frame_bytes(recs[0]) + frames_bytes(recs.skip(1)));
    } else {
        lemma_frames_front(recs.drop_last());
        assert(recs.drop_last().skip(1) =~= recs.skip(1).drop_last());
        assert(frames_bytes(recs) =~= frame_bytes(recs[0]) + frames_bytes(recs.skip(1)));
    }
}

/// The whole frames of a log are those that were written, if no complete frame stands behind them.
pub proof fn lemma_intact_frames(recs: Seq<Seq<u8>>, tail: Seq<u8>)
    requires
        forall|i: int| 0 <= i < recs.len() ==> (#[trigger] recs[i]).len() <= u32::MAX,
        !has_frame(tail),
    ensures
        intact_len(frames_bytes(recs) + tail) == frames_bytes(recs).len(),
    decreases recs.len(),
{
    if recs.len() == 0 {
        assert(frames_bytes(recs) + tail =~= tail);
    } else {
        let rest = recs.skip(1);
        assert forall|i: int| 0 <= i < rest.len() implies (#[trigger] rest[i]).len()
            <= u32::MAX by {
            assert(rest[i] == recs[i + 1]);
        }
        lemma_intact_frames(rest, tail);
        lemma_frames_front(recs);
        let more = frames_bytes(rest) + tail;
        assert(frames_bytes(recs) + tail =~= frame_bytes(recs[0]) + more);
        lemma_unframe_front(recs[0], more, |b: Seq<u8>| Ok::<Seq<u8>, Seq<char>>(b), Seq::empty());
        assert(8 + frame_len(frame_bytes(recs[0]) + more) == frame_bytes(recs[0]).len()) by {
            assert(after_head(frame_bytes(recs[0]) + more).len() == more.len());
        }
    }
}

/// A log of intact frames, with whatever holds no complete frame behind them, is read as the
/// records that were written.
pub proof fn lemma_unframe_all<T>(
    recs: Seq<Seq<u8>>,
    xs: Seq<T>,
    tail: Seq<u8>,
    decode: spec_fn(Seq<u8>) -> Result<T, Seq<char>>,
    mismatch: Seq<char>,
)
    requires
        recs.len() == xs.len(),
        forall|i: int| 0 <= i < recs.len() ==> (#[trigger] recs[i]).len() <= u32::MAX,
        forall|i: int|
            0 <= i < recs.len() ==> decode(#[trigger] recs[i]) == Ok::<T, Seq<char>>(xs[i]),
        !has_frame(tail),
    ensures
        unframe(frames_bytes(recs) + tail, decode, mismatch) == Ok::<Seq<T>, Seq<char>>(xs),
    decreases recs.len(),
{
    if recs.len() == 0 {
        assert(frames_bytes(recs) + tail =~= tail);
        assert(xs =~= Seq::<T>::empty());
    } else {
        let r2 = recs.skip(1);
        let x2 = xs.skip(1);
        assert forall|i: int| 0 <= i < r2.len() implies (#[trigger] r2[i]).len() <= u32::MAX
            && decode(r2[i]) == Ok::<T, Seq<char>>(x2[i]) by {
            assert(r2[i] == recs[i + 1]);
        }
        lemma_unframe_all(r2, x2, tail, decode, mismatch);
        lemma_frames_front(recs);
        assert(frames_bytes(recs) + tail =~= frame_bytes(recs[0]) + (frames_bytes(r2) + tail));
        lemma_unframe_front(recs[0], frames_bytes(r2) + tail, decode, mismatch);
        assert(seq![xs[0]] + x2 =~= xs);
    }
}

} // verus!

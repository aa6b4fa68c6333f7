//! The write-ahead log: every write is in it before it is acknowledged.

use crate::codec;
use crate::codec::{copy_range, get_u32, get_u64, put_bytes, put_u32, put_u64};
use crate::error;
use crate::error::{corruption, Result};
use crate::frame;
use crate::frame::{frame_step, framed, measure_intact, FrameStep};
use crate::key;
use crate::key::{InternalKey, KeyView, Record, ValueKind};
use crate::options::FsyncMode;
use crate::sstable::block;
use vstd::prelude::*;

verus! {

/// "JADE"
pub const MAGIC: u32 = 0x4A_41_44_45;

/// Bytes written between two fsyncs in batch mode.
pub const BATCH_BYTES: usize = 262144;

/// Layout of a log record: magic, key length, key, sequence number, kind, value length, value.
pub open spec fn record_bytes(r: Record) -> Seq<u8> {
    codec::le32(MAGIC) + codec::le32(r.0.user_key.len() as u32) + r.0.user_key + codec::le64(
        r.0.seq,
    ) + seq![key::kind_code(r.0.kind)] + codec::le32(r.1.len() as u32) + r.1
}

/// The write that a log record describes, or why it describes none.
pub open spec fn record_of(rec: Seq<u8>) -> std::result::Result<Record, Seq<char>> {
    if rec.len() < 21 {
        Err("wal record too short"@)
    } else if codec::u32_at(rec, 0) != MAGIC {
        Err("wal bad magic"@)
    } else {
        let klen = codec::u32_at(rec, 4) as int;
        if 8 + klen + 13 > rec.len() {
            Err("wal key truncated"@)
        } else {
            match key::kind_of(rec[16 + klen]) {
                None => Err("wal kind"@),
                Some(kind) => {
                    let vlen = codec::u32_at(rec, 17 + klen) as int;
                    if 21 + klen + vlen != rec.len() {
                        Err("wal value length"@)
                    } else {
                        Ok(
                            (
                                KeyView {
                                    user_key: rec.subrange(8, 8 + klen),
                                    seq: codec::u64_at(rec, 8 + klen),
                                    kind,
                                },
                                rec.subrange(21 + klen, 21 + klen + vlen),
                            ),
                        )
                    }
                },
            }
        }
    }
}

/// What a log holds: the writes in it up to the first frame that is cut short, or the message of
/// the first frame that is damaged.
pub open spec fn recover_log(buf: Seq<u8>) -> std::result::Result<Seq<Record>, Seq<char>> {
    frame::unframe(buf, |rec: Seq<u8>| record_of(rec), "wal checksum mismatch"@)
}

/// The records of a run of writes.
pub open spec fn log_records(writes: Seq<Record>) -> Seq<Seq<u8>> {
    Seq::new(writes.len(), |i: int| record_bytes(writes[i]))
}

/// The log of a run of writes.
pub open spec fn log_bytes(writes: Seq<Record>) -> Seq<u8> {
    frame::frames_bytes(log_records(writes))
}

/// A write whose parts, and whose record, fit the length fields of the log.
pub open spec fn loggable(r: Record) -> bool {
    r.0.user_key.len() + r.1.len() + 21 <= u32::MAX
}

/// What the bookkeeping of an open log says.
pub struct WalView {
    pub fsync: FsyncMode,
    pub pending: usize,
}

/// Bookkeeping of an open log: when its bytes have to reach the medium.
pub struct Wal {
    fsync: FsyncMode,
    pending: usize,
    batch_bytes: usize,
}

impl View for Wal {
    type V = WalView;

    closed spec fn view(&self) -> WalView {
        WalView { fsync: self.fsync, pending: self.pending }
    }
}

/// The bookkeeping after `n` more bytes have been written.
pub open spec fn after_append(w: WalView, n: nat) -> WalView {
    WalView { fsync: w.fsync, pending: block::capped((w.pending + n) as nat) }
}

/// An append that leads to `w` has to be followed by an fsync.
pub open spec fn append_sync_due(w: WalView) -> bool {
    w.fsync == FsyncMode::Always || (w.fsync == FsyncMode::Batch && w.pending >= BATCH_BYTES)
}

/// The bookkeeping after the fsync that follows an append.
pub open spec fn after_append_sync(w: WalView) -> WalView {
    if w.fsync == FsyncMode::Batch {
        WalView { fsync: w.fsync, pending: 0 }
    } else {
        w
    }
}

/// The bookkeeping after an fsync on request.
pub open spec fn after_sync(w: WalView) -> WalView {
    if w.fsync != FsyncMode::Never {
        WalView { fsync: w.fsync, pending: 0 }
    } else {
        w
    }
}

impl Wal {
    /// The batch size is the one that all logs share.
    pub closed spec fn wf(&self) -> bool {
        self.batch_bytes == BATCH_BYTES
    }

    /// Bookkeeping of a log that has just been created, or emptied.
    pub fn create(fsync: FsyncMode) -> (w: Self)
        ensures
            w.wf(),
            w@ == (WalView { fsync, pending: 0 }),
    {
        Self { fsync, pending: 0, batch_bytes: BATCH_BYTES }
    }

    /// Bookkeeping of a log that has just been opened for appending.
    pub fn open_append(fsync: FsyncMode) -> (w: Self)
        ensures
            w.wf(),
            w@ == (WalView { fsync, pending: 0 }),
    {
        Self { fsync, pending: 0, batch_bytes: BATCH_BYTES }
    }

    /// The bytes to be written at the end of the log for a write.
    pub fn append(&self, key: &InternalKey, value: &[u8]) -> (out: Vec<u8>)
        ensures
            out@ == frame::frame_bytes(record_bytes((key@, value@))),
    {
        let mut rec: Vec<u8> = Vec::new();
        put_u32(&mut rec, MAGIC);
        put_u32(&mut rec, key.user_key.len() as u32);
        put_bytes(&mut rec, key.user_key.as_slice());
        put_u64(&mut rec, key.seq);
        rec.push(key.kind.as_u8());
        put_u32(&mut rec, value.len() as u32);
        put_bytes(&mut rec, value);
        assert(rec@ =~= record_bytes((key@, value@)));
        framed(rec.as_slice())
    }

    /// Notes that `n` bytes have been written; says whether an fsync has to follow.
    pub fn appended(&mut self, n: usize) -> (sync: bool)
        requires
            old(self).wf(),
        ensures
            final(self).wf(),
            final(self)@ == after_append(old(self)@, n as nat),
            sync == append_sync_due(final(self)@),
    {
        self.pending = self.pending.saturating_add(n);
        self.fsync == FsyncMode::Always || (self.fsync == FsyncMode::Batch && self.pending
            >= self.batch_bytes)
    }

    /// Notes that the fsync which an append asked for has succeeded.
    pub fn append_synced(&mut self)
        requires
            old(self).wf(),
        ensures
            final(self).wf(),
            final(self)@ == after_append_sync(old(self)@),
    {
        if self.fsync == FsyncMode::Batch {
            self.pending = 0;
        }
    }

    /// Whether a request to sync asks for an fsync at all.
    pub fn sync_due(&self) -> (r: bool)
        ensures
            r == (self@.fsync != FsyncMode::Never),
    {
        self.fsync != FsyncMode::Never
    }

    /// Notes that the log has been synced on request.
    pub fn sync(&mut self)
        requires
            old(self).wf(),
        ensures
            final(self).wf(),
            final(self)@ == after_sync(old(self)@),
    {
        if self.fsync != FsyncMode::Never {
            self.pending = 0;
        }
    }

    /// The length to which a log that a crash may have cut short is to be cut before anything is
    /// written to it: that of its whole records.
    pub fn intact_len(buf: &[u8]) -> (n: usize)
        ensures
            n == frame::intact_len(buf@),
            n <= buf@.len(),
    {
        measure_intact(buf)
    }

    /// Reads a log back. A record that was cut short by a crash ends the log; a damaged one is an
    /// error.
    pub fn recover(buf: &[u8]) -> (r: Result<Vec<(InternalKey, Vec<u8>)>>)
        ensures
            match r {
                Ok(v) => recover_log(buf@) == Ok::<Seq<Record>, Seq<char>>(key::records_view(v@)),
                Err(e) => recover_log(buf@) is Err && error::is_corruption(
                    e,
                    recover_log(buf@)->Err_0,
                ),
            },
    {
        let mut out: Vec<(InternalKey, Vec<u8>)> = Vec::new();
        let mut i: usize = 0;
        proof {
            assert(buf@.skip(0) =~= buf@);
            assert(key::records_view(out@) =~= Seq::<Record>::empty());
            if let Ok(rest) = recover_log(buf@) {
                assert(Seq::<Record>::empty() + rest =~= rest);
            }
        }
        loop
            invariant
                i <= buf@.len(),
                match recover_log(buf@.skip(i as int)) {
                    Ok(rest) => recover_log(buf@) == Ok::<Seq<Record>, Seq<char>>(
                        key::records_view(out@) + rest,
                    ),
                    Err(m) => recover_log(buf@) == Err::<Seq<Record>, Seq<char>>(m),
                },
            decreases buf@.len() - i,
        {
            let ghost rest = buf@.skip(i as int);
            match frame_step(buf, i) {
                FrameStep::End => {
                    assert(key::records_view(out@) + Seq::<Record>::empty() =~= key::records_view(
                        out@,
                    ));
                    return Ok(out);
                },
                FrameStep::Damaged => {
                    return Err(corruption("wal checksum mismatch"));
                },
                FrameStep::Intact { from, to } => {
                    match decode_record(vstd::slice::slice_subrange(buf, from, to)) {
                        Err(e) => {
                            return Err(e);
                        },
                        Ok(entry) => {
                            let ghost before = key::records_view(out@);
                            let ghost x = key::record_view(entry);
                            out.push(entry);
                            proof {
                                assert(key::records_view(out@) =~= before.push(x));
                                if let Ok(xs) = recover_log(buf@.skip(to as int)) {
                                    assert(before + (seq![x] + xs) =~= before.push(x) + xs);
                                }
                            }
                            i = to;
                        },
                    }
                },
            }
        }
    }
}

/// Reads one log record.
pub fn decode_record(rec: &[u8]) -> (r: Result<(InternalKey, Vec<u8>)>)
    ensures
        match r {
            Ok(p) => record_of(rec@) == Ok::<Record, Seq<char>>(key::record_view(p)),
            Err(e) => record_of(rec@) is Err && error::is_corruption(e, record_of(rec@)->Err_0),
        },
{
    let len: usize = rec.len();
    if len < 21 {
        return Err(corruption("wal record too short"));
    }
    let magic: u32 = get_u32(rec, 0);
    if magic != MAGIC {
        return Err(corruption("wal bad magic"));
    }
    let klen: usize = get_u32(rec, 4) as usize;
    if len - 21 < klen {
        return Err(corruption("wal key truncated"));
    }
    let user_key: Vec<u8> = copy_range(rec, 8, 8 + klen);
    let seq: u64 = get_u64(rec, 8 + klen);
    let kind = match ValueKind::from_u8(rec[16 + klen]) {
        None => {
            return Err(corruption("wal kind"));
        },
        Some(k) => k,
    };
    let vlen: usize = get_u32(rec, 17 + klen) as usize;
    let at: usize = 21 + klen;
    if len - at != vlen {
        return Err(corruption("wal value length"));
    }
    let value: Vec<u8> = copy_range(rec, at, at + vlen);
    Ok((InternalKey { user_key, seq, kind }, value))
}

/// Decoding the record of a write gives the write back.
pub proof fn law_record_round_trip(r: Record)
    requires
        loggable(r),
    ensures
        record_of(record_bytes(r)) == Ok::<Record, Seq<char>>(r),
        record_bytes(r).len() <= u32::MAX,
{
    let b = record_bytes(r);
    let n = r.0.user_key.len() as int;
    let m = r.1.len() as int;
    assert(b.len() == 21 + n + m);
    assert(b.subrange(0, 4) =~= codec::le32(MAGIC));
    codec::lemma_u32_at(b, 0, MAGIC);
    assert(b.subrange(4, 8) =~= codec::le32(n as u32));
    codec::lemma_u32_at(b, 4, n as u32);
    assert(b.subrange(8, 8 + n) =~= r.0.user_key);
    assert(b.subrange(8 + n, 16 + n) =~= codec::le64(r.0.seq));
    codec::lemma_u64_at(b, 8 + n, r.0.seq);
    assert(b[16 + n] == key::kind_code(r.0.kind));
    assert(b.subrange(17 + n, 21 + n) =~= codec::le32(m as u32));
    codec::lemma_u32_at(b, 17 + n, m as u32);
    assert(b.subrange(21 + n, 21 + n + m) =~= r.1);
}

/// Recovery gives back the writes that were logged, in order. What a crash left of one more write
/// is dropped without a trace.
pub proof fn law_log_recovers(writes: Seq<Record>, torn: Record, cut: int)
    requires
        forall|i: int| 0 <= i < writes.len() ==> loggable(#[trigger] writes[i]),
        loggable(torn),
        0 <= cut < frame::frame_bytes(record_bytes(torn)).len(),
    ensures
        recover_log(log_bytes(writes) + frame::frame_bytes(record_bytes(torn)).take(cut))
            == Ok::<Seq<Record>, Seq<char>>(writes),
        recover_log(log_bytes(writes)) == Ok::<Seq<Record>, Seq<char>>(writes),
{
    let recs = log_records(writes);
    let decode = |rec: Seq<u8>| record_of(rec);
    let tail = frame::frame_bytes(record_bytes(torn)).take(cut);
    assert forall|i: int| 0 <= i < recs.len() implies (#[trigger] recs[i]).len() <= u32::MAX
        && decode(recs[i]) == Ok::<Record, Seq<char>>(writes[i]) by {
        law_record_round_trip(writes[i]);
    }
    law_record_round_trip(torn);
    frame::lemma_torn_frame(record_bytes(torn), cut);
    frame::lemma_unframe_all(recs, writes, tail, decode, "wal checksum mismatch"@);
    let none = Seq::<u8>::empty();
    frame::lemma_unframe_all(recs, writes, none, decode, "wal checksum mismatch"@);
    assert(frame::frames_bytes(recs) + none =~= frame::frames_bytes(recs));
}

/// Appending the frame of a write to the log of earlier writes gives the log of all of them.
pub proof fn law_append_extends_log(writes: Seq<Record>, r: Record)
    ensures
        log_bytes(writes.push(r)) == log_bytes(writes) + frame::frame_bytes(record_bytes(r)),
{
    let recs = log_records(writes.push(r));
    assert(recs.drop_last() =~= log_records(writes));
    assert(recs.last() == record_bytes(r));
}

/// A log that could be read back, cut behind its whole records, takes further writes: these are read
/// back behind the others.
pub proof fn law_write_follows_recovery(buf: Seq<u8>, r: Record)
    requires
        recover_log(buf) is Ok,
        loggable(r),
    ensures
        frame::intact_len(buf) <= buf.len(),
        recover_log(
            buf.take(frame::intact_len(buf) as int) + frame::frame_bytes(record_bytes(r)),
        ) == Ok::<Seq<Record>, Seq<char>>(recover_log(buf)->Ok_0.push(r)),
{
    let decode = |rec: Seq<u8>| record_of(rec);
    let more = frame::frame_bytes(record_bytes(r));
    let none = Seq::<u8>::empty();
    let xs = recover_log(buf)->Ok_0;
    law_record_round_trip(r);
    frame::lemma_unframe_front(record_bytes(r), none, decode, "wal checksum mismatch"@);
    assert(more + none =~= more);
    assert(seq![r] + Seq::<Record>::empty() =~= seq![r]);
    frame::lemma_append_behind_intact(buf, more, decode, "wal checksum mismatch"@);
    assert(xs + seq![r] =~= xs.push(r));
}

/// What a crash left of one more write is cut off, and nothing else; a write that is logged after
/// that is read back.
pub proof fn law_write_follows_torn_tail(writes: Seq<Record>, torn: Record, cut: int, r: Record)
    requires
        forall|i: int| 0 <= i < writes.len() ==> loggable(#[trigger] writes[i]),
        loggable(torn),
        loggable(r),
        0 <= cut < frame::frame_bytes(record_bytes(torn)).len(),
    ensures
        ({
            let log = log_bytes(writes) + frame::frame_bytes(record_bytes(torn)).take(cut);
            let n = frame::intact_len(log) as int;
            &&& log.take(n) == log_bytes(writes)
            &&& recover_log(log.take(n) + frame::frame_bytes(record_bytes(r))) == Ok::<
                Seq<Record>,
                Seq<char>,
            >(writes.push(r))
        }),
{
    let tail = frame::frame_bytes(record_bytes(torn)).take(cut);
    let log = log_bytes(writes) + tail;
    law_log_recovers(writes, torn, cut);
    law_write_follows_recovery(log, r);
    law_record_round_trip(torn);
    frame::lemma_torn_frame(record_bytes(torn), cut);
    let recs = log_records(writes);
    assert forall|i: int| 0 <= i < recs.len() implies (#[trigger] recs[i]).len() <= u32::MAX by {
        law_record_round_trip(writes[i]);
    }
    frame::lemma_intact_frames(recs, tail);
    assert(log.take(log_bytes(writes).len() as int) =~= log_bytes(writes));
}

} // verus!

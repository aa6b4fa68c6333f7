//! When the bytes of the log have to reach the medium.

use crate::options::FsyncMode;
use crate::wal;
use crate::wal::WalView;
use vstd::prelude::*;

verus! {

/// What is done to the log.
pub enum LogStep {
    /// So many bytes are written at its end, and an fsync follows if one is asked for.
    Append(nat),
    /// A sync is requested.
    Sync,
}

/// The bookkeeping of a log, the bytes that were written to it after its last fsync, and how many
/// fsyncs there were.
pub struct LogState {
    pub wal: WalView,
    pub unsynced: nat,
    pub syncs: nat,
}

/// The state of the log after one more step.
pub open spec fn log_step(s: LogState, e: LogStep) -> LogState {
    match e {
        LogStep::Append(n) => {
            let w = wal::after_append(s.wal, n);
            if wal::append_sync_due(w) {
                LogState { wal: wal::after_append_sync(w), unsynced: 0, syncs: s.syncs + 1 }
            } else {
                LogState { wal: w, unsynced: s.unsynced + n, syncs: s.syncs }
            }
        },
        LogStep::Sync => {
            if s.wal.fsync != FsyncMode::Never {
                LogState { wal: wal::after_sync(s.wal), unsynced: 0, syncs: s.syncs + 1 }
            } else {
                LogState { wal: wal::after_sync(s.wal), ..s }
            }
        },
    }
}

/// The state of a new log after a run of steps.
pub open spec fn log_run(fsync: FsyncMode, es: Seq<LogStep>) -> LogState
    decreases es.len(),
{
    if es.len() == 0 {
        LogState { wal: WalView { fsync, pending: 0 }, unsynced: 0, syncs: 0 }
    } else {
        log_step(log_run(fsync, es.drop_last()), es.last())
    }
}

/// Bytes that a run of steps writes.
pub open spec fn appended_bytes(es: Seq<LogStep>) -> int {
    es.fold_left(
        0int,
        |n: int, e: LogStep|
            match e {
                LogStep::Append(k) => n + k,
                LogStep::Sync => n,
            },
    )
}

/// Whether an append asks for an fsync, whatever has been appended before: always in mode `Always`,
/// never in mode `Never`, and in mode `Batch` exactly if it brings the bytes that are pending to
/// 256 KiB.
pub proof fn law_append_asks_for_sync(w: WalView, n: nat)
    ensures
        w.fsync == FsyncMode::Always ==> wal::append_sync_due(wal::after_append(w, n)),
        w.fsync == FsyncMode::Never ==> !wal::append_sync_due(wal::after_append(w, n)),
        w.fsync == FsyncMode::Batch ==> (wal::append_sync_due(wal::after_append(w, n)) <==> w.pending
            + n >= 256 * 1024),
        wal::after_append(w, n).fsync == w.fsync,
        w.pending + n <= usize::MAX ==> wal::after_append(w, n).pending == w.pending + n,
{
}

/// After an fsync nothing is pending that a later append would count; and no step changes the mode.
pub proof fn law_sync_settles_the_log(w: WalView)
    ensures
        w.fsync == FsyncMode::Batch ==> wal::after_append_sync(w).pending == 0,
        w.fsync != FsyncMode::Never ==> wal::after_sync(w).pending == 0,
        w.fsync == FsyncMode::Never ==> wal::after_sync(w) == w,
        wal::after_append_sync(w).fsync == w.fsync,
        wal::after_sync(w).fsync == w.fsync,
{
}

/// Whatever is appended to a log, and whenever a sync is requested in between: in mode `Always` no
/// byte is left without an fsync; in mode `Batch` fewer than 256 KiB are; in mode `Never` there is
/// no fsync at all.
pub proof fn law_log_is_synced_as_its_mode_says(fsync: FsyncMode, es: Seq<LogStep>)
    ensures
        ({
            let s = log_run(fsync, es);
            match fsync {
                FsyncMode::Always => s.unsynced == 0,
                FsyncMode::Batch => s.unsynced < 256 * 1024,
                FsyncMode::Never => s.syncs == 0 && s.unsynced == appended_bytes(es),
            }
        }),
{
    lemma_log_run(fsync, es);
}

/// In mode `Batch` an append is followed by an fsync only once 256 KiB are waiting for one.
pub proof fn law_batch_waits_for_its_size(es: Seq<LogStep>, n: nat)
    ensures
        ({
            let s = log_run(FsyncMode::Batch, es);
            let t = log_run(FsyncMode::Batch, es.push(LogStep::Append(n)));
            &&& t.syncs == s.syncs + 1 <==> s.unsynced + n >= 256 * 1024
            &&& t.syncs == s.syncs <==> s.unsynced + n < 256 * 1024
        }),
{
    lemma_log_run(FsyncMode::Batch, es);
    assert(es.push(LogStep::Append(n)).drop_last() =~= es);
}

proof fn lemma_log_run(fsync: FsyncMode, es: Seq<LogStep>)
    ensures
        ({
            let s = log_run(fsync, es);
            &&& s.wal.fsync == fsync
            &&& match fsync {
                FsyncMode::Always => s.unsynced == 0,
                FsyncMode::Batch => s.unsynced < 256 * 1024 && s.wal.pending == s.unsynced,
                FsyncMode::Never => s.syncs == 0 && s.unsynced == appended_bytes(es),
            }
        }),
    decreases es.len(),
{
    reveal(Seq::fold_left);
    if es.len() > 0 {
        lemma_log_run(fsync, es.drop_last());
        let s = log_run(fsync, es.drop_last());
        if let LogStep::Append(n) = es.last() {
            law_append_asks_for_sync(s.wal, n);
        }
    }
}

} // verus!

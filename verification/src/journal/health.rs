//! Whether the journal is complete, and the flags that producer, writer and owner share.

use std::sync::atomic::{AtomicBool, AtomicU64, Ordering};
use std::sync::Arc;
use vstd::prelude::*;

verus! {

/// Whether the journal is complete. The risk layer refuses new orders unless it is `Healthy`, so
/// trading never continues without an audit trail.
#[derive(Clone, Copy, Debug, PartialEq, Eq, Structural)]
pub enum JournalHealth {
    /// Every record has been accepted.
    Healthy,
    /// Records were dropped because the writer fell behind. Gaps are marked in the journal.
    Degraded {
        /// Records dropped so far.
        dropped: u64,
    },
    /// Writing to disk failed. Records are no longer persisted.
    Failed,
}

/// The health of a journal that dropped this many records, and whose writer failed or not.
pub open spec fn health(failed: bool, dropped: u64) -> JournalHealth {
    if failed {
        JournalHealth::Failed
    } else if dropped == 0 {
        JournalHealth::Healthy
    } else {
        JournalHealth::Degraded { dropped }
    }
}

/// A journal is healthy only while nothing was dropped and nothing failed. A failure is reported
/// whatever else happened, and otherwise the exact number of dropped records is.
pub proof fn law_only_complete_journals_are_healthy(failed: bool, dropped: u64)
    ensures
        health(failed, dropped) is Healthy <==> !failed && dropped == 0,
        health(failed, dropped) is Failed <==> failed,
        !failed && dropped > 0 ==> health(failed, dropped) == (JournalHealth::Degraded { dropped }),
{
}

/// The health of a journal that dropped this many records, and whose writer failed or not.
pub fn health_of(failed: bool, dropped: u64) -> (r: JournalHealth)
    ensures
        r == health(failed, dropped),
{
    if failed {
        JournalHealth::Failed
    } else if dropped == 0 {
        JournalHealth::Healthy
    } else {
        JournalHealth::Degraded { dropped }
    }
}

/// Counters and flags that every side of a journal shares. Each is read and written by several
/// threads, so what a load returns is only known to have been stored by one of them.
#[derive(Debug)]
pub struct JournalShared {
    dropped: AtomicU64,
    failed: AtomicBool,
    stop: AtomicBool,
}

impl JournalShared {
    /// The counter of dropped records.
    pub closed spec fn drop_counter(self) -> AtomicU64 {
        self.dropped
    }

    /// The flag that is set once writing fails.
    pub closed spec fn failure_flag(self) -> AtomicBool {
        self.failed
    }

    /// The flag that is set to stop the writer.
    pub closed spec fn stop_flag(self) -> AtomicBool {
        self.stop
    }

    /// Whether a relaxed load of the counter of dropped records can return `count`.
    pub open spec fn shows_dropped(self, count: u64) -> bool {
        call_ensures(AtomicU64::load, (&self.drop_counter(), Ordering::Relaxed), count)
    }

    /// Whether a relaxed load of the flag for failures can return `failed`.
    pub open spec fn shows_failure(self, failed: bool) -> bool {
        call_ensures(AtomicBool::load, (&self.failure_flag(), Ordering::Relaxed), failed)
    }

    /// Whether an acquiring load of the flag that stops the writer can return `asked`.
    pub open spec fn shows_stop(self, asked: bool) -> bool {
        call_ensures(AtomicBool::load, (&self.stop_flag(), Ordering::Acquire), asked)
    }

    /// Whether one was added to the counter of dropped records.
    pub open spec fn noted_drop(self) -> bool {
        exists|before: u64| #[trigger]
            call_ensures(
                AtomicU64::fetch_add,
                (&self.drop_counter(), 1u64, Ordering::Relaxed),
                before,
            )
    }

    /// Whether the flag for failures was set.
    pub open spec fn noted_failure(self) -> bool {
        call_ensures(AtomicBool::store, (&self.failure_flag(), true, Ordering::Relaxed), ())
    }

    /// Whether the flag that stops the writer was set, releasing what was written before.
    pub open spec fn asked_to_stop(self) -> bool {
        call_ensures(AtomicBool::store, (&self.stop_flag(), true, Ordering::Release), ())
    }

    /// Nothing dropped, nothing failed, not asked to stop: each counter and flag is made with
    /// that value.
    pub fn new() -> (r: Self)
        ensures
            call_ensures(AtomicU64::new, (0,), r.drop_counter()),
            call_ensures(AtomicBool::new, (false,), r.failure_flag()),
            call_ensures(AtomicBool::new, (false,), r.stop_flag()),
    {
        JournalShared {
            dropped: AtomicU64::new(0),
            failed: AtomicBool::new(false),
            stop: AtomicBool::new(false),
        }
    }

    /// Counts one dropped record.
    pub fn note_drop(&self)
        ensures
            self.noted_drop(),
    {
        let before: u64 = self.dropped.fetch_add(1, Ordering::Relaxed);
        assert(call_ensures(
            AtomicU64::fetch_add,
            (&self.drop_counter(), 1u64, Ordering::Relaxed),
            before,
        ));
    }

    /// Records dropped so far.
    pub fn dropped(&self) -> (r: u64)
        ensures
            self.shows_dropped(r),
    {
        self.dropped.load(Ordering::Relaxed)
    }

    /// Notes that writing to disk failed.
    pub fn note_failure(&self)
        ensures
            self.noted_failure(),
    {
        self.failed.store(true, Ordering::Relaxed);
    }

    /// Asks the writer to stop.
    pub fn ask_to_stop(&self)
        ensures
            self.asked_to_stop(),
    {
        self.stop.store(true, Ordering::Release);
    }

    /// Whether the writer was asked to stop.
    pub fn stopping(&self) -> (r: bool)
        ensures
            self.shows_stop(r),
    {
        self.stop.load(Ordering::Acquire)
    }
}

/// Control side of the journal.
#[derive(Debug)]
pub struct JournalHandle {
    shared: Arc<JournalShared>,
}

impl JournalHandle {
    /// What this handle shares with the other sides of the journal.
    pub closed spec fn shared(self) -> Arc<JournalShared> {
        self.shared
    }

    /// A handle on the journal whose sides share `shared`.
    pub fn new(shared: Arc<JournalShared>) -> (r: Self)
        ensures
            r.shared() == shared,
    {
        JournalHandle { shared }
    }

    /// Current health. Cheap: reads two atomics. [`health_of`] says what it is for each value
    /// of them.
    pub fn health(&self) -> (r: JournalHealth)
        ensures
            exists|failed: bool, dropped: u64|
                self.shared().shows_failure(failed) && self.shared().shows_dropped(dropped) && r
                    == #[trigger] health(failed, dropped),
    {
        let failed: bool = self.shared.failed.load(Ordering::Relaxed);
        let dropped: u64 = self.shared.dropped.load(Ordering::Relaxed);
        health_of(failed, dropped)
    }

    /// Asks the writer to stop once it has written everything already in the ring. Stop the
    /// producers first: records appended after this call may be lost.
    pub fn ask_to_stop(&self)
        ensures
            self.shared().asked_to_stop(),
    {
        self.shared.ask_to_stop();
    }
}

} // verus!

//! The loop of the writer's thread: what it does next, given what came of what it did before.
//!
//! Each pass looks whether it is to stop, writes everything in the ring, starts a new segment
//! if the current one is full, and flushes and syncs when that is due. An idle writer sleeps
//! instead of spinning a core. It stops after a pass that found nothing to write, so everything
//! that was in the ring when it was asked to stop is on disk.

use crate::journal::writer::{self, JournalStats, JournalWriter, Rest};
use crate::time;
use std::time::Duration;
use vstd::prelude::*;

verus! {

/// What the thread does next.
#[derive(Debug)]
pub enum Action {
    /// Look whether the journal is to stop.
    LookForStop,
    /// Take the oldest record from the ring.
    TakeRecord,
    /// Write these bytes to the current segment.
    Write(Vec<u8>),
    /// Flush the current segment and have it persisted to disk.
    Sync,
    /// Create the segment with this index, with its file header.
    Create(u32),
    /// See how long ago the last flush was.
    AskFlushAge,
    /// Flush the current segment.
    Flush,
    /// See how long ago the last sync was.
    AskSyncAge,
    /// Sleep for a moment.
    Sleep,
    /// End the thread.
    Finish,
}

/// What came of it.
#[derive(Clone, Copy, Debug)]
pub enum Event<'a> {
    /// Whether the journal is to stop.
    Stopping(bool),
    /// The oldest record.
    Record(&'a [u8]),
    /// The ring is empty.
    Empty,
    /// The operation is over, and whether it succeeded.
    Done(bool),
    /// How long ago it was.
    Age(Duration),
}

/// What the thread was last told to do.
#[derive(Clone, Copy, Debug, PartialEq, Eq, Structural)]
pub enum Phase {
    /// To look whether the journal is to stop.
    LookingForStop,
    /// To take a record.
    TakingRecord,
    /// To write a record of this length.
    Writing {
        /// Length of the record.
        len: usize,
    },
    /// To sync a full segment.
    SyncingFull,
    /// To create the next segment.
    Creating,
    /// To see how long ago the last flush was.
    AskingFlushAge,
    /// To flush.
    Flushing,
    /// To see how long ago the last sync was.
    AskingSyncAge,
    /// To sync because it was due.
    Syncing,
    /// To sleep.
    Sleeping,
    /// To sync for the last time.
    SyncingLast,
    /// To end.
    Finished,
}

/// The state of the loop.
#[derive(Clone, Copy, Debug, PartialEq, Eq, Structural)]
pub struct WriterLoop {
    /// What is written and where.
    pub writer: JournalWriter,
    /// What the thread was last told to do.
    pub phase: Phase,
    /// Whether the journal was to stop when this pass began.
    pub stopping: bool,
    /// Whether this pass found records.
    pub wrote_any: bool,
}

/// An action, as values.
#[verifier::ext_equal]
pub enum Order {
    LookForStop,
    TakeRecord,
    Write(Seq<u8>),
    Sync,
    Create(u32),
    AskFlushAge,
    Flush,
    AskSyncAge,
    Sleep,
    Finish,
}

impl View for Action {
    type V = Order;

    open spec fn view(&self) -> Order {
        match self {
            Action::LookForStop => Order::LookForStop,
            Action::TakeRecord => Order::TakeRecord,
            Action::Write(bytes) => Order::Write(bytes@),
            Action::Sync => Order::Sync,
            Action::Create(index) => Order::Create(*index),
            Action::AskFlushAge => Order::AskFlushAge,
            Action::Flush => Order::Flush,
            Action::AskSyncAge => Order::AskSyncAge,
            Action::Sleep => Order::Sleep,
            Action::Finish => Order::Finish,
        }
    }
}

impl WriterLoop {
    /// In another phase.
    pub open spec fn to(self, phase: Phase) -> WriterLoop {
        WriterLoop { phase, ..self }
    }

    /// After an operation that may have failed.
    pub open spec fn after(self, succeeded: bool) -> WriterLoop {
        if succeeded {
            self
        } else {
            WriterLoop { writer: JournalWriter { failed: true, ..self.writer }, ..self }
        }
    }

    /// After a record of `len` bytes was written.
    pub open spec fn with_written(self, len: usize) -> WriterLoop {
        WriterLoop {
            writer: JournalWriter {
                segment_len: self.writer.segment_len.saturating_add(len as u64),
                stats: JournalStats {
                    records: self.writer.stats.records.saturating_add(1),
                    bytes: self.writer.stats.bytes.saturating_add(len as u64),
                    ..self.writer.stats
                },
                ..self.writer
            },
            ..self
        }
    }

    /// After a record was lost.
    pub open spec fn with_lost(self) -> WriterLoop {
        WriterLoop {
            writer: JournalWriter {
                stats: JournalStats {
                    lost_after_failure: self.writer.stats.lost_after_failure.saturating_add(1),
                    ..self.writer.stats
                },
                ..self.writer
            },
            ..self
        }
    }

    /// With the next segment created.
    pub open spec fn with_segment(self) -> WriterLoop {
        WriterLoop {
            writer: JournalWriter {
                index: self.writer.index.saturating_add(1),
                segment_len: crate::journal::layout::FILE_HEADER_LEN as u64,
                stats: JournalStats {
                    segments: self.writer.stats.segments.saturating_add(1),
                    ..self.writer.stats
                },
                ..self.writer
            },
            ..self
        }
    }

    /// After a pass.
    pub open spec fn rested(self) -> (WriterLoop, Order) {
        if self.wrote_any {
            (self.to(Phase::LookingForStop), Order::LookForStop)
        } else if !self.stopping {
            (self.to(Phase::Sleeping), Order::Sleep)
        } else if self.writer.failed {
            (self.to(Phase::Finished), Order::Finish)
        } else {
            (self.to(Phase::SyncingLast), Order::Sync)
        }
    }

    /// What the thread was last told to do, to be told again. A record is not kept, so a write
    /// cannot be: it is taken to have failed.
    pub open spec fn repeated(self) -> (WriterLoop, Order) {
        match self.phase {
            Phase::LookingForStop => (self, Order::LookForStop),
            Phase::TakingRecord => (self, Order::TakeRecord),
            Phase::Writing { .. } => (
                self.after(false).to(Phase::TakingRecord),
                Order::TakeRecord,
            ),
            Phase::SyncingFull => (self, Order::Sync),
            Phase::Creating => (self, Order::Create(self.writer.index.saturating_add(1))),
            Phase::AskingFlushAge => (self, Order::AskFlushAge),
            Phase::Flushing => (self, Order::Flush),
            Phase::AskingSyncAge => (self, Order::AskSyncAge),
            Phase::Syncing => (self, Order::Sync),
            Phase::Sleeping => (self, Order::Sleep),
            Phase::SyncingLast => (self, Order::Sync),
            Phase::Finished => (self, Order::Finish),
        }
    }

    /// What the thread does next, given what came of what it was told to do. After a failure
    /// the files are left alone and every record is counted as lost. An event that does not
    /// belong to what it was told has it told again.
    pub open spec fn next(
        self,
        event: Event<'_>,
        flush_every: Duration,
        sync_every: Duration,
    ) -> (WriterLoop, Order) {
        match (self.phase, event) {
            (Phase::LookingForStop, Event::Stopping(stopping)) => (
                WriterLoop {
                    stopping,
                    wrote_any: false,
                    ..self.to(Phase::TakingRecord)
                },
                Order::TakeRecord,
            ),
            (Phase::TakingRecord, Event::Record(record)) => {
                let taken = WriterLoop { wrote_any: true, ..self };
                if self.writer.failed {
                    (taken.with_lost(), Order::TakeRecord)
                } else {
                    (
                        taken.to(Phase::Writing { len: record@.len() as usize }),
                        Order::Write(writer::framed(record@)),
                    )
                }
            },
            (Phase::TakingRecord, Event::Empty) => if !self.writer.failed
                && self.writer.segment_len >= self.writer.limit {
                (self.to(Phase::SyncingFull), Order::Sync)
            } else {
                (self.to(Phase::AskingFlushAge), Order::AskFlushAge)
            },
            (Phase::Writing { len }, Event::Done(succeeded)) => (
                if succeeded {
                    self.with_written(len)
                } else {
                    self.after(false)
                }.to(Phase::TakingRecord),
                Order::TakeRecord,
            ),
            (Phase::SyncingFull, Event::Done(succeeded)) => if succeeded {
                (self.to(Phase::Creating), Order::Create(self.writer.index.saturating_add(1)))
            } else {
                (self.after(false).to(Phase::AskingFlushAge), Order::AskFlushAge)
            },
            (Phase::Creating, Event::Done(succeeded)) => (
                if succeeded {
                    self.with_segment()
                } else {
                    self.after(false)
                }.to(Phase::AskingFlushAge),
                Order::AskFlushAge,
            ),
            (Phase::AskingFlushAge, Event::Age(age)) => if !self.writer.failed
                && time::span_nanos(age) >= time::span_nanos(flush_every) {
                (self.to(Phase::Flushing), Order::Flush)
            } else {
                (self.to(Phase::AskingSyncAge), Order::AskSyncAge)
            },
            (Phase::Flushing, Event::Done(succeeded)) => (
                self.after(succeeded).to(Phase::AskingSyncAge),
                Order::AskSyncAge,
            ),
            (Phase::AskingSyncAge, Event::Age(age)) => if !self.writer.failed
                && time::span_nanos(age) >= time::span_nanos(sync_every) {
                (self.to(Phase::Syncing), Order::Sync)
            } else {
                self.rested()
            },
            (Phase::Syncing, Event::Done(succeeded)) => self.after(succeeded).rested(),
            (Phase::Sleeping, Event::Done(_)) => (
                self.to(Phase::LookingForStop),
                Order::LookForStop,
            ),
            (Phase::SyncingLast, Event::Done(succeeded)) => (
                self.after(succeeded).to(Phase::Finished),
                Order::Finish,
            ),
            _ => self.repeated(),
        }
    }
}

impl WriterLoop {
    /// The loop of a writer whose first segment has just been created, and what its thread does
    /// first.
    pub fn new(writer: JournalWriter) -> (r: (Self, Action))
        ensures
            r.0 == (WriterLoop {
                writer,
                phase: Phase::LookingForStop,
                stopping: false,
                wrote_any: false,
            }),
            r.1@ == Order::LookForStop,
    {
        (
            WriterLoop {
                writer,
                phase: Phase::LookingForStop,
                stopping: false,
                wrote_any: false,
            },
            Action::LookForStop,
        )
    }

    /// Takes note of a failure.
    fn note(&mut self, succeeded: bool)
        ensures
            *final(self) == old(self).after(succeeded),
    {
        if !succeeded {
            let _first: bool = self.writer.fail();
        }
    }

    /// Ends a pass.
    fn rest(&mut self) -> (r: Action)
        ensures
            (*final(self), r@) == old(self).rested(),
    {
        match writer::rest_after(self.stopping, self.wrote_any) {
            Rest::Continue => {
                self.phase = Phase::LookingForStop;
                Action::LookForStop
            },
            Rest::Sleep => {
                self.phase = Phase::Sleeping;
                Action::Sleep
            },
            Rest::Stop => if self.writer.failed {
                self.phase = Phase::Finished;
                Action::Finish
            } else {
                self.phase = Phase::SyncingLast;
                Action::Sync
            },
        }
    }

    /// Tells the thread the same thing again.
    fn repeat(&mut self) -> (r: Action)
        ensures
            (*final(self), r@) == old(self).repeated(),
    {
        match self.phase {
            Phase::LookingForStop => Action::LookForStop,
            Phase::TakingRecord => Action::TakeRecord,
            Phase::Writing { .. } => {
                self.note(false);
                self.phase = Phase::TakingRecord;
                Action::TakeRecord
            },
            Phase::SyncingFull => Action::Sync,
            Phase::Creating => Action::Create(self.writer.next_index()),
            Phase::AskingFlushAge => Action::AskFlushAge,
            Phase::Flushing => Action::Flush,
            Phase::AskingSyncAge => Action::AskSyncAge,
            Phase::Syncing => Action::Sync,
            Phase::Sleeping => Action::Sleep,
            Phase::SyncingLast => Action::Sync,
            Phase::Finished => Action::Finish,
        }
    }

    /// What the thread does next, given what came of what it was told to do.
    pub fn step(
        &mut self,
        event: Event<'_>,
        flush_every: Duration,
        sync_every: Duration,
    ) -> (r: Action)
        ensures
            (*final(self), r@) == old(self).next(event, flush_every, sync_every),
    {
        match (self.phase, event) {
            (Phase::LookingForStop, Event::Stopping(stopping)) => {
                self.stopping = stopping;
                self.wrote_any = false;
                self.phase = Phase::TakingRecord;
                Action::TakeRecord
            },
            (Phase::TakingRecord, Event::Record(record)) => {
                self.wrote_any = true;
                match self.writer.take(record) {
                    Some(bytes) => {
                        self.phase = Phase::Writing { len: record.len() };
                        Action::Write(bytes)
                    },
                    None => Action::TakeRecord,
                }
            },
            (Phase::TakingRecord, Event::Empty) => if self.writer.is_segment_full() {
                self.phase = Phase::SyncingFull;
                Action::Sync
            } else {
                self.phase = Phase::AskingFlushAge;
                Action::AskFlushAge
            },
            (Phase::Writing { len }, Event::Done(succeeded)) => {
                if succeeded {
                    self.writer.wrote(len);
                } else {
                    self.note(false);
                }
                self.phase = Phase::TakingRecord;
                Action::TakeRecord
            },
            (Phase::SyncingFull, Event::Done(succeeded)) => if succeeded {
                self.phase = Phase::Creating;
                Action::Create(self.writer.next_index())
            } else {
                self.note(false);
                self.phase = Phase::AskingFlushAge;
                Action::AskFlushAge
            },
            (Phase::Creating, Event::Done(succeeded)) => {
                if succeeded {
                    self.writer.rotated();
                } else {
                    self.note(false);
                }
                self.phase = Phase::AskingFlushAge;
                Action::AskFlushAge
            },
            (Phase::AskingFlushAge, Event::Age(age)) => if !self.writer.failed && writer::is_due(
                age,
                flush_every,
            ) {
                self.phase = Phase::Flushing;
                Action::Flush
            } else {
                self.phase = Phase::AskingSyncAge;
                Action::AskSyncAge
            },
            (Phase::Flushing, Event::Done(succeeded)) => {
                self.note(succeeded);
                self.phase = Phase::AskingSyncAge;
                Action::AskSyncAge
            },
            (Phase::AskingSyncAge, Event::Age(age)) => if !self.writer.failed && writer::is_due(
                age,
                sync_every,
            ) {
                self.phase = Phase::Syncing;
                Action::Sync
            } else {
                self.rest()
            },
            (Phase::Syncing, Event::Done(succeeded)) => {
                self.note(succeeded);
                self.rest()
            },
            (Phase::Sleeping, Event::Done(_)) => {
                self.phase = Phase::LookingForStop;
                Action::LookForStop
            },
            (Phase::SyncingLast, Event::Done(succeeded)) => {
                self.note(succeeded);
                self.phase = Phase::Finished;
                Action::Finish
            },
            _ => self.repeat(),
        }
    }
}

/// Nothing is done to the files after a failure, and the failure stays.
pub proof fn law_files_are_left_alone_after_a_failure(
    state: WriterLoop,
    event: Event<'_>,
    flush_every: Duration,
    sync_every: Duration,
)
    requires
        state.writer.failed,
        !(state.phase is Writing || state.phase is SyncingFull || state.phase is Creating
            || state.phase is Flushing || state.phase is Syncing || state.phase is SyncingLast),
    ensures
        ({
            let (after, order) = state.next(event, flush_every, sync_every);
            &&& after.writer.failed
            &&& !(order is Write || order is Create || order is Flush || order is Sync)
            &&& !(after.phase is Writing || after.phase is SyncingFull || after.phase is Creating
                || after.phase is Flushing || after.phase is Syncing || after.phase is SyncingLast)
        }),
{
}

/// The thread ends only after a pass that began when it was already to stop and that found the
/// ring empty, and unless a file operation failed everything is synced before that.
pub proof fn law_the_writer_stops_only_when_the_ring_is_empty(
    state: WriterLoop,
    event: Event<'_>,
    flush_every: Duration,
    sync_every: Duration,
)
    requires
        !(state.phase is Finished || state.phase is SyncingLast),
    ensures
        ({
            let (after, order) = state.next(event, flush_every, sync_every);
            &&& after.phase is Finished || after.phase is SyncingLast ==> state.stopping
                && !state.wrote_any
            &&& after.phase is Finished ==> after.writer.failed
            &&& after.phase is SyncingLast ==> order is Sync
        }),
{
}

} // verus!

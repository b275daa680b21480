//! What each step of the writer's loop promises.

use crate::journal::writer::JournalWriter;
use crate::journal::writer_loop::{Event, Order, Phase, WriterLoop};
use crate::time;
use std::time::Duration;
use vstd::prelude::*;

verus! {

/// A count after `n` more, which stops at what a `u64` holds.
pub open spec fn raised(before: u64, after: u64, n: int) -> bool {
    if before + n <= 0xffff_ffff_ffff_ffff {
        after == before + n
    } else {
        after == 0xffff_ffff_ffff_ffff
    }
}

/// Whether a number is the next one after another, which stops at what a `u32` holds.
pub open spec fn next_number(before: u32, after: u32) -> bool {
    if before < 0xffff_ffff {
        after == before + 1
    } else {
        after == 0xffff_ffff
    }
}

/// Whether two writers have the same counts and are at the same place of the same segment.
pub open spec fn same_place(a: JournalWriter, b: JournalWriter) -> bool {
    &&& a.index == b.index
    &&& a.segment_len == b.segment_len
    &&& a.limit == b.limit
    &&& a.stats == b.stats
}

/// Whether the loop waits for the outcome of an operation on the files.
pub open spec fn at_the_files(phase: Phase) -> bool {
    match phase {
        Phase::Writing { .. } => true,
        Phase::SyncingFull => true,
        Phase::Creating => true,
        Phase::Flushing => true,
        Phase::Syncing => true,
        Phase::SyncingLast => true,
        _ => false,
    }
}

/// An operation on the files that fails makes the journal a failed one, without counting
/// anything. Nothing that happens later makes it whole again, and nothing but a failed operation
/// makes it fail.
pub proof fn law_a_failure_is_remembered(
    state: WriterLoop,
    event: Event<'_>,
    flush_every: Duration,
    sync_every: Duration,
)
    ensures
        ({
            let after = state.next(event, flush_every, sync_every).0;
            &&& state.writer.failed ==> after.writer.failed
            &&& at_the_files(state.phase) && event == Event::Done(false) ==> after.writer.failed
                && same_place(state.writer, after.writer)
            &&& event == Event::Done(true) ==> after.writer.failed == state.writer.failed
            &&& !at_the_files(state.phase) ==> after.writer.failed == state.writer.failed
        }),
{
}

/// A record counts as written, with its length, once its write has succeeded, and as lost when it
/// is taken after a failure. A segment counts once it has been created: the writer is then behind
/// its file header. No other step changes a count or moves the writer.
pub proof fn law_steps_count_what_they_did(
    state: WriterLoop,
    event: Event<'_>,
    flush_every: Duration,
    sync_every: Duration,
)
    ensures
        ({
            let before = state.writer;
            let after = state.next(event, flush_every, sync_every).0.writer;
            &&& after.limit == before.limit
            &&& after.stats.dropped == before.stats.dropped
            &&& if let (Phase::Writing { len }, Event::Done(true)) = (state.phase, event) {
                &&& raised(before.stats.records, after.stats.records, 1)
                &&& raised(before.stats.bytes, after.stats.bytes, len as int)
                &&& raised(before.segment_len, after.segment_len, len as int)
                &&& after.index == before.index
                &&& after.stats.segments == before.stats.segments
                &&& after.stats.lost_after_failure == before.stats.lost_after_failure
            } else if state.phase is TakingRecord && event is Record && before.failed {
                &&& raised(before.stats.lost_after_failure, after.stats.lost_after_failure, 1)
                &&& after.index == before.index
                &&& after.segment_len == before.segment_len
                &&& after.stats.segments == before.stats.segments
                &&& after.stats.records == before.stats.records
                &&& after.stats.bytes == before.stats.bytes
            } else if state.phase is Creating && event == Event::Done(true) {
                &&& after.segment_len == 32
                &&& next_number(before.index, after.index)
                &&& next_number(before.stats.segments, after.stats.segments)
                &&& after.stats.records == before.stats.records
                &&& after.stats.bytes == before.stats.bytes
                &&& after.stats.lost_after_failure == before.stats.lost_after_failure
            } else {
                same_place(before, after)
            }
        }),
{
}

/// Every record that is taken from an intact journal's ring is written, and the next one is taken
/// once that has been tried.
pub proof fn law_records_are_written_as_they_are_taken(
    state: WriterLoop,
    record: &[u8],
    succeeded: bool,
    flush_every: Duration,
    sync_every: Duration,
)
    requires
        state.phase is TakingRecord,
    ensures
        ({
            let (taken, order) = state.next(Event::Record(record), flush_every, sync_every);
            let (tried, then) = taken.next(Event::Done(succeeded), flush_every, sync_every);
            &&& taken.wrote_any
            &&& taken.stopping == state.stopping
            &&& state.writer.failed ==> taken.phase is TakingRecord && order is TakeRecord
            &&& !state.writer.failed ==> {
                &&& order is Write
                &&& taken.phase == (Phase::Writing { len: record@.len() as usize })
                &&& tried.phase is TakingRecord
                &&& then is TakeRecord
            }
        }),
{
}

/// A segment that has reached its limit when the ring is empty is synced, and the segment with
/// the next number follows it. One that has not reached it, or that can no longer be written, is
/// kept. There is no other way to a new segment.
pub proof fn law_full_segments_are_followed_by_the_next(
    state: WriterLoop,
    event: Event<'_>,
    flush_every: Duration,
    sync_every: Duration,
)
    ensures
        state.phase is TakingRecord ==> ({
            let (emptied, order) = state.next(Event::Empty, flush_every, sync_every);
            let full = !state.writer.failed && state.writer.segment_len >= state.writer.limit;
            let then = emptied.next(Event::Done(true), flush_every, sync_every).1;
            &&& full ==> order is Sync && then is Create && next_number(
                state.writer.index,
                then->Create_0,
            )
            &&& !full ==> order is AskFlushAge
        }),
        state.next(event, flush_every, sync_every).1 is Create ==> state.phase is SyncingFull
            || state.phase is Creating,
        state.next(event, flush_every, sync_every).0.phase is SyncingFull ==> state.phase is SyncingFull
            || state.phase is TakingRecord && event is Empty && state.writer.segment_len
            >= state.writer.limit,
{
}

/// An intact journal is flushed when the last flush was at least `flush_every` ago, and synced
/// when the last sync was at least `sync_every` ago. Neither happens sooner.
pub proof fn law_flushes_and_syncs_come_when_due(
    state: WriterLoop,
    age: Duration,
    flush_every: Duration,
    sync_every: Duration,
)
    ensures
        ({
            let order = state.next(Event::Age(age), flush_every, sync_every).1;
            &&& state.phase is AskingFlushAge ==> {
                &&& !state.writer.failed && time::span_nanos(age) >= time::span_nanos(flush_every)
                    ==> order is Flush
                &&& state.writer.failed || time::span_nanos(age) < time::span_nanos(flush_every)
                    ==> order is AskSyncAge
            }
            &&& state.phase is AskingSyncAge && !state.writer.failed ==> {
                &&& time::span_nanos(age) >= time::span_nanos(sync_every) ==> order is Sync
                    && state.next(Event::Age(age), flush_every, sync_every).0.phase is Syncing
                &&& time::span_nanos(age) < time::span_nanos(sync_every) ==>
                    state.next(Event::Age(age), flush_every, sync_every).0.phase !is Syncing
            }
        }),
{
}

/// The order in which a pass asks: after the ring, the flush, and after the flush the sync,
/// whatever came of each.
pub proof fn law_a_pass_sees_to_both(
    state: WriterLoop,
    succeeded: bool,
    flush_every: Duration,
    sync_every: Duration,
)
    ensures
        state.phase is Creating ==> state.next(
            Event::Done(succeeded),
            flush_every,
            sync_every,
        ).1 is AskFlushAge,
        state.phase is SyncingFull && !succeeded ==> state.next(
            Event::Done(succeeded),
            flush_every,
            sync_every,
        ).1 is AskFlushAge,
        state.phase is Flushing ==> state.next(
            Event::Done(succeeded),
            flush_every,
            sync_every,
        ).1 is AskSyncAge,
{
}

/// A pass begins with a look at whether the journal is to stop, and then empties the ring. When
/// it is over, one that found records is followed at once by another, and one that found none by
/// a rest, or, where the journal was to stop when it began, by the end: an intact journal is
/// synced before that.
pub proof fn law_passes_follow_one_another_until_the_stop(
    state: WriterLoop,
    stopping: bool,
    succeeded: bool,
    flush_every: Duration,
    sync_every: Duration,
)
    ensures
        state.phase is LookingForStop ==> ({
            let (looked, order) = state.next(Event::Stopping(stopping), flush_every, sync_every);
            looked.stopping == stopping && !looked.wrote_any && looked.phase is TakingRecord
                && order is TakeRecord && looked.writer == state.writer
        }),
        state.phase is Syncing ==> ({
            let order = state.next(Event::Done(succeeded), flush_every, sync_every).1;
            let last = state.next(Event::Done(succeeded), flush_every, sync_every).0.phase;
            let failed = state.writer.failed || !succeeded;
            &&& state.wrote_any ==> order is LookForStop
            &&& !state.wrote_any && !state.stopping ==> order is Sleep
            &&& !state.wrote_any && state.stopping && failed ==> order is Finish
            &&& !state.wrote_any && state.stopping && !failed ==> order is Sync
                && last is SyncingLast
        }),
        state.phase is AskingSyncAge && state.writer.failed ==> forall|age: Duration|
            ({
                let order = (#[trigger] state.next(Event::Age(age), flush_every, sync_every)).1;
                &&& state.wrote_any ==> order is LookForStop
                &&& !state.wrote_any && !state.stopping ==> order is Sleep
                &&& !state.wrote_any && state.stopping ==> order is Finish
            }),
        state.phase is AskingSyncAge && !state.writer.failed ==> forall|age: Duration|
            time::span_nanos(age) < time::span_nanos(sync_every) ==> ({
                let (after, order) = #[trigger] state.next(
                    Event::Age(age),
                    flush_every,
                    sync_every,
                );
                &&& state.wrote_any ==> order is LookForStop
                &&& !state.wrote_any && !state.stopping ==> order is Sleep
                &&& !state.wrote_any && state.stopping ==> order is Sync
                    && after.phase is SyncingLast
            }),
        state.phase is Sleeping ==> state.next(
            Event::Done(succeeded),
            flush_every,
            sync_every,
        ).1 is LookForStop,
        state.phase is SyncingLast ==> state.next(
            Event::Done(succeeded),
            flush_every,
            sync_every,
        ).1 is Finish,
{
}

/// Whether an event is an answer to what the thread was last told to do.
pub open spec fn answers(phase: Phase, event: Event<'_>) -> bool {
    match phase {
        Phase::LookingForStop => event is Stopping,
        Phase::TakingRecord => event is Record || event is Empty,
        Phase::AskingFlushAge => event is Age,
        Phase::AskingSyncAge => event is Age,
        Phase::Finished => false,
        _ => event is Done,
    }
}

/// An event that is no answer changes nothing, and the thread is told the same again. A record is
/// not kept, so one whose write was not answered counts as a failed write.
pub proof fn law_other_events_have_it_told_again(
    state: WriterLoop,
    event: Event<'_>,
    flush_every: Duration,
    sync_every: Duration,
)
    requires
        !answers(state.phase, event),
    ensures
        ({
            let (after, order) = state.next(event, flush_every, sync_every);
            &&& state.phase is Writing ==> {
                &&& after.writer.failed
                &&& same_place(state.writer, after.writer)
                &&& after.phase is TakingRecord
                &&& after.stopping == state.stopping
                &&& after.wrote_any == state.wrote_any
                &&& order is TakeRecord
            }
            &&& state.phase !is Writing ==> after == state
            &&& match state.phase {
                Phase::LookingForStop => order is LookForStop,
                Phase::TakingRecord => order is TakeRecord,
                Phase::Writing { .. } => order is TakeRecord,
                Phase::SyncingFull => order is Sync,
                Phase::Creating => order is Create && next_number(
                    state.writer.index,
                    order->Create_0,
                ),
                Phase::AskingFlushAge => order is AskFlushAge,
                Phase::Flushing => order is Flush,
                Phase::AskingSyncAge => order is AskSyncAge,
                Phase::Syncing => order is Sync,
                Phase::Sleeping => order is Sleep,
                Phase::SyncingLast => order is Sync,
                Phase::Finished => order is Finish,
            }
        }),
{
}

} // verus!

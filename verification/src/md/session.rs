//! What a market-data session reports.

use crate::ids::InstrumentId;
use crate::telemetry::histogram::LatencySummary;
use std::time::Duration;
use vstd::prelude::*;

verus! {

/// Counters of a session since it started.
#[derive(Clone, Copy, Debug, PartialEq, Eq, Structural)]
pub struct MdStats {
    /// Messages received.
    pub messages: u64,
    /// Depth updates applied to live books.
    pub deltas_applied: u64,
    /// Books taken down by a gap, invalid data, a crossed book or a verification mismatch.
    pub book_invalidations: u64,
    /// Connections opened.
    pub connections: u64,
    /// Depth snapshots requested, for resyncs and verifications.
    pub snapshots_requested: u64,
    /// Snapshots that brought a book live.
    pub snapshots_applied: u64,
    /// Verifications in which the book matched a fresh snapshot.
    pub verifications_passed: u64,
    /// Verifications in which it did not.
    pub verification_mismatches: u64,
    /// Verifications given up.
    pub verifications_abandoned: u64,
}

impl MdStats {
    /// No events at all.
    pub open spec fn none() -> MdStats {
        MdStats {
            messages: 0,
            deltas_applied: 0,
            book_invalidations: 0,
            connections: 0,
            snapshots_requested: 0,
            snapshots_applied: 0,
            verifications_passed: 0,
            verification_mismatches: 0,
            verifications_abandoned: 0,
        }
    }
}

impl Default for MdStats {
    fn default() -> (r: Self)
        ensures
            r == MdStats::none(),
    {
        MdStats {
            messages: 0,
            deltas_applied: 0,
            book_invalidations: 0,
            connections: 0,
            snapshots_requested: 0,
            snapshots_applied: 0,
            verifications_passed: 0,
            verification_mismatches: 0,
            verifications_abandoned: 0,
        }
    }
}

/// A periodic report of a session.
#[derive(Clone, Copy, Debug)]
pub struct MdReport {
    /// Time since the report before.
    pub interval: Duration,
    /// Counters since the session started.
    pub stats: MdStats,
    /// Time to decode and apply a message, over the interval.
    pub latency: LatencySummary,
    /// The same over the whole session.
    pub latency_total: LatencySummary,
}

/// A change in what a session can be used for.
#[derive(Debug)]
pub enum MdStatus {
    /// An instrument's book went live.
    InstrumentLive(InstrumentId),
    /// An instrument's book went down.
    InstrumentDown {
        /// The instrument.
        instrument: InstrumentId,
        /// Why.
        reason: String,
    },
    /// A snapshot could not be had.
    SnapshotFailed {
        /// The instrument.
        instrument: InstrumentId,
        /// Why.
        reason: String,
    },
    /// The connection was lost.
    Disconnected {
        /// Why.
        reason: String,
    },
    /// A connection is being made.
    Connecting,
    /// A connection was made.
    Connected,
}

/// What replaying a journal counted.
#[derive(Clone, Copy, Debug, PartialEq, Eq, Structural)]
pub struct ReplayReport {
    /// Sessions replayed.
    pub sessions: u64,
    /// Messages applied.
    pub messages: u64,
    /// Snapshots applied.
    pub snapshots: u64,
    /// Verification snapshots seen.
    pub verifications: u64,
    /// Resets applied.
    pub resets: u64,
    /// Records that the journal lacks.
    pub dropped: u64,
    /// Whether the journal ended with an incomplete record.
    pub torn_tail: bool,
}

} // verus!

//! Timestamps and clocks.
//!
//! Two distinct timestamp types prevent mixing clocks: [`MonoTime`] for measuring latency and
//! ordering local events, and [`WallTime`] for comparing with venue timestamps. Pure code
//! receives time from a [`Clock`] instead of reading it, so tests and replays are
//! deterministic.

use core::time::Duration;
use std::time::{Instant, SystemTime, SystemTimeError};
use vstd::prelude::*;

verus! {

/// How many nanoseconds a span of time is.
pub uninterp spec fn span_nanos(span: Duration) -> nat;

/// `Duration::as_nanos` of std: the span in nanoseconds.
pub assume_specification[ Duration::as_nanos ](span: &Duration) -> (r: u128)
    ensures
        r == span_nanos(*span),
;

/// `Duration::as_secs` of std: the whole seconds of the span.
pub assume_specification[ Duration::as_secs ](span: &Duration) -> (r: u64)
    ensures
        r == span_nanos(*span) / 1_000_000_000,
;

/// `Duration::from_nanos` of std: the span of that many nanoseconds.
pub assume_specification[ Duration::from_nanos ](nanos: u64) -> (r: Duration)
    ensures
        span_nanos(r) == nanos,
;

/// A reading of the monotonic clock.
#[verifier::external_type_specification]
#[verifier::external_body]
pub struct ExInstant(Instant);

/// `Instant::now` of std. Nothing is claimed of the reading.
pub assume_specification[ Instant::now ]() -> Instant;

/// `Instant::elapsed` of std. Nothing is claimed of how long ago the reading was taken.
pub assume_specification[ Instant::elapsed ](reading: &Instant) -> Duration;

/// A reading of the system clock.
#[verifier::external_type_specification]
#[verifier::external_body]
pub struct ExSystemTime(SystemTime);

/// The error for a reading before another one.
#[verifier::external_type_specification]
#[verifier::external_body]
pub struct ExSystemTimeError(SystemTimeError);

/// `SystemTime::now` of std. Nothing is claimed of the reading.
pub assume_specification[ SystemTime::now ]() -> SystemTime;

/// `SystemTime::duration_since` of std with the Unix epoch. Nothing is claimed of the result,
/// which depends on how the host sets its clock.
#[verifier::external_body]
fn since_epoch(reading: SystemTime) -> Result<Duration, SystemTimeError> {
    reading.duration_since(std::time::UNIX_EPOCH)
}

/// Whether the system clock can show this reading, and `SystemTime::duration_since` this span
/// from the Unix epoch to it.
pub closed spec fn read_since_epoch(
    reading: SystemTime,
    since: Result<Duration, SystemTimeError>,
) -> bool {
    call_ensures(SystemTime::now, (), reading) && call_ensures(since_epoch, (reading,), since)
}

/// Whether a reading of the system clock can be this span after the Unix epoch; `None` stands
/// for one before it.
pub open spec fn epoch_span_read(span: Option<Duration>) -> bool {
    exists|reading: SystemTime, since: Result<Duration, SystemTimeError>| #[trigger]
        read_since_epoch(reading, since) && span == since.ok()
}

/// A span in nanoseconds, cut off at the largest timestamp.
pub open spec fn clamped(nanos: nat) -> u64 {
    if nanos > u64::MAX {
        u64::MAX
    } else {
        nanos as u64
    }
}

/// A span in nanoseconds, cut off at the largest timestamp (about 584 years).
pub fn clamped_nanos(span: Duration) -> (r: u64)
    ensures
        r == clamped(span_nanos(span)),
{
    let nanos: u128 = span.as_nanos();
    if nanos > u64::MAX as u128 {
        u64::MAX
    } else {
        nanos as u64
    }
}

/// Nanoseconds on the process-local monotonic clock. Only meaningful within one process.
#[derive(Clone, Copy, Debug, PartialEq, Eq, PartialOrd, Ord, Hash, Structural)]
pub struct MonoTime(pub u64);

impl Default for MonoTime {
    fn default() -> (r: Self)
        ensures
            r.0 == 0,
    {
        MonoTime(0)
    }
}

impl MonoTime {
    /// Wraps a nanosecond count.
    pub fn from_nanos(nanos: u64) -> (r: Self)
        ensures
            r.0 == nanos,
    {
        MonoTime(nanos)
    }

    /// The nanosecond count.
    pub fn as_nanos(self) -> (r: u64)
        ensures
            r == self.0,
    {
        self.0
    }

    /// Time elapsed since `earlier`, or zero if `earlier` is later.
    pub fn saturating_since(self, earlier: Self) -> (r: Duration)
        ensures
            span_nanos(r) == (if self.0 > earlier.0 {
                self.0 - earlier.0
            } else {
                0
            }),
    {
        Duration::from_nanos(self.0.saturating_sub(earlier.0))
    }

    /// This timestamp plus `span`, or `None` on overflow.
    pub fn checked_add(self, span: Duration) -> (r: Option<Self>)
        ensures
            match r {
                Some(later) => later.0 == self.0 + span_nanos(span),
                None => self.0 + span_nanos(span) > u64::MAX,
            },
    {
        let nanos: u128 = span.as_nanos();
        if nanos > u64::MAX as u128 {
            return None;
        }
        match self.0.checked_add(nanos as u64) {
            Some(later) => Some(MonoTime(later)),
            None => None,
        }
    }
}

/// Nanoseconds since the Unix epoch on the (chrony-disciplined) system clock.
#[derive(Clone, Copy, Debug, PartialEq, Eq, PartialOrd, Ord, Hash, Structural)]
pub struct WallTime(pub u64);

impl Default for WallTime {
    fn default() -> (r: Self)
        ensures
            r.0 == 0,
    {
        WallTime(0)
    }
}

impl WallTime {
    /// Wraps a nanosecond count.
    pub fn from_nanos(nanos: u64) -> (r: Self)
        ensures
            r.0 == nanos,
    {
        WallTime(nanos)
    }

    /// The nanosecond count.
    pub fn as_nanos(self) -> (r: u64)
        ensures
            r == self.0,
    {
        self.0
    }

    /// Time elapsed since `earlier`, or zero if `earlier` is later.
    pub fn saturating_since(self, earlier: Self) -> (r: Duration)
        ensures
            span_nanos(r) == (if self.0 > earlier.0 {
                self.0 - earlier.0
            } else {
                0
            }),
    {
        Duration::from_nanos(self.0.saturating_sub(earlier.0))
    }

    /// This timestamp plus `span`, or `None` on overflow.
    pub fn checked_add(self, span: Duration) -> (r: Option<Self>)
        ensures
            match r {
                Some(later) => later.0 == self.0 + span_nanos(span),
                None => self.0 + span_nanos(span) > u64::MAX,
            },
    {
        let nanos: u128 = span.as_nanos();
        if nanos > u64::MAX as u128 {
            return None;
        }
        match self.0.checked_add(nanos as u64) {
            Some(later) => Some(WallTime(later)),
            None => None,
        }
    }
}

impl WallTime {
    /// Converts a venue timestamp in Unix milliseconds. `None` on overflow.
    pub fn from_unix_millis(millis: u64) -> (r: Option<Self>)
        ensures
            match r {
                Some(time) => time.0 == millis * 1_000_000,
                None => millis * 1_000_000 > u64::MAX,
            },
    {
        match millis.checked_mul(1_000_000) {
            Some(nanos) => Some(WallTime(nanos)),
            None => None,
        }
    }

    /// The wall time for a span since the Unix epoch.
    ///
    /// A system clock before 1970 is a host fault. It reads as 0, which every freshness
    /// check treats as stale, so the engine fails closed.
    pub fn from_epoch_span(since_epoch: Option<Duration>) -> (r: Self)
        ensures
            r.0 == (match since_epoch {
                Some(span) => clamped(span_nanos(span)),
                None => 0,
            }),
    {
        match since_epoch {
            Some(span) => WallTime(clamped_nanos(span)),
            None => WallTime(0),
        }
    }
}

/// A source of time.
pub trait Clock {
    /// Current monotonic time.
    fn mono(&self) -> MonoTime;

    /// Current wall-clock time.
    fn wall(&self) -> WallTime;
}

/// The real system clocks.
#[derive(Clone, Copy, Debug)]
pub struct SystemClock {
    origin: Instant,
}

impl SystemClock {
    /// The reading that monotonic time counts from.
    pub closed spec fn origin(self) -> Instant {
        self.origin
    }

    /// Creates a clock whose monotonic time starts near zero now.
    pub fn new() -> (r: Self)
        ensures
            call_ensures(Instant::now, (), r.origin()),
    {
        SystemClock { origin: Instant::now() }
    }
}

impl Default for SystemClock {
    fn default() -> (r: Self)
        ensures
            call_ensures(Instant::now, (), r.origin()),
    {
        SystemClock::new()
    }
}

impl Clock for SystemClock {
    fn mono(&self) -> (r: MonoTime)
        ensures
            exists|elapsed: Duration|
                call_ensures(Instant::elapsed, (&self.origin(),), elapsed) && r.0 == clamped(
                    #[trigger] span_nanos(elapsed),
                ),
    {
        let elapsed: Duration = self.origin.elapsed();
        MonoTime(clamped_nanos(elapsed))
    }

    fn wall(&self) -> (r: WallTime)
        ensures
            exists|span: Option<Duration>| #[trigger]
                epoch_span_read(span) && r.0 == (match span {
                    Some(span) => clamped(span_nanos(span)),
                    None => 0,
                }),
    {
        let reading: SystemTime = SystemTime::now();
        let since: Result<Duration, SystemTimeError> = since_epoch(reading);
        assert(read_since_epoch(reading, since));
        assert(epoch_span_read(since.ok()));
        match since {
            Ok(span) => WallTime::from_epoch_span(Some(span)),
            Err(_) => WallTime::from_epoch_span(None),
        }
    }
}

/// A clock moved by hand, for tests, simulation and replay.
#[derive(Debug)]
pub struct ManualClock {
    mono: u64,
    wall: u64,
}

impl Default for ManualClock {
    fn default() -> (r: Self)
        ensures
            r.mono_nanos() == 0,
            r.wall_nanos() == 0,
    {
        ManualClock { mono: 0, wall: 0 }
    }
}

/// The sum of two nanosecond counts, cut off at the largest one.
pub open spec fn moved(nanos: u64, span: nat) -> u64 {
    clamped(nanos as nat + clamped(span) as nat)
}

impl ManualClock {
    /// The monotonic time it shows.
    pub closed spec fn mono_nanos(self) -> u64 {
        self.mono
    }

    /// The wall-clock time it shows.
    pub closed spec fn wall_nanos(self) -> u64 {
        self.wall
    }

    /// Creates a clock at the given times.
    pub fn new(mono: MonoTime, wall: WallTime) -> (r: Self)
        ensures
            r.mono_nanos() == mono.0,
            r.wall_nanos() == wall.0,
    {
        ManualClock { mono: mono.0, wall: wall.0 }
    }

    /// Moves both clocks forward by `span`, saturating at the maximum.
    pub fn advance(&mut self, span: Duration)
        ensures
            final(self).mono_nanos() == moved(old(self).mono_nanos(), span_nanos(span)),
            final(self).wall_nanos() == moved(old(self).wall_nanos(), span_nanos(span)),
    {
        let nanos: u64 = clamped_nanos(span);
        self.mono = self.mono.saturating_add(nanos);
        self.wall = self.wall.saturating_add(nanos);
    }

    /// Sets the wall clock, for example to replay a recorded timestamp.
    pub fn set_wall(&mut self, wall: WallTime)
        ensures
            final(self).wall_nanos() == wall.0,
            final(self).mono_nanos() == old(self).mono_nanos(),
    {
        self.wall = wall.0;
    }
}

impl Clock for ManualClock {
    fn mono(&self) -> (r: MonoTime)
        ensures
            r.0 == self.mono_nanos(),
    {
        MonoTime(self.mono)
    }

    fn wall(&self) -> (r: WallTime)
        ensures
            r.0 == self.wall_nanos(),
    {
        WallTime(self.wall)
    }
}

/// A span that a timestamp can hold is kept to the nanosecond, and a longer one becomes the
/// largest timestamp.
pub proof fn law_spans_are_kept_to_the_nanosecond(nanos: nat)
    ensures
        nanos <= 0xffff_ffff_ffff_ffff ==> clamped(nanos) == nanos,
        nanos > 0xffff_ffff_ffff_ffff ==> clamped(nanos) == 0xffff_ffff_ffff_ffff,
{
}

/// Moving a clock forward adds the span, and stops at the largest timestamp. Two moves are one by
/// both spans, and no move goes back.
pub proof fn law_clocks_move_by_the_span(nanos: u64, span: nat, then: nat)
    ensures
        nanos + span <= 0xffff_ffff_ffff_ffff ==> moved(nanos, span) == nanos + span,
        nanos + span > 0xffff_ffff_ffff_ffff ==> moved(nanos, span) == 0xffff_ffff_ffff_ffff,
        moved(moved(nanos, span), then) == moved(nanos, span + then),
        moved(nanos, span) >= nanos,
{
}

} // verus!

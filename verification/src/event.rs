//! Envelope for events crossing thread boundaries.

use crate::time::{Clock, MonoTime, WallTime};
use vstd::prelude::*;

verus! {

/// A value with the local times at which it was received.
///
/// Every inbound venue event is stamped once, as close to the socket read as possible. The
/// monotonic stamp drives latency measurement; the wall stamp is compared with venue
/// timestamps and written to the journal.
#[derive(Clone, Copy, Debug, PartialEq, Eq)]
pub struct Stamped<T> {
    /// Monotonic receive time.
    pub mono: MonoTime,
    /// Wall-clock receive time.
    pub wall: WallTime,
    /// The event.
    pub value: T,
}

impl<T> Stamped<T> {
    /// Stamps `value` with the current time of `clock`.
    pub fn now<C: Clock>(clock: &C, value: T) -> (r: Self)
        ensures
            r.value == value,
            call_ensures(C::mono, (clock,), r.mono),
            call_ensures(C::wall, (clock,), r.wall),
    {
        Stamped { mono: clock.mono(), wall: clock.wall(), value }
    }
}

} // verus!

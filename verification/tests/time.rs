//! Timestamps and clocks.

use bowst::time::{clamped_nanos, Clock, ManualClock, MonoTime, SystemClock, WallTime};
use std::time::Duration;

#[test]
fn system_clock_is_monotonic() {
    let clock = SystemClock::new();
    let a = clock.mono();
    let b = clock.mono();
    assert!(b >= a);
    assert!(clock.wall() > WallTime::from_unix_millis(1_700_000_000_000).unwrap());
}

#[test]
fn manual_clock_advances_both_clocks() {
    let mut clock = ManualClock::new(MonoTime::from_nanos(10), WallTime::from_nanos(1_000));
    clock.advance(Duration::from_nanos(5));
    assert_eq!(clock.mono(), MonoTime::from_nanos(15));
    assert_eq!(clock.wall(), WallTime::from_nanos(1_005));
    assert_eq!(
        clock.mono().saturating_since(MonoTime::from_nanos(10)),
        Duration::from_nanos(5)
    );
    assert_eq!(
        MonoTime::from_nanos(1).saturating_since(MonoTime::from_nanos(9)),
        Duration::ZERO
    );
}

#[test]
fn converts_venue_millis() {
    assert_eq!(
        WallTime::from_unix_millis(1_500),
        Some(WallTime::from_nanos(1_500_000_000))
    );
    assert_eq!(WallTime::from_unix_millis(u64::MAX), None);
}

#[test]
fn wall_time_can_step_back_alone() {
    let mut clock = ManualClock::new(MonoTime::from_nanos(10), WallTime::from_nanos(1_000));
    clock.set_wall(WallTime::from_nanos(400));
    assert_eq!(clock.mono(), MonoTime::from_nanos(10));
    assert_eq!(clock.wall(), WallTime::from_nanos(400));
    clock.advance(Duration::MAX);
    assert_eq!(clock.mono(), MonoTime::from_nanos(u64::MAX));
    assert_eq!(MonoTime::from_nanos(u64::MAX).checked_add(Duration::from_nanos(1)), None);
}

#[test]
fn spans_since_the_epoch_become_wall_times() {
    assert_eq!(WallTime::from_epoch_span(None), WallTime::from_nanos(0));
    assert_eq!(
        WallTime::from_epoch_span(Some(Duration::from_nanos(7))),
        WallTime::from_nanos(7)
    );
    assert_eq!(clamped_nanos(Duration::MAX), u64::MAX);
}

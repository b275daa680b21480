//! The loop of the journal's writer thread.

use bowst::journal::writer::{frame, frame_with, JournalWriter};
use bowst::journal::writer_loop::{Action, Event, Phase, WriterLoop};
use std::time::Duration;

const FLUSH: Duration = Duration::from_millis(100);
const SYNC: Duration = Duration::from_secs(1);

fn step(state: &mut WriterLoop, event: Event<'_>) -> String {
    match state.step(event, FLUSH, SYNC) {
        Action::Write(bytes) => format!("write {}", bytes.len()),
        other => format!("{other:?}"),
    }
}

fn start(limit: u64) -> WriterLoop {
    let (state, first) = WriterLoop::new(JournalWriter::new(7, limit));
    assert!(matches!(first, Action::LookForStop));
    state
}

#[test]
fn a_pass_writes_then_flushes_and_syncs_when_due() {
    let mut state = start(1_000);
    let record = [1_u8; 40];
    assert_eq!(step(&mut state, Event::Stopping(false)), "TakeRecord");
    assert_eq!(step(&mut state, Event::Record(&record)), "write 40");
    assert_eq!(step(&mut state, Event::Done(true)), "TakeRecord");
    assert_eq!(step(&mut state, Event::Empty), "AskFlushAge");
    assert_eq!(step(&mut state, Event::Age(Duration::from_millis(100))), "Flush");
    assert_eq!(step(&mut state, Event::Done(true)), "AskSyncAge");
    assert_eq!(step(&mut state, Event::Age(Duration::from_millis(999))), "LookForStop");
    assert_eq!(state.writer.stats.records, 1);
    assert_eq!(state.writer.stats.bytes, 40);
    // The next pass finds nothing: not stopping, so it sleeps.
    assert_eq!(step(&mut state, Event::Stopping(false)), "TakeRecord");
    assert_eq!(step(&mut state, Event::Empty), "AskFlushAge");
    assert_eq!(step(&mut state, Event::Age(Duration::ZERO)), "AskSyncAge");
    assert_eq!(step(&mut state, Event::Age(Duration::from_secs(1))), "Sync");
    assert_eq!(step(&mut state, Event::Done(true)), "Sleep");
    assert_eq!(step(&mut state, Event::Done(true)), "LookForStop");
}

#[test]
fn it_stops_after_a_pass_that_found_nothing() {
    let mut state = start(1_000);
    let record = [1_u8; 40];
    assert_eq!(step(&mut state, Event::Stopping(true)), "TakeRecord");
    assert_eq!(step(&mut state, Event::Record(&record)), "write 40");
    assert_eq!(step(&mut state, Event::Done(true)), "TakeRecord");
    assert_eq!(step(&mut state, Event::Empty), "AskFlushAge");
    assert_eq!(step(&mut state, Event::Age(Duration::ZERO)), "AskSyncAge");
    assert_eq!(step(&mut state, Event::Age(Duration::ZERO)), "LookForStop");
    assert_eq!(step(&mut state, Event::Stopping(true)), "TakeRecord");
    assert_eq!(step(&mut state, Event::Empty), "AskFlushAge");
    assert_eq!(step(&mut state, Event::Age(Duration::ZERO)), "AskSyncAge");
    assert_eq!(step(&mut state, Event::Age(Duration::ZERO)), "Sync");
    assert_eq!(step(&mut state, Event::Done(true)), "Finish");
    let stats = state.writer.finish(5).unwrap();
    assert_eq!((stats.records, stats.dropped, stats.segments), (1, 5, 1));
}

#[test]
fn a_full_segment_is_synced_before_the_next_one_is_created() {
    let mut state = start(72);
    let record = [1_u8; 40];
    step(&mut state, Event::Stopping(false));
    step(&mut state, Event::Record(&record));
    step(&mut state, Event::Done(true));
    assert_eq!(step(&mut state, Event::Empty), "Sync");
    assert_eq!(step(&mut state, Event::Done(true)), "Create(8)");
    assert_eq!(step(&mut state, Event::Done(true)), "AskFlushAge");
    assert_eq!((state.writer.index, state.writer.segment_len), (8, 32));
    assert_eq!(state.writer.stats.segments, 2);
}

#[test]
fn files_are_left_alone_after_a_failure() {
    let mut state = start(72);
    let record = [1_u8; 40];
    step(&mut state, Event::Stopping(true));
    step(&mut state, Event::Record(&record));
    assert_eq!(step(&mut state, Event::Done(false)), "TakeRecord");
    assert!(state.writer.failed);
    assert_eq!(step(&mut state, Event::Record(&record)), "TakeRecord");
    assert_eq!(step(&mut state, Event::Empty), "AskFlushAge");
    assert_eq!(step(&mut state, Event::Age(Duration::from_secs(9))), "AskSyncAge");
    assert_eq!(step(&mut state, Event::Age(Duration::from_secs(9))), "LookForStop");
    step(&mut state, Event::Stopping(true));
    step(&mut state, Event::Empty);
    step(&mut state, Event::Age(Duration::ZERO));
    assert_eq!(step(&mut state, Event::Age(Duration::ZERO)), "Finish");
    assert_eq!(state.writer.stats.lost_after_failure, 1);
    assert_eq!(state.writer.finish(0), None);
}

#[test]
fn an_event_out_of_place_has_the_action_repeated() {
    let mut state = start(72);
    assert_eq!(step(&mut state, Event::Empty), "LookForStop");
    step(&mut state, Event::Stopping(false));
    assert_eq!(step(&mut state, Event::Age(SYNC)), "TakeRecord");
    assert_eq!(state.phase, Phase::TakingRecord);
}

#[test]
fn records_are_framed_with_their_checksums() {
    let framed = frame(&[3; 48]);
    assert_eq!(framed.len(), 48);
    assert_eq!(framed[..24], [3; 24]);
    assert_eq!(framed[32..], [3; 16]);
    assert_ne!(framed[24..32], [3; 8]);
}

#[test]
fn records_are_framed_with_the_checksums_given() {
    let framed = frame_with(&[3; 33], 0x0102_0304, 0x0506_0708);
    assert_eq!(framed[..24], [3; 24]);
    assert_eq!(framed[24..], [4, 3, 2, 1, 8, 7, 6, 5, 3]);
}

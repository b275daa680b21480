//! Keeping a book in step with its feed.

use bowst::book::{
    BookError, BookSync, DeltaOutcome, Level, LevelUpdate, SeqRange, SyncConfig, SyncError,
};
use bowst::units::{Price, Qty, Side};

const CONFIG: SyncConfig = SyncConfig {
    levels_per_side: 16,
    buffered_messages: 8,
    buffered_updates: 32,
};

fn up(side: Side, price: i64, qty: i64) -> LevelUpdate {
    LevelUpdate {
        side,
        price: Price::new(price),
        qty: Qty::new(qty),
    }
}

fn lvl(price: i64, qty: i64) -> Level {
    Level {
        price: Price::new(price),
        qty: Qty::new(qty),
    }
}

fn range(first: u64, last: u64) -> SeqRange {
    SeqRange::new(first, last).unwrap()
}

fn live_at(seq: u64) -> BookSync {
    let mut sync = BookSync::new(CONFIG).unwrap();
    sync.on_snapshot(seq, &[lvl(99, 5)], &[lvl(101, 5)]).unwrap();
    sync
}

fn best(sync: &BookSync) -> (i64, i64, i64, i64) {
    let book = sync.book().unwrap();
    let (bid, ask) = (book.best_bid().unwrap(), book.best_ask().unwrap());
    (
        bid.price.get(),
        bid.qty.get(),
        ask.price.get(),
        ask.qty.get(),
    )
}

#[test]
fn rejects_inverted_range() {
    assert_eq!(SeqRange::new(5, 4), None);
}

#[test]
fn book_hidden_until_snapshot() {
    let mut sync = BookSync::new(CONFIG).unwrap();
    assert!(sync.book().is_none());
    assert_eq!(
        sync.on_delta(range(1, 2), &[up(Side::Buy, 99, 1)]),
        Ok(DeltaOutcome::Buffered)
    );
    assert!(sync.book().is_none());
}

#[test]
fn binance_style_bridging_replays_buffer() {
    let mut sync = BookSync::new(CONFIG).unwrap();
    // Buffered before the snapshot: 10..=12 is covered by it, 13..=15 bridges it.
    sync.on_delta(range(10, 12), &[up(Side::Buy, 99, 1)])
        .unwrap();
    sync.on_delta(range(13, 15), &[up(Side::Buy, 99, 7)])
        .unwrap();
    sync.on_delta(range(16, 16), &[up(Side::Sell, 101, 3)])
        .unwrap();
    sync.on_snapshot(14, &[lvl(99, 5)], &[lvl(101, 5)]).unwrap();
    assert_eq!(best(&sync), (99, 7, 101, 3));
    assert_eq!(sync.last_seq(), Some(16));
    assert_eq!(
        sync.on_delta(range(17, 18), &[up(Side::Sell, 100, 2)]),
        Ok(DeltaOutcome::Applied)
    );
    assert_eq!(best(&sync), (99, 7, 100, 2));
}

#[test]
fn snapshot_newer_than_buffer_goes_live() {
    let mut sync = BookSync::new(CONFIG).unwrap();
    sync.on_delta(range(1, 3), &[up(Side::Buy, 50, 1)]).unwrap();
    sync.on_snapshot(10, &[lvl(99, 5)], &[lvl(101, 5)]).unwrap();
    assert_eq!(sync.last_seq(), Some(10));
    assert_eq!(best(&sync), (99, 5, 101, 5));
    // The next live delta must bridge 11.
    assert_eq!(
        sync.on_delta(range(9, 12), &[up(Side::Buy, 99, 6)]),
        Ok(DeltaOutcome::Applied)
    );
}

#[test]
fn too_old_snapshot_keeps_buffer_for_the_next_one() {
    let mut sync = BookSync::new(CONFIG).unwrap();
    sync.on_delta(range(20, 22), &[up(Side::Buy, 99, 1)])
        .unwrap();
    assert_eq!(
        sync.on_snapshot(10, &[lvl(99, 5)], &[lvl(101, 5)]),
        Err(SyncError::SnapshotTooOld {
            snapshot: 10,
            first_buffered: 20
        })
    );
    assert!(sync.book().is_none());
    sync.on_snapshot(21, &[lvl(99, 5)], &[lvl(101, 5)]).unwrap();
    assert_eq!(best(&sync), (99, 1, 101, 5));
}

#[test]
fn gap_invalidates_and_buffers_the_new_chain() {
    let mut sync = live_at(10);
    assert_eq!(
        sync.on_delta(range(12, 13), &[up(Side::Buy, 98, 1)]),
        Err(SyncError::Gap {
            expected: 11,
            got: range(12, 13)
        })
    );
    assert!(sync.book().is_none());
    assert_eq!(sync.stats().invalidations, 1);
    // The delta that revealed the gap is kept, so a snapshot at 12 bridges it.
    sync.on_snapshot(12, &[lvl(99, 5)], &[lvl(101, 5)]).unwrap();
    assert_eq!(sync.last_seq(), Some(13));
    assert_eq!(sync.book().unwrap().side(Side::Buy).len(), 2);
}

#[test]
fn stale_deltas_are_ignored() {
    let mut sync = live_at(10);
    assert_eq!(
        sync.on_delta(range(5, 10), &[up(Side::Buy, 1, 1)]),
        Ok(DeltaOutcome::Stale)
    );
    assert_eq!(best(&sync), (99, 5, 101, 5));
    assert_eq!(sync.stats().stale_deltas, 1);
}

#[test]
fn crossed_book_invalidates() {
    let mut sync = live_at(10);
    assert_eq!(
        sync.on_delta(range(11, 11), &[up(Side::Buy, 101, 1)]),
        Err(SyncError::Crossed {
            bid: Price::new(101),
            ask: Price::new(101)
        })
    );
    assert!(!sync.is_live());
    let mut fresh = BookSync::new(CONFIG).unwrap();
    assert!(matches!(
        fresh.on_snapshot(1, &[lvl(102, 1)], &[lvl(101, 1)]),
        Err(SyncError::Crossed { .. })
    ));
    assert!(!fresh.is_live());
}

#[test]
fn invalid_data_invalidates() {
    let mut sync = live_at(10);
    assert!(matches!(
        sync.on_delta(range(11, 11), &[up(Side::Buy, 98, -1)]),
        Err(SyncError::Book(BookError::InvalidQty { .. }))
    ));
    assert!(!sync.is_live());
    assert!(matches!(
        sync.on_snapshot(1, &[lvl(99, 1), lvl(99, 2)], &[]),
        Err(SyncError::Book(BookError::DuplicateLevel { .. }))
    ));
    assert!(!sync.is_live());
}

#[test]
fn broken_buffer_chain_keeps_only_the_newest_part() {
    let mut sync = BookSync::new(CONFIG).unwrap();
    sync.on_delta(range(1, 2), &[up(Side::Buy, 1, 1)]).unwrap();
    sync.on_delta(range(5, 6), &[up(Side::Buy, 99, 2)]).unwrap();
    assert_eq!(sync.stats().buffer_resets, 1);
    sync.on_snapshot(5, &[lvl(99, 5)], &[lvl(101, 5)]).unwrap();
    assert_eq!(best(&sync), (99, 2, 101, 5));
}

#[test]
fn buffer_overflow_restarts_the_chain() {
    let mut sync = BookSync::new(SyncConfig {
        buffered_messages: 2,
        ..CONFIG
    })
    .unwrap();
    for seq in 1..=3 {
        sync.on_delta(SeqRange::single(seq), &[up(Side::Buy, 99, 1)])
            .unwrap();
    }
    assert_eq!(sync.stats().buffer_resets, 1);
    // Only message 3 is kept, so a snapshot at 1 is too old.
    assert!(matches!(
        sync.on_snapshot(1, &[lvl(99, 5)], &[lvl(101, 5)]),
        Err(SyncError::SnapshotTooOld {
            first_buffered: 3,
            ..
        })
    ));
    let too_many: Vec<LevelUpdate> = (0..40).map(|i| up(Side::Buy, 10 + i, 1)).collect();
    assert_eq!(
        sync.on_delta(SeqRange::single(4), &too_many),
        Ok(DeltaOutcome::Buffered)
    );
    assert_eq!(sync.stats().buffer_resets, 2);
}

#[test]
fn older_snapshot_while_live_is_ignored() {
    let mut sync = live_at(10);
    sync.on_delta(range(11, 12), &[up(Side::Buy, 99, 8)])
        .unwrap();
    assert_eq!(sync.on_snapshot(11, &[lvl(90, 1)], &[lvl(110, 1)]), Ok(false));
    assert_eq!(best(&sync), (99, 8, 101, 5));
    assert_eq!(sync.last_seq(), Some(12));
    // Same or newer replaces the book.
    assert_eq!(sync.on_snapshot(12, &[lvl(90, 1)], &[lvl(110, 1)]), Ok(true));
    assert_eq!(best(&sync), (90, 1, 110, 1));
}

#[test]
fn reset_waits_for_new_snapshot() {
    let mut sync = live_at(10);
    sync.reset();
    assert!(sync.book().is_none());
    assert_eq!(sync.last_seq(), None);
}

#[test]
fn ranges_with_the_same_ends_are_equal() {
    assert_eq!(SeqRange::new(7, 7), Some(SeqRange::single(7)));
    assert_ne!(SeqRange::new(6, 7), Some(SeqRange::single(7)));
}

#[test]
fn messages_may_carry_any_number_of_updates() {
    let mut sync = BookSync::new(SyncConfig {
        levels_per_side: 1,
        buffered_messages: 4,
        buffered_updates: 8,
    })
    .unwrap();
    // Three numbers without an update, one number with three, then one for the other side.
    sync.on_delta(range(1, 3), &[]).unwrap();
    let moved = [up(Side::Buy, 10, 1), up(Side::Buy, 10, 0), up(Side::Buy, 11, 2)];
    sync.on_delta(range(4, 4), &moved).unwrap();
    sync.on_delta(range(5, 9), &[up(Side::Sell, 12, 3)]).unwrap();
    assert_eq!(sync.on_snapshot(4, &[lvl(11, 2)], &[]), Ok(true));
    assert_eq!(best(&sync), (11, 2, 12, 3));
    assert_eq!(sync.last_seq(), Some(9));
}

//! One side of a book.

use bowst::book::{Applied, BookError, Ladder, Level};
use bowst::units::{Price, Qty, Side};

fn lvl(price: i64, qty: i64) -> Level {
    Level {
        price: Price::new(price),
        qty: Qty::new(qty),
    }
}

fn prices(ladder: &Ladder) -> Vec<i64> {
    ladder.iter().iter().map(|l| l.price.get()).collect()
}

#[test]
fn bids_are_best_highest_and_asks_best_lowest() {
    let mut bids = Ladder::new(Side::Buy, 8).unwrap();
    let mut asks = Ladder::new(Side::Sell, 8).unwrap();
    for p in [100, 102, 101] {
        bids.apply(Price::new(p), Qty::new(1)).unwrap();
        asks.apply(Price::new(p), Qty::new(1)).unwrap();
    }
    assert_eq!(prices(&bids), [102, 101, 100]);
    assert_eq!(prices(&asks), [100, 101, 102]);
    assert_eq!(bids.nth_best(1), Some(lvl(101, 1)));
    assert_eq!(asks.nth_best(3), None);
}

#[test]
fn updates_and_removes_levels() {
    let mut bids = Ladder::new(Side::Buy, 8).unwrap();
    assert_eq!(
        bids.apply(Price::new(10), Qty::new(5)),
        Ok(Applied::Inserted)
    );
    assert_eq!(
        bids.apply(Price::new(10), Qty::new(7)),
        Ok(Applied::Updated)
    );
    assert_eq!(bids.best(), Some(lvl(10, 7)));
    assert_eq!(bids.apply(Price::new(10), Qty::zero()), Ok(Applied::Removed));
    assert_eq!(
        bids.apply(Price::new(10), Qty::zero()),
        Ok(Applied::Unchanged)
    );
    assert!(bids.is_empty());
}

#[test]
fn rejects_invalid_input_without_changing_state() {
    let mut asks = Ladder::new(Side::Sell, 4).unwrap();
    asks.apply(Price::new(5), Qty::new(1)).unwrap();
    assert!(matches!(
        asks.apply(Price::new(0), Qty::new(1)),
        Err(BookError::InvalidPrice { .. })
    ));
    assert!(matches!(
        asks.apply(Price::new(6), Qty::new(-1)),
        Err(BookError::InvalidQty { .. })
    ));
    assert_eq!(prices(&asks), [5]);
    assert_eq!(
        Ladder::new(Side::Buy, 0).unwrap_err(),
        BookError::ZeroCapacity
    );
}

#[test]
fn full_ladder_drops_worst_and_sets_horizon() {
    let mut bids = Ladder::new(Side::Buy, 3).unwrap();
    for p in [100, 101, 102] {
        bids.apply(Price::new(p), Qty::new(1)).unwrap();
    }
    // Better than everything: 100 is dropped, 101 becomes the horizon.
    assert_eq!(
        bids.apply(Price::new(103), Qty::new(1)),
        Ok(Applied::Inserted)
    );
    assert_eq!(prices(&bids), [103, 102, 101]);
    assert_eq!(bids.horizon(), Some(Price::new(101)));
    // Beyond the horizon: ignored, even after room frees up.
    assert_eq!(
        bids.apply(Price::new(100), Qty::new(9)),
        Ok(Applied::BeyondHorizon)
    );
    bids.apply(Price::new(103), Qty::zero()).unwrap();
    assert_eq!(
        bids.apply(Price::new(99), Qty::new(9)),
        Ok(Applied::BeyondHorizon)
    );
    // At the horizon: still exact, so applied.
    assert_eq!(
        bids.apply(Price::new(101), Qty::new(4)),
        Ok(Applied::Updated)
    );
    assert_eq!(prices(&bids), [102, 101]);
}

#[test]
fn full_ladder_ignores_new_worst_level() {
    let mut asks = Ladder::new(Side::Sell, 2).unwrap();
    asks.apply(Price::new(10), Qty::new(1)).unwrap();
    asks.apply(Price::new(11), Qty::new(1)).unwrap();
    assert_eq!(
        asks.apply(Price::new(12), Qty::new(1)),
        Ok(Applied::BeyondHorizon)
    );
    assert_eq!(asks.horizon(), Some(Price::new(11)));
    assert_eq!(prices(&asks), [10, 11]);
}

#[test]
fn load_sorts_and_truncates_to_capacity() {
    let mut bids = Ladder::new(Side::Buy, 3).unwrap();
    bids.load(&[lvl(5, 1), lvl(9, 1), lvl(7, 1), lvl(8, 1), lvl(6, 1)])
        .unwrap();
    assert_eq!(prices(&bids), [9, 8, 7]);
    assert_eq!(bids.horizon(), Some(Price::new(7)));

    bids.load(&[lvl(1, 1), lvl(2, 1)]).unwrap();
    assert_eq!(prices(&bids), [2, 1]);
    assert_eq!(bids.horizon(), None);
}

#[test]
fn load_rejects_bad_snapshots_and_leaves_ladder_empty() {
    let mut asks = Ladder::new(Side::Sell, 8).unwrap();
    assert_eq!(
        asks.load(&[lvl(5, 1), lvl(5, 2)]),
        Err(BookError::DuplicateLevel {
            side: Side::Sell,
            price: Price::new(5)
        })
    );
    assert!(asks.is_empty());
    assert!(matches!(
        asks.load(&[lvl(5, 0)]),
        Err(BookError::InvalidQty { .. })
    ));
    let mut small = Ladder::new(Side::Sell, 1).unwrap();
    assert!(matches!(
        small.load(&[lvl(5, 1), lvl(6, 1), lvl(5, 1)]),
        Err(BookError::DuplicateLevel { .. })
    ));
    assert!(small.is_empty());
}

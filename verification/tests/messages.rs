//! What errors say.

use bowst::book::{BookError, SeqRange, SyncError};
use bowst::bytes_ring::{BytesRingError, WriteError};
use bowst::fixed::FixedError;
use bowst::ids::{InstrumentId, VenueId};
use bowst::instrument::{InstrumentTableError, Symbol};
use bowst::journal::layout::FormatError;
use bowst::journal::ReadError;
use bowst::ring::{Full, RingError};
use bowst::units::{Price, Qty, Side};

#[test]
fn numbers_say_what_is_wrong_with_them() {
    let cases = [
        (FixedError::Empty, "empty number"),
        (FixedError::InvalidChar(3), "invalid character at byte 3"),
        (FixedError::TooManyDecimals, "more than 18 decimal places"),
        (FixedError::ScaleTooLarge, "scale above 36"),
        (FixedError::Overflow, "numeric overflow"),
        (FixedError::NonPositiveIncrement, "increment must be positive"),
        (FixedError::NotMultiple, "value is not a multiple of the increment"),
        (FixedError::BufferTooSmall, "output buffer too small"),
    ];
    for (error, text) in cases {
        assert_eq!(error.to_string(), text);
    }
}

#[test]
fn rings_say_why_they_refuse() {
    assert_eq!(
        RingError::InvalidCapacity(3).to_string(),
        "ring capacity must be a power of two >= 2, got 3"
    );
    assert_eq!(Full(7).to_string(), "ring is full");
    assert_eq!(
        BytesRingError::InvalidCapacity(100).to_string(),
        "capacity must be a power of two between 64 and 2^31, got 100"
    );
    assert_eq!(WriteError::Full.to_string(), "ring is full");
    assert_eq!(
        WriteError::TooLarge { len: 25, max: 24 }.to_string(),
        "record of 25 bytes exceeds the maximum of 24"
    );
}

#[test]
fn instrument_tables_say_why_they_are_refused() {
    assert_eq!(
        InstrumentTableError::NonSequentialId(InstrumentId::new(4)).to_string(),
        "instrument id InstrumentId(4) is out of sequence"
    );
    assert_eq!(
        InstrumentTableError::DuplicateSymbol(VenueId::Binance, Symbol::new("BTCUSDT").unwrap())
            .to_string(),
        "duplicate symbol BTCUSDT on binance"
    );
}

#[test]
fn books_say_why_they_went_down() {
    let (side, price, qty) = (Side::Buy, Price::new(-5), Qty::new(-1));
    assert_eq!(
        BookError::ZeroCapacity.to_string(),
        "book capacity must be at least 1"
    );
    assert_eq!(
        BookError::InvalidPrice { side, price }.to_string(),
        "invalid Buy price Price(-5)"
    );
    assert_eq!(
        BookError::InvalidQty { side, price: Price::new(7), qty }.to_string(),
        "invalid Buy quantity Qty(-1) at Price(7)"
    );
    let duplicate = BookError::DuplicateLevel { side: Side::Sell, price: Price::new(9) };
    assert_eq!(duplicate.to_string(), "duplicate Sell level at Price(9)");
    assert_eq!(SyncError::Book(duplicate).to_string(), duplicate.to_string());
    assert_eq!(
        SyncError::Gap { expected: 4, got: SeqRange::new(6, 8).unwrap() }.to_string(),
        "sequence gap: expected 4, got 6..=8"
    );
    assert_eq!(
        SyncError::SnapshotTooOld { snapshot: 2, first_buffered: 5 }.to_string(),
        "snapshot 2 is older than buffered delta starting at 5"
    );
    assert_eq!(
        SyncError::Crossed { bid: Price::new(10), ask: Price::new(9) }.to_string(),
        "crossed book: bid Price(10) >= ask Price(9)"
    );
}

#[test]
fn journals_say_where_they_are_damaged() {
    let cases = [
        (FormatError::BadFileHeader, "bad file header"),
        (
            FormatError::Checksum { offset: 32 },
            "checksum mismatch in record at byte 32",
        ),
        (
            FormatError::TooLarge { offset: 32, len: 99 },
            "record at byte 32 declares 99 bytes",
        ),
        (
            FormatError::HeaderChecksum { offset: 32 },
            "header checksum mismatch in record at byte 32",
        ),
    ];
    for (error, text) in cases {
        assert_eq!(error.to_string(), text);
        assert_eq!(
            ReadError::Corrupt { file: 0, error }.message("a/b"),
            format!("a/b: {text}")
        );
    }
    assert_eq!(
        ReadError::Truncated { file: 0, offset: 7 }.message("a/b"),
        "a/b: truncated record at byte 7"
    );
    assert_eq!(
        ReadError::MissingSegment { expected: 2, found: 3 }.message(""),
        "segment 2 is missing (found 3)"
    );
}

#[test]
fn prices_and_quantities_are_shown_as_they_debug() {
    let (side, price, qty) = (Side::Sell, Price::new(i64::MIN), Qty::new(i64::MAX));
    assert_eq!(
        BookError::InvalidQty { side, price, qty }.to_string(),
        format!("invalid {side:?} quantity {qty:?} at {price:?}")
    );
}

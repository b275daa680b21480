//! What the messages of errors name.

use crate::book::sync::SyncError;
use crate::book::BookError;
use crate::bytes_ring::{BytesRingError, WriteError};
use crate::fixed::FixedError;
use crate::ids;
use crate::instrument::InstrumentTableError;
use crate::journal::layout::FormatError;
use crate::journal::reader::ReadError;
use crate::ring::RingError;
use crate::text;
use crate::units::{Price, Side};
use vstd::prelude::*;

verus! {

broadcast use {text::lemma_holds_its_end, text::lemma_holds_more, text::lemma_holds_itself};

/// A number in decimal, as short as it can be.
pub open spec fn figure(n: nat) -> Seq<char> {
    text::chars_of(text::digits(n, 1))
}

/// The name of a side.
pub open spec fn side_name(side: Side) -> Seq<char> {
    if side == Side::Buy {
        "Buy"@
    } else {
        "Sell"@
    }
}

/// The messages of errors about numbers name the byte or the limit that they are about.
pub proof fn law_number_errors_name_the_byte(at: usize)
    ensures
        text::holds(
            FixedError::InvalidChar(at).text(),
            "invalid character at byte "@ + figure(at as nat),
        ),
        text::holds(FixedError::TooManyDecimals.text(), "more than "@ + figure(18)),
        text::holds(FixedError::ScaleTooLarge.text(), "scale above "@ + figure(36)),
{
}

/// The messages of errors about rings name the capacity that was asked for, and the lengths.
pub proof fn law_ring_errors_name_the_size(capacity: usize, len: usize, max: usize)
    ensures
        text::holds(
            RingError::InvalidCapacity(capacity).text(),
            "ring capacity must be a power of two >= 2, got "@ + figure(capacity as nat),
        ),
        text::holds(
            BytesRingError::InvalidCapacity(capacity).text(),
            "capacity must be a power of two between "@ + figure(64),
        ),
        text::holds(
            BytesRingError::InvalidCapacity(capacity).text(),
            " and 2^31, got "@ + figure(capacity as nat),
        ),
        text::holds((WriteError::TooLarge { len, max }).text(), "record of "@ + figure(len as nat)),
        text::holds(
            (WriteError::TooLarge { len, max }).text(),
            " bytes exceeds the maximum of "@ + figure(max as nat),
        ),
{
}

/// The messages of errors about instruments name the one that is wrong.
pub proof fn law_instrument_errors_name_the_instrument(error: InstrumentTableError)
    ensures
        match error {
            InstrumentTableError::NonSequentialId(id) => text::holds(
                error.text(),
                "instrument id InstrumentId("@ + figure(id.0 as nat),
            ),
            InstrumentTableError::DuplicateSymbol(venue, symbol) => text::holds(
                error.text(),
                "duplicate symbol "@ + text::chars_of(symbol@),
            ) && text::holds(error.text(), " on "@ + ids::venue_name(venue)),
        },
{
}

/// The messages of errors about books name the side, the price in ticks, and the quantity in lots
/// where that is wrong.
pub proof fn law_book_errors_name_the_level(error: BookError)
    ensures
        match error {
            BookError::ZeroCapacity => error.text() == "book capacity must be at least 1"@,
            BookError::InvalidPrice { side, price } => text::holds(
                error.text(),
                "invalid "@ + side_name(side),
            ) && shows_price(error.text(), price),
            BookError::InvalidQty { side, price, qty } => text::holds(
                error.text(),
                "invalid "@ + side_name(side),
            ) && shows_price(error.text(), price) && text::holds(
                error.text(),
                "Qty("@ + text::signed_text(qty.0 as int) + ")"@,
            ),
            BookError::DuplicateLevel { side, price } => text::holds(
                error.text(),
                "duplicate "@ + side_name(side),
            ) && shows_price(error.text(), price),
        },
{
    let message = error.text();
    match error {
        BookError::ZeroCapacity => {},
        BookError::InvalidPrice { side, price } => {
            lemma_ends_with("invalid "@ + side_name(side) + " price "@, price_shown(price));
        },
        BookError::InvalidQty { side, price, qty } => {
            let shown = "Qty("@ + text::signed_text(qty.0 as int) + ")"@;
            let start = "invalid "@ + side_name(side) + " quantity "@;
            lemma_ends_with(start, shown);
            lemma_ends_with(start + shown + " at "@, price_shown(price));
            assert(text::holds(start + shown, shown));
            assert(message == start + shown + " at "@ + price_shown(price));
        },
        BookError::DuplicateLevel { side, price } => {
            lemma_ends_with("duplicate "@ + side_name(side) + " level at "@, price_shown(price));
        },
    }
}

/// A price as it is shown, in ticks.
pub open spec fn price_shown(price: Price) -> Seq<char> {
    "Price("@ + text::signed_text(price.0 as int) + ")"@
}

/// Whether a message shows a price.
pub open spec fn shows_price(message: Seq<char>, price: Price) -> bool {
    text::holds(message, price_shown(price))
}

/// Text holds what it ends with.
proof fn lemma_ends_with(start: Seq<char>, end: Seq<char>)
    ensures
        text::holds(start + end, end),
{
    let at = start.len() as int;
    assert((start + end).subrange(at, at + end.len()) =~= end);
}

/// The messages of errors about sequences name the numbers, the prices, or what is wrong with the
/// book.
pub proof fn law_sync_errors_name_the_numbers(error: SyncError)
    ensures
        match error {
            SyncError::Gap { expected, got } => {
                &&& text::holds(error.text(), "sequence gap: expected "@ + figure(expected as nat))
                &&& text::holds(error.text(), ", got "@ + figure(got@.first as nat))
                &&& text::holds(error.text(), "..="@ + figure(got@.last as nat))
            },
            SyncError::SnapshotTooOld { snapshot, first_buffered } => {
                &&& text::holds(error.text(), "snapshot "@ + figure(snapshot as nat))
                &&& text::holds(
                    error.text(),
                    " is older than buffered delta starting at "@ + figure(first_buffered as nat),
                )
            },
            SyncError::Crossed { bid, ask } => {
                &&& text::holds(error.text(), "crossed book: bid "@ + price_shown(bid))
                &&& text::holds(error.text(), " >= ask "@ + price_shown(ask))
            },
            SyncError::Book(inner) => error.text() == inner.text(),
        },
{
}

/// The messages of errors about a journal name the file and the byte, or the segment that is
/// missing and the one that was found.
pub proof fn law_journal_errors_name_the_place(error: ReadError, path: Seq<char>)
    ensures
        match error {
            ReadError::Corrupt { error: inner, .. } => {
                &&& error.text(path) == path + ": "@ + inner.text()
                &&& match inner {
                    FormatError::BadFileHeader => true,
                    FormatError::Checksum { offset } => text::holds(
                        inner.text(),
                        "checksum mismatch in record at byte "@ + figure(offset as nat),
                    ),
                    FormatError::TooLarge { offset, len } => text::holds(
                        inner.text(),
                        "record at byte "@ + figure(offset as nat),
                    ) && text::holds(inner.text(), " declares "@ + figure(len as nat)),
                    FormatError::HeaderChecksum { offset } => text::holds(
                        inner.text(),
                        "header checksum mismatch in record at byte "@ + figure(offset as nat),
                    ),
                }
            },
            ReadError::Truncated { offset, .. } => {
                &&& text::holds(error.text(path), path + ": truncated record at byte "@)
                &&& text::holds(
                    error.text(path),
                    ": truncated record at byte "@ + figure(offset as nat),
                )
            },
            ReadError::MissingSegment { expected, found } => {
                &&& text::holds(error.text(path), "segment "@ + figure(expected as nat))
                &&& text::holds(error.text(path), " is missing (found "@ + figure(found as nat))
            },
        },
{
}

} // verus!

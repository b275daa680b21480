//! What errors say, for logs and for the people who read them.

use crate::book::sync::SyncError;
use crate::book::BookError;
use crate::bytes_ring::{BytesRingError, WriteError, MIN_CAPACITY};
use crate::fixed::{FixedError, MAX_PARSE_SCALE, MAX_SCALE};
use crate::ids;
use crate::instrument::InstrumentTableError;
use crate::journal::layout::FormatError;
use crate::journal::reader::ReadError;
use crate::ring::{Full, RingError};
use crate::text;
use crate::units::{Price, Qty, Side};
use vstd::prelude::*;

verus! {

/// A count in decimal.
pub open spec fn count_text(n: int) -> Seq<char> {
    text::number_text(n as nat, 1)
}

/// How a side is shown.
pub open spec fn side_text(side: Side) -> Seq<char> {
    match side {
        Side::Buy => "Buy"@,
        Side::Sell => "Sell"@,
    }
}

/// How a price is shown, in ticks.
pub open spec fn price_text(price: Price) -> Seq<char> {
    "Price("@ + text::signed_text(price.0 as int) + ")"@
}

/// How a quantity is shown, in lots.
pub open spec fn qty_text(qty: Qty) -> Seq<char> {
    "Qty("@ + text::signed_text(qty.0 as int) + ")"@
}

/// Appends a count.
fn push_count(out: &mut String, n: u64)
    ensures
        final(out)@ == old(out)@ + count_text(n as int),
{
    text::push_number(out, n, 1);
}

/// Appends a side.
fn push_side(out: &mut String, side: Side)
    ensures
        final(out)@ == old(out)@ + side_text(side),
{
    match side {
        Side::Buy => {
            out.append("Buy");
        },
        Side::Sell => {
            out.append("Sell");
        },
    }
}

/// Appends a price.
fn push_price(out: &mut String, price: Price)
    ensures
        final(out)@ == old(out)@ + price_text(price),
{
    let ticks: String = text::signed(price.0);
    out.append("Price(");
    out.append(ticks.as_str());
    out.append(")");
    assert(out@ =~= old(out)@ + price_text(price));
}

/// Appends a quantity.
fn push_qty(out: &mut String, qty: Qty)
    ensures
        final(out)@ == old(out)@ + qty_text(qty),
{
    let lots: String = text::signed(qty.0);
    out.append("Qty(");
    out.append(lots.as_str());
    out.append(")");
    assert(out@ =~= old(out)@ + qty_text(qty));
}

impl FixedError {
    /// What the error says.
    pub open spec fn text(self) -> Seq<char> {
        match self {
            FixedError::Empty => "empty number"@,
            FixedError::InvalidChar(at) => "invalid character at byte "@ + count_text(at as int),
            FixedError::TooManyDecimals => "more than "@ + count_text(MAX_PARSE_SCALE as int)
                + " decimal places"@,
            FixedError::ScaleTooLarge => "scale above "@ + count_text(MAX_SCALE as int),
            FixedError::Overflow => "numeric overflow"@,
            FixedError::NonPositiveIncrement => "increment must be positive"@,
            FixedError::NotMultiple => "value is not a multiple of the increment"@,
            FixedError::BufferTooSmall => "output buffer too small"@,
        }
    }

    /// What the error says.
    pub fn to_string(&self) -> (r: String)
        ensures
            r@ == self.text(),
    {
        let mut out: String = String::new();
        match self {
            FixedError::Empty => {
                out.append("empty number");
            },
            FixedError::InvalidChar(at) => {
                out.append("invalid character at byte ");
                push_count(&mut out, *at as u64);
            },
            FixedError::TooManyDecimals => {
                out.append("more than ");
                push_count(&mut out, MAX_PARSE_SCALE as u64);
                out.append(" decimal places");
            },
            FixedError::ScaleTooLarge => {
                out.append("scale above ");
                push_count(&mut out, MAX_SCALE as u64);
            },
            FixedError::Overflow => {
                out.append("numeric overflow");
            },
            FixedError::NonPositiveIncrement => {
                out.append("increment must be positive");
            },
            FixedError::NotMultiple => {
                out.append("value is not a multiple of the increment");
            },
            FixedError::BufferTooSmall => {
                out.append("output buffer too small");
            },
        }
        assert(out@ =~= self.text());
        out
    }
}

impl RingError {
    /// What the error says.
    pub open spec fn text(self) -> Seq<char> {
        match self {
            RingError::InvalidCapacity(capacity) =>
                "ring capacity must be a power of two >= 2, got "@ + count_text(capacity as int),
        }
    }

    /// What the error says.
    pub fn to_string(&self) -> (r: String)
        ensures
            r@ == self.text(),
    {
        let mut out: String = String::new();
        match self {
            RingError::InvalidCapacity(capacity) => {
                out.append("ring capacity must be a power of two >= 2, got ");
                push_count(&mut out, *capacity as u64);
            },
        }
        assert(out@ =~= self.text());
        out
    }
}

impl<T> Full<T> {
    /// What the error says, whatever was not sent.
    pub fn to_string(&self) -> (r: String)
        ensures
            r@ == "ring is full"@,
    {
        "ring is full".to_owned()
    }
}

impl BytesRingError {
    /// What the error says.
    pub open spec fn text(self) -> Seq<char> {
        match self {
            BytesRingError::InvalidCapacity(capacity) =>
                "capacity must be a power of two between "@ + count_text(MIN_CAPACITY as int)
                + " and 2^31, got "@ + count_text(capacity as int),
        }
    }

    /// What the error says.
    pub fn to_string(&self) -> (r: String)
        ensures
            r@ == self.text(),
    {
        let mut out: String = String::new();
        match self {
            BytesRingError::InvalidCapacity(capacity) => {
                out.append("capacity must be a power of two between ");
                push_count(&mut out, MIN_CAPACITY as u64);
                out.append(" and 2^31, got ");
                push_count(&mut out, *capacity as u64);
            },
        }
        assert(out@ =~= self.text());
        out
    }
}

impl WriteError {
    /// What the error says.
    pub open spec fn text(self) -> Seq<char> {
        match self {
            WriteError::Full => "ring is full"@,
            WriteError::TooLarge { len, max } => "record of "@ + count_text(len as int)
                + " bytes exceeds the maximum of "@ + count_text(max as int),
        }
    }

    /// What the error says.
    pub fn to_string(&self) -> (r: String)
        ensures
            r@ == self.text(),
    {
        let mut out: String = String::new();
        match self {
            WriteError::Full => {
                out.append("ring is full");
            },
            WriteError::TooLarge { len, max } => {
                out.append("record of ");
                push_count(&mut out, *len as u64);
                out.append(" bytes exceeds the maximum of ");
                push_count(&mut out, *max as u64);
            },
        }
        assert(out@ =~= self.text());
        out
    }
}

impl InstrumentTableError {
    /// What the error says.
    pub open spec fn text(self) -> Seq<char> {
        match self {
            InstrumentTableError::NonSequentialId(id) => "instrument id InstrumentId("@
                + count_text(id.0 as int) + ") is out of sequence"@,
            InstrumentTableError::DuplicateSymbol(venue, symbol) => "duplicate symbol "@
                + text::chars_of(symbol@) + " on "@ + ids::venue_name(venue),
        }
    }

    /// What the error says.
    pub fn to_string(&self) -> (r: String)
        ensures
            r@ == self.text(),
    {
        let mut out: String = String::new();
        match self {
            InstrumentTableError::NonSequentialId(id) => {
                out.append("instrument id InstrumentId(");
                push_count(&mut out, id.0 as u64);
                out.append(") is out of sequence");
            },
            InstrumentTableError::DuplicateSymbol(venue, symbol) => {
                let name: String = symbol.to_string();
                out.append("duplicate symbol ");
                out.append(name.as_str());
                out.append(" on ");
                out.append(venue.as_str());
            },
        }
        assert(out@ =~= self.text());
        out
    }
}

impl BookError {
    /// What the error says.
    pub open spec fn text(self) -> Seq<char> {
        match self {
            BookError::ZeroCapacity => "book capacity must be at least 1"@,
            BookError::InvalidPrice { side, price } => "invalid "@ + side_text(side) + " price "@
                + price_text(price),
            BookError::InvalidQty { side, price, qty } => "invalid "@ + side_text(side)
                + " quantity "@ + qty_text(qty) + " at "@ + price_text(price),
            BookError::DuplicateLevel { side, price } => "duplicate "@ + side_text(side)
                + " level at "@ + price_text(price),
        }
    }

    /// What the error says.
    pub fn to_string(&self) -> (r: String)
        ensures
            r@ == self.text(),
    {
        let mut out: String = String::new();
        match self {
            BookError::ZeroCapacity => {
                out.append("book capacity must be at least 1");
            },
            BookError::InvalidPrice { side, price } => {
                out.append("invalid ");
                push_side(&mut out, *side);
                out.append(" price ");
                push_price(&mut out, *price);
            },
            BookError::InvalidQty { side, price, qty } => {
                out.append("invalid ");
                push_side(&mut out, *side);
                out.append(" quantity ");
                push_qty(&mut out, *qty);
                out.append(" at ");
                push_price(&mut out, *price);
            },
            BookError::DuplicateLevel { side, price } => {
                out.append("duplicate ");
                push_side(&mut out, *side);
                out.append(" level at ");
                push_price(&mut out, *price);
            },
        }
        assert(out@ =~= self.text());
        out
    }
}

impl SyncError {
    /// What the error says.
    pub open spec fn text(self) -> Seq<char> {
        match self {
            SyncError::Gap { expected, got } => "sequence gap: expected "@ + count_text(
                expected as int,
            ) + ", got "@ + count_text(got@.first as int) + "..="@ + count_text(got@.last as int),
            SyncError::SnapshotTooOld { snapshot, first_buffered } => "snapshot "@ + count_text(
                snapshot as int,
            ) + " is older than buffered delta starting at "@ + count_text(first_buffered as int),
            SyncError::Crossed { bid, ask } => "crossed book: bid "@ + price_text(bid)
                + " >= ask "@ + price_text(ask),
            SyncError::Book(error) => error.text(),
        }
    }

    /// What the error says.
    pub fn to_string(&self) -> (r: String)
        ensures
            r@ == self.text(),
    {
        let mut out: String = String::new();
        match self {
            SyncError::Gap { expected, got } => {
                out.append("sequence gap: expected ");
                push_count(&mut out, *expected);
                out.append(", got ");
                push_count(&mut out, got.first());
                out.append("..=");
                push_count(&mut out, got.last());
            },
            SyncError::SnapshotTooOld { snapshot, first_buffered } => {
                out.append("snapshot ");
                push_count(&mut out, *snapshot);
                out.append(" is older than buffered delta starting at ");
                push_count(&mut out, *first_buffered);
            },
            SyncError::Crossed { bid, ask } => {
                out.append("crossed book: bid ");
                push_price(&mut out, *bid);
                out.append(" >= ask ");
                push_price(&mut out, *ask);
            },
            SyncError::Book(error) => {
                out = error.to_string();
            },
        }
        assert(out@ =~= self.text());
        out
    }
}

impl FormatError {
    /// What the error says.
    pub open spec fn text(self) -> Seq<char> {
        match self {
            FormatError::BadFileHeader => "bad file header"@,
            FormatError::Checksum { offset } => "checksum mismatch in record at byte "@
                + count_text(offset as int),
            FormatError::TooLarge { offset, len } => "record at byte "@ + count_text(offset as int)
                + " declares "@ + count_text(len as int) + " bytes"@,
            FormatError::HeaderChecksum { offset } =>
                "header checksum mismatch in record at byte "@ + count_text(offset as int),
        }
    }

    /// What the error says.
    pub fn to_string(&self) -> (r: String)
        ensures
            r@ == self.text(),
    {
        let mut out: String = String::new();
        match self {
            FormatError::BadFileHeader => {
                out.append("bad file header");
            },
            FormatError::Checksum { offset } => {
                out.append("checksum mismatch in record at byte ");
                push_count(&mut out, *offset);
            },
            FormatError::TooLarge { offset, len } => {
                out.append("record at byte ");
                push_count(&mut out, *offset);
                out.append(" declares ");
                push_count(&mut out, *len);
                out.append(" bytes");
            },
            FormatError::HeaderChecksum { offset } => {
                out.append("header checksum mismatch in record at byte ");
                push_count(&mut out, *offset);
            },
        }
        assert(out@ =~= self.text());
        out
    }
}

impl ReadError {
    /// What the error says of the file at `path`.
    pub open spec fn text(self, path: Seq<char>) -> Seq<char> {
        match self {
            ReadError::Corrupt { error, .. } => path + ": "@ + error.text(),
            ReadError::Truncated { offset, .. } => path + ": truncated record at byte "@
                + count_text(offset as int),
            ReadError::MissingSegment { expected, found } => "segment "@ + count_text(
                expected as int,
            ) + " is missing (found "@ + count_text(found as int) + ")"@,
        }
    }

    /// What the error says, given the path of the file that it is about, if it is about one.
    pub fn message(&self, path: &str) -> (r: String)
        ensures
            r@ == self.text(path@),
    {
        let mut out: String = String::new();
        match self {
            ReadError::Corrupt { error, .. } => {
                let reason: String = error.to_string();
                out.append(path);
                out.append(": ");
                out.append(reason.as_str());
            },
            ReadError::Truncated { offset, .. } => {
                out.append(path);
                out.append(": truncated record at byte ");
                push_count(&mut out, *offset);
            },
            ReadError::MissingSegment { expected, found } => {
                out.append("segment ");
                push_count(&mut out, *expected as u64);
                out.append(" is missing (found ");
                push_count(&mut out, *found as u64);
                out.append(")");
            },
        }
        assert(out@ =~= self.text(path@));
        out
    }
}

} // verus!

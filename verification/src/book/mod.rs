//! Level-2 order books.
//!
//! - [`Ladder`]: one side of a book, sorted and bounded.
//! - [`Book`]: bids and asks for one instrument.

pub mod book;
pub mod ladder;
pub mod laws;
pub mod load_laws;
pub mod stream_laws;
pub mod sync_laws;
pub mod sync;

pub use book::{Book, LevelUpdate};
pub use ladder::{Applied, Ladder, Level};
pub use sync::{BookSync, DeltaOutcome, SeqRange, SyncConfig, SyncError, SyncStats};

use crate::units::{Price, Qty, Side};
use vstd::prelude::*;

verus! {

/// Invalid book input or configuration.
#[derive(Clone, Copy, Debug, PartialEq, Eq, Structural)]
pub enum BookError {
    /// A ladder must hold at least one level.
    ZeroCapacity,
    /// Prices must be positive.
    InvalidPrice {
        /// Side of the update.
        side: Side,
        /// Offending price.
        price: Price,
    },
    /// Quantities must not be negative, and snapshot levels must be positive.
    InvalidQty {
        /// Side of the update.
        side: Side,
        /// Price of the update.
        price: Price,
        /// Offending quantity.
        qty: Qty,
    },
    /// A snapshot listed the same price twice on one side.
    DuplicateLevel {
        /// Side of the snapshot.
        side: Side,
        /// Repeated price.
        price: Price,
    },
}

} // verus!

//! A two-sided level-2 order book.

use crate::book::ladder::{Applied, Ladder, LadderView, Level};
use crate::book::BookError;
use crate::units::{Price, Qty, Side};
use vstd::prelude::*;

verus! {

/// A change to one price level. A quantity of zero removes the level.
#[derive(Clone, Copy, Debug, PartialEq, Eq, Hash, Structural)]
pub struct LevelUpdate {
    /// Book side.
    pub side: Side,
    /// Price in ticks.
    pub price: Price,
    /// New total quantity in lots; zero removes the level.
    pub qty: Qty,
}

/// What a book holds: its two ladders.
#[verifier::ext_equal]
pub struct BookView {
    pub bids: LadderView,
    pub asks: LadderView,
}

impl BookView {
    /// Both ladders keep their invariant and stand on their side.
    pub open spec fn wf(self) -> bool {
        &&& self.bids.wf()
        &&& self.asks.wf()
        &&& self.bids.side == Side::Buy
        &&& self.asks.side == Side::Sell
    }

    /// An empty book of `levels_per_side` levels a side.
    pub open spec fn empty(levels_per_side: nat) -> BookView {
        BookView {
            bids: LadderView {
                side: Side::Buy,
                capacity: levels_per_side,
                horizon: None,
                levels: Map::empty(),
            },
            asks: LadderView {
                side: Side::Sell,
                capacity: levels_per_side,
                horizon: None,
                levels: Map::empty(),
            },
        }
    }

    /// One side of the book.
    pub open spec fn side(self, side: Side) -> LadderView {
        match side {
            Side::Buy => self.bids,
            Side::Sell => self.asks,
        }
    }

    /// The book with both sides emptied.
    pub open spec fn cleared(self) -> BookView {
        BookView { bids: self.bids.cleared(), asks: self.asks.cleared() }
    }

    /// The best bid and ask, if the bid is at or above the ask.
    pub open spec fn crossing(self) -> Option<(Price, Price)> {
        match (self.bids.best(), self.asks.best()) {
            (Some(bid), Some(ask)) => if bid.price.0 >= ask.price.0 {
                Some((bid.price, ask.price))
            } else {
                None
            },
            _ => None,
        }
    }

    /// The book after one update: only the ladder of the update's side can change.
    pub open spec fn apply(self, update: LevelUpdate) -> (BookView, Result<Applied, BookError>) {
        let (ladder, result) = self.side(update.side).apply(update.price, update.qty);
        match update.side {
            Side::Buy => (BookView { bids: ladder, ..self }, result),
            Side::Sell => (BookView { asks: ladder, ..self }, result),
        }
    }

    /// The book after a snapshot of both sides: empty if either side is refused, with the
    /// error of the bids if they are.
    pub open spec fn load(self, bids: Seq<Level>, asks: Seq<Level>) -> (
        BookView,
        Result<(), BookError>,
    ) {
        let (loaded_bids, bids_result) = self.bids.load(bids);
        let (loaded_asks, asks_result) = self.asks.load(asks);
        if bids_result is Err {
            (self.cleared(), bids_result)
        } else if asks_result is Err {
            (self.cleared(), asks_result)
        } else {
            (BookView { bids: loaded_bids, asks: loaded_asks }, Ok(()))
        }
    }
}

/// Bids and asks for one instrument. Pure data: no sequencing, I/O or time. See
/// [`crate::book::BookSync`] for keeping it in step with a venue feed.
#[derive(Clone, Debug)]
pub struct Book {
    bids: Ladder,
    asks: Ladder,
}

impl View for Book {
    type V = BookView;

    closed spec fn view(&self) -> BookView {
        BookView { bids: self.bids@, asks: self.asks@ }
    }
}

impl Book {
    /// What the constructor establishes and every method keeps.
    pub closed spec fn wf(self) -> bool {
        &&& self.bids.wf()
        &&& self.asks.wf()
        &&& self.bids@.side == Side::Buy
        &&& self.asks@.side == Side::Sell
    }

    /// A well-formed book has a well-formed view.
    pub proof fn lemma_wf(self)
        requires
            self.wf(),
        ensures
            self@.wf(),
    {
        self.bids.lemma_wf();
        self.asks.lemma_wf();
    }

    /// Creates an empty book holding at most `levels_per_side` levels on each side.
    ///
    /// # Errors
    /// [`BookError::ZeroCapacity`] if `levels_per_side` is zero.
    pub fn new(levels_per_side: usize) -> (r: Result<Self, BookError>)
        ensures
            match r {
                Ok(book) => {
                    &&& levels_per_side > 0
                    &&& book.wf()
                    &&& book@ == BookView::empty(levels_per_side as nat)
                },
                Err(error) => levels_per_side == 0 && error == BookError::ZeroCapacity,
            },
    {
        let bids: Ladder = Ladder::new(Side::Buy, levels_per_side)?;
        let asks: Ladder = Ladder::new(Side::Sell, levels_per_side)?;
        Ok(Book { bids, asks })
    }

    /// One side of the book.
    pub fn side(&self, side: Side) -> (r: &Ladder)
        requires
            self.wf(),
        ensures
            r.wf(),
            r@ == self@.side(side),
    {
        match side {
            Side::Buy => &self.bids,
            Side::Sell => &self.asks,
        }
    }

    /// Best bid.
    pub fn best_bid(&self) -> (r: Option<Level>)
        requires
            self.wf(),
        ensures
            r == self@.bids.best(),
    {
        self.bids.best()
    }

    /// Best ask.
    pub fn best_ask(&self) -> (r: Option<Level>)
        requires
            self.wf(),
        ensures
            r == self@.asks.best(),
    {
        self.asks.best()
    }

    /// Whether the best bid is at or above the best ask. A crossed book cannot come from a
    /// correct feed, so it means lost or misapplied updates.
    pub fn is_crossed(&self) -> (r: bool)
        requires
            self.wf(),
        ensures
            r == self@.crossing() is Some,
    {
        match (self.best_bid(), self.best_ask()) {
            (Some(bid), Some(ask)) => bid.price.get() >= ask.price.get(),
            _ => false,
        }
    }

    /// Applies one level update.
    ///
    /// # Errors
    /// See [`Ladder::apply`].
    pub fn apply(&mut self, update: LevelUpdate) -> (r: Result<Applied, BookError>)
        requires
            old(self).wf(),
        ensures
            final(self).wf(),
            (final(self)@, r) == old(self)@.apply(update),
    {
        match update.side {
            Side::Buy => self.bids.apply(update.price, update.qty),
            Side::Sell => self.asks.apply(update.price, update.qty),
        }
    }

    /// Replaces both sides with a snapshot.
    ///
    /// # Errors
    /// See [`Ladder::load`]. On error the whole book is left empty.
    pub fn load(&mut self, bids: &[Level], asks: &[Level]) -> (r: Result<(), BookError>)
        requires
            old(self).wf(),
        ensures
            final(self).wf(),
            (final(self)@, r) == old(self)@.load(bids@, asks@),
    {
        let mut result: Result<(), BookError> = self.bids.load(bids);
        if result.is_ok() {
            result = self.asks.load(asks);
        }
        if result.is_err() {
            self.clear();
        }
        result
    }

    /// Empties both sides.
    pub fn clear(&mut self)
        requires
            old(self).wf(),
        ensures
            final(self).wf(),
            final(self)@ == old(self)@.cleared(),
    {
        self.bids.clear();
        self.asks.clear();
    }
}

} // verus!

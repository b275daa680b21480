//! Integer price and quantity types used for all hot-path money math.
//!
//! A [`Price`] is a whole number of an instrument's tick size and a [`Qty`] is a whole number
//! of its lot step. Converting to and from decimals always goes through an
//! [`Increment`] with an explicit [`Rounding`], so rounding decisions are visible in code.

use crate::fixed::{Dec, Decimal, FixedError, Increment, Rounding};
use crate::fixed_laws;
use vstd::prelude::*;

verus! {

/// A price as a whole number of the instrument's tick size.
#[derive(Clone, Copy, Debug, PartialEq, Eq, PartialOrd, Ord, Hash, Structural)]
pub struct Price(pub i64);

impl Default for Price {
    fn default() -> (r: Self)
        ensures
            r.0 == 0,
    {
        Price(0)
    }
}

impl Price {
    /// Zero ticks.
    pub fn zero() -> (r: Self)
        ensures
            r.0 == 0,
    {
        Price(0)
    }

    /// Wraps a whole number of ticks.
    pub fn new(units: i64) -> (r: Self)
        ensures
            r.0 == units,
    {
        Price(units)
    }

    /// The whole number of ticks.
    pub fn get(self) -> (r: i64)
        ensures
            r == self.0,
    {
        self.0
    }

    /// Whether this is zero ticks.
    pub fn is_zero(self) -> (r: bool)
        ensures
            r == (self.0 == 0),
    {
        self.0 == 0
    }

    /// Converts a decimal into ticks of `increment`.
    ///
    /// # Errors
    /// See [`Increment::to_units`].
    pub fn from_dec(value: Dec, increment: Increment, rounding: Rounding) -> (r: Result<
        Self,
        FixedError,
    >)
        ensures
            increment@.is_increment(),
            match r {
                Ok(units) => value@.in_units(increment@, rounding) == Ok::<int, FixedError>(
                    units.0 as int,
                ),
                Err(error) => value@.in_units(increment@, rounding) == Err::<int, FixedError>(
                    error,
                ),
            },
    {
        match increment.to_units(value, rounding) {
            Ok(units) => Ok(Price(units)),
            Err(error) => Err(error),
        }
    }

    /// The exact decimal value, given the instrument's increment.
    pub fn to_dec(self, increment: Increment) -> (r: Dec)
        ensures
            increment@.is_increment(),
            r@ == increment@.of_units(self.0 as int),
    {
        increment.from_units(self.0)
    }

    /// Checked addition. `None` on overflow.
    pub fn checked_add(self, rhs: Self) -> (r: Option<Self>)
        ensures
            match r {
                Some(sum) => sum.0 == self.0 + rhs.0,
                None => !(i64::MIN <= self.0 + rhs.0 <= i64::MAX),
            },
    {
        match self.0.checked_add(rhs.0) {
            Some(sum) => Some(Price(sum)),
            None => None,
        }
    }

    /// Checked subtraction. `None` on overflow.
    pub fn checked_sub(self, rhs: Self) -> (r: Option<Self>)
        ensures
            match r {
                Some(difference) => difference.0 == self.0 - rhs.0,
                None => !(i64::MIN <= self.0 - rhs.0 <= i64::MAX),
            },
    {
        match self.0.checked_sub(rhs.0) {
            Some(difference) => Some(Price(difference)),
            None => None,
        }
    }
}

/// A quantity as a whole number of the instrument's lot step.
#[derive(Clone, Copy, Debug, PartialEq, Eq, PartialOrd, Ord, Hash, Structural)]
pub struct Qty(pub i64);

impl Default for Qty {
    fn default() -> (r: Self)
        ensures
            r.0 == 0,
    {
        Qty(0)
    }
}

impl Qty {
    /// Zero lots.
    pub fn zero() -> (r: Self)
        ensures
            r.0 == 0,
    {
        Qty(0)
    }

    /// Wraps a whole number of lots.
    pub fn new(units: i64) -> (r: Self)
        ensures
            r.0 == units,
    {
        Qty(units)
    }

    /// The whole number of lots.
    pub fn get(self) -> (r: i64)
        ensures
            r == self.0,
    {
        self.0
    }

    /// Whether this is zero lots.
    pub fn is_zero(self) -> (r: bool)
        ensures
            r == (self.0 == 0),
    {
        self.0 == 0
    }

    /// Converts a decimal into lots of `increment`.
    ///
    /// # Errors
    /// See [`Increment::to_units`].
    pub fn from_dec(value: Dec, increment: Increment, rounding: Rounding) -> (r: Result<
        Self,
        FixedError,
    >)
        ensures
            increment@.is_increment(),
            match r {
                Ok(units) => value@.in_units(increment@, rounding) == Ok::<int, FixedError>(
                    units.0 as int,
                ),
                Err(error) => value@.in_units(increment@, rounding) == Err::<int, FixedError>(
                    error,
                ),
            },
    {
        match increment.to_units(value, rounding) {
            Ok(units) => Ok(Qty(units)),
            Err(error) => Err(error),
        }
    }

    /// The exact decimal value, given the instrument's increment.
    pub fn to_dec(self, increment: Increment) -> (r: Dec)
        ensures
            increment@.is_increment(),
            r@ == increment@.of_units(self.0 as int),
    {
        increment.from_units(self.0)
    }

    /// Checked addition. `None` on overflow.
    pub fn checked_add(self, rhs: Self) -> (r: Option<Self>)
        ensures
            match r {
                Some(sum) => sum.0 == self.0 + rhs.0,
                None => !(i64::MIN <= self.0 + rhs.0 <= i64::MAX),
            },
    {
        match self.0.checked_add(rhs.0) {
            Some(sum) => Some(Qty(sum)),
            None => None,
        }
    }

    /// Checked subtraction. `None` on overflow.
    pub fn checked_sub(self, rhs: Self) -> (r: Option<Self>)
        ensures
            match r {
                Some(difference) => difference.0 == self.0 - rhs.0,
                None => !(i64::MIN <= self.0 - rhs.0 <= i64::MAX),
            },
    {
        match self.0.checked_sub(rhs.0) {
            Some(difference) => Some(Qty(difference)),
            None => None,
        }
    }
}

/// Order or book side.
#[derive(Clone, Copy, Debug, PartialEq, Eq, Hash, Structural)]
pub enum Side {
    /// Bid side: buying the base asset.
    Buy,
    /// Ask side: selling the base asset.
    Sell,
}

impl Side {
    /// Whether price `a` is strictly better than `b` on this side of a book: higher for bids,
    /// lower for asks.
    pub open spec fn better(self, a: int, b: int) -> bool {
        match self {
            Side::Buy => a > b,
            Side::Sell => a < b,
        }
    }

    /// Whether price `a` is strictly better than price `b` on this side.
    pub open spec fn outranks(self, a: Price, b: Price) -> bool {
        self.better(a.0 as int, b.0 as int)
    }

    /// The other side.
    pub fn opposite(self) -> (r: Self)
        ensures
            r != self,
    {
        match self {
            Side::Buy => Side::Sell,
            Side::Sell => Side::Buy,
        }
    }

    /// `+1` for buys, `-1` for sells: the sign of the base-asset change when filled.
    pub fn sign(self) -> (r: i64)
        ensures
            r == (match self {
                Side::Buy => 1int,
                Side::Sell => -1int,
            }),
    {
        match self {
            Side::Buy => 1,
            Side::Sell => -1,
        }
    }

    /// Rounding that keeps a quote on the passive side of a price: bids round down,
    /// asks round up.
    pub fn passive_rounding(self) -> (r: Rounding)
        ensures
            r == passive_rounding(self),
    {
        match self {
            Side::Buy => Rounding::Down,
            Side::Sell => Rounding::Up,
        }
    }

    /// Whether price `a` is strictly more aggressive than `b` on this side: higher for
    /// buys, lower for sells.
    pub fn is_more_aggressive(self, a: Price, b: Price) -> (r: bool)
        ensures
            r == self.better(a.0 as int, b.0 as int),
    {
        match self {
            Side::Buy => a.0 > b.0,
            Side::Sell => a.0 < b.0,
        }
    }
}

/// The rounding that keeps a quote passive: bids round down, asks round up.
pub open spec fn passive_rounding(side: Side) -> Rounding {
    match side {
        Side::Buy => Rounding::Down,
        Side::Sell => Rounding::Up,
    }
}

/// Exact quote-currency value of `qty` at `price`.
///
/// # Errors
/// [`FixedError::Overflow`] if the product does not fit.
pub fn notional(price: Price, tick: Increment, qty: Qty, lot: Increment) -> (r: Result<
    Dec,
    FixedError,
>)
    ensures
        crate::fixed::decimal_result(r) == tick@.of_units(price.0 as int).times(
            lot@.of_units(qty.0 as int),
        ),
        r matches Err(error) ==> error == FixedError::Overflow,
{
    price.to_dec(tick).checked_mul(qty.to_dec(lot))
}

/// Passive rounding never moves a quote past fair value: a bid ends at or below it, an ask at
/// or above it.
pub proof fn law_passive_rounding_stays_off_fair_value(fair: Decimal, tick: Decimal, units: int)
    requires
        tick.is_increment(),
    ensures
        fair.in_units(tick, passive_rounding(Side::Buy)) == Ok::<int, FixedError>(units)
            ==> !fair.less(tick.of_units(units)),
        fair.in_units(tick, passive_rounding(Side::Sell)) == Ok::<int, FixedError>(units)
            ==> !tick.of_units(units).less(fair),
{
    fixed_laws::lemma_rounding_sides(fair, tick, units);
}

/// A passive price is found for every fair value that can be written in ticks: rounding to the
/// passive side never asks for a whole number of them.
pub proof fn law_passive_rounding_takes_any_value(fair: Decimal, tick: Decimal, side: Side)
    requires
        tick.is_increment(),
    ensures
        fair.in_units(tick, passive_rounding(side)) != Err::<int, FixedError>(
            FixedError::NotMultiple,
        ),
        fair.in_units(tick, Rounding::Exact) is Ok ==> fair.in_units(tick, passive_rounding(side))
            == fair.in_units(tick, Rounding::Exact),
{
}

/// One price is better than another where it is closer to the other side of the market: higher
/// for a buyer, lower for a seller.
pub proof fn law_better_prices_cost_the_holder_more(a: Price, b: Price)
    ensures
        Side::Buy.outranks(a, b) <==> a.0 > b.0,
        Side::Sell.outranks(a, b) <==> a.0 < b.0,
{
}

} // verus!

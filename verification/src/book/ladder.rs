//! One side of a level-2 book: price levels sorted with the best level last.

use crate::book::BookError;
use crate::units::{Price, Qty, Side};
use core::cmp::Ordering;
use vstd::prelude::*;

verus! {

/// Levels at the top of the book checked linearly before binary search.
const TOP_SCAN: usize = 16;

/// Aggregate resting quantity at one price.
#[derive(Clone, Copy, Debug, PartialEq, Eq, Hash, Structural)]
pub struct Level {
    /// Price in ticks.
    pub price: Price,
    /// Total quantity in lots. Always positive inside a book.
    pub qty: Qty,
}

/// What [`Ladder::apply`] did with an update.
#[derive(Clone, Copy, Debug, PartialEq, Eq, Structural)]
pub enum Applied {
    /// A new level was added.
    Inserted,
    /// An existing level's quantity changed.
    Updated,
    /// An existing level was removed.
    Removed,
    /// Nothing changed: a removal of a price that had no level.
    Unchanged,
    /// The price lies beyond the [horizon](Ladder::horizon) and was ignored.
    BeyondHorizon,
}

/// What a ladder holds: its configuration, the quantity at every held price, and the worst
/// price known exactly once levels had to be dropped.
#[verifier::ext_equal]
pub struct LadderView {
    pub side: Side,
    pub capacity: nat,
    pub horizon: Option<int>,
    pub levels: Map<int, int>,
}

/// Whether `p` is the worst price of `levels` on `side`.
pub open spec fn is_worst(side: Side, levels: Map<int, int>, p: int) -> bool {
    &&& levels.contains_key(p)
    &&& forall|q: int| #[trigger] levels.contains_key(q) ==> q == p || side.better(q, p)
}

/// The worst price of `levels` on `side`.
pub open spec fn worst_price(side: Side, levels: Map<int, int>) -> int {
    choose|p: int| is_worst(side, levels, p)
}

/// Whether `p` is the best price of `levels` on `side`.
pub open spec fn is_best(side: Side, levels: Map<int, int>, p: int) -> bool {
    &&& levels.contains_key(p)
    &&& forall|q: int| #[trigger] levels.contains_key(q) ==> q == p || side.better(p, q)
}

/// The best price of `levels` on `side`.
pub open spec fn best_price(side: Side, levels: Map<int, int>) -> int {
    choose|p: int| is_best(side, levels, p)
}

/// Whether `ranked` lists exactly `levels`, strictly from best to worst.
pub open spec fn is_ranking(side: Side, ranked: Seq<Level>, levels: Map<int, int>) -> bool {
    &&& forall|i: int, j: int|
        0 <= i < j < ranked.len() ==> side.better(
            (#[trigger] ranked[i]).price.0 as int,
            (#[trigger] ranked[j]).price.0 as int,
        )
    &&& forall|i: int|
        0 <= i < ranked.len() ==> levels.contains_key((#[trigger] ranked[i]).price.0 as int)
            && levels[ranked[i].price.0 as int] == ranked[i].qty.0
    &&& forall|p: int| #[trigger]
        levels.contains_key(p) ==> exists|i: int|
            0 <= i < ranked.len() && (#[trigger] ranked[i]).price.0 == p
}

impl LadderView {
    /// What every ladder keeps: at most `capacity` levels, each with a positive 64-bit price and
    /// quantity, none of them beyond the horizon.
    pub open spec fn wf(self) -> bool {
        &&& self.capacity > 0
        &&& self.levels.dom().finite()
        &&& self.levels.len() <= self.capacity
        &&& forall|p: int| #[trigger]
            self.levels.contains_key(p) ==> 0 < p <= i64::MAX && 0 < self.levels[p] <= i64::MAX
                && !self.beyond_horizon(p)
    }

    /// Whether `price` lies strictly beyond the horizon.
    pub open spec fn beyond_horizon(self, price: int) -> bool {
        match self.horizon {
            Some(h) => self.side.better(h, price),
            None => false,
        }
    }

    /// An empty ladder of the same side and capacity.
    pub open spec fn cleared(self) -> LadderView {
        LadderView { horizon: None, levels: Map::empty(), ..self }
    }

    /// The held levels from best to worst.
    pub open spec fn ranked(self) -> Seq<Level> {
        choose|ranked: Seq<Level>| is_ranking(self.side, ranked, self.levels)
    }

    /// The level with the best price, if any is held.
    pub open spec fn best(self) -> Option<Level> {
        if self.levels.dom() =~= Set::empty() {
            None
        } else {
            let p = best_price(self.side, self.levels);
            Some(Level { price: Price(p as i64), qty: Qty(self.levels[p] as i64) })
        }
    }

    /// The ladder after a valid update, and what the update did.
    pub open spec fn set_level(self, price: int, qty: int) -> (LadderView, Applied) {
        let known = self.levels.contains_key(price);
        if self.beyond_horizon(price) {
            (self, Applied::BeyondHorizon)
        } else if qty == 0 {
            if known {
                (LadderView { levels: self.levels.remove(price), ..self }, Applied::Removed)
            } else {
                (self, Applied::Unchanged)
            }
        } else if known {
            (LadderView { levels: self.levels.insert(price, qty), ..self }, Applied::Updated)
        } else {
            self.add_level(price, qty)
        }
    }

    /// The ladder after a level at a new price: if it is full the worst level makes room, and
    /// becomes or moves the horizon.
    pub open spec fn add_level(self, price: int, qty: int) -> (LadderView, Applied) {
        if self.levels.len() < self.capacity {
            (LadderView { levels: self.levels.insert(price, qty), ..self }, Applied::Inserted)
        } else {
            let worst = worst_price(self.side, self.levels);
            if self.side.better(price, worst) {
                let levels = self.levels.remove(worst).insert(price, qty);
                (
                    LadderView { levels, horizon: Some(worst_price(self.side, levels)), ..self },
                    Applied::Inserted,
                )
            } else {
                (LadderView { horizon: Some(worst), ..self }, Applied::BeyondHorizon)
            }
        }
    }

    /// The ladder after any update: an invalid one is refused and changes nothing.
    pub open spec fn apply(self, price: Price, qty: Qty) -> (
        LadderView,
        Result<Applied, BookError>,
    ) {
        match update_fault(self.side, price, qty) {
            Some(error) => (self, Err(error)),
            None => {
                let (after, applied) = self.set_level(price.0 as int, qty.0 as int);
                (after, Ok(applied))
            },
        }
    }

    /// The ladder after loading a snapshot: the best levels of it, with a horizon if it lists
    /// more than fit, or nothing at all if it is refused.
    pub open spec fn load(self, levels: Seq<Level>) -> (LadderView, Result<(), BookError>) {
        match load_fault(self.side, self.capacity, levels) {
            Some(error) => (self.cleared(), Err(error)),
            None => {
                let best = best_levels(self.side, self.capacity, levels);
                let horizon = if levels.len() > self.capacity {
                    Some(worst_price(self.side, best))
                } else {
                    None
                };
                (LadderView { levels: best, horizon, ..self }, Ok(()))
            },
        }
    }
}

/// Why an update is invalid, if it is.
pub open spec fn update_fault(side: Side, price: Price, qty: Qty) -> Option<BookError> {
    if price.0 <= 0 {
        Some(BookError::InvalidPrice { side, price })
    } else if qty.0 < 0 {
        Some(BookError::InvalidQty { side, price, qty })
    } else {
        None
    }
}

/// Why a level cannot stand in a snapshot, if it cannot.
pub open spec fn level_fault(side: Side, level: Level) -> Option<BookError> {
    if level.price.0 <= 0 {
        Some(BookError::InvalidPrice { side, price: level.price })
    } else if level.qty.0 <= 0 {
        Some(BookError::InvalidQty { side, price: level.price, qty: level.qty })
    } else {
        None
    }
}

/// The prices that `levels` lists.
pub open spec fn listed_prices(levels: Seq<Level>) -> Set<int> {
    levels.map_values(|level: Level| level.price.0 as int).to_set()
}

/// The listed prices strictly better than `p`.
pub open spec fn better_listed(side: Side, levels: Seq<Level>, p: int) -> Set<int> {
    listed_prices(levels).filter(|q: int| side.better(q, p))
}

/// A quantity that `levels` lists at price `p`.
pub open spec fn listed_qty(levels: Seq<Level>, p: int) -> int {
    levels[choose|i: int| 0 <= i < levels.len() && (#[trigger] levels[i]).price.0 == p].qty.0 as int
}

/// The best `capacity` listed prices, with their quantities: those with fewer than `capacity`
/// better ones.
pub open spec fn best_levels(side: Side, capacity: nat, levels: Seq<Level>) -> Map<int, int> {
    Map::new(
        |p: int|
            listed_prices(levels).contains(p) && better_listed(side, levels, p).len() < capacity,
        |p: int| listed_qty(levels, p),
    )
}

/// Whether `levels` lists price `p` more than once.
pub open spec fn listed_twice(levels: Seq<Level>, p: int) -> bool {
    exists|i: int, j: int|
        0 <= i < j < levels.len() && (#[trigger] levels[i]).price.0 == p && (
        #[trigger] levels[j]).price.0 == p
}

/// Whether `p` is the worst price that `levels` lists more than once.
pub open spec fn is_worst_repeat(side: Side, levels: Seq<Level>, p: int) -> bool {
    &&& listed_twice(levels, p)
    &&& forall|q: int| #[trigger] listed_twice(levels, q) ==> q == p || side.better(q, p)
}

/// The error for a list with a repeated price: it names the worst one.
pub open spec fn repeat_fault(side: Side, levels: Seq<Level>) -> Option<BookError> {
    if exists|p: int| listed_twice(levels, p) {
        let p = choose|p: int| is_worst_repeat(side, levels, p);
        Some(BookError::DuplicateLevel { side, price: Price(p as i64) })
    } else {
        None
    }
}

/// Why `next` is refused after `before` was accepted, if it is. Repeats are looked for among
/// the first `capacity` levels together, and after that against the levels still held: a price
/// that was dropped is not remembered.
pub open spec fn next_level_fault(
    side: Side,
    capacity: nat,
    before: Seq<Level>,
    next: Level,
) -> Option<BookError> {
    if level_fault(side, next) is Some {
        level_fault(side, next)
    } else if before.len() < capacity {
        None
    } else if before.len() == capacity && repeat_fault(side, before) is Some {
        repeat_fault(side, before)
    } else if best_levels(side, capacity, before).contains_key(next.price.0 as int) {
        Some(BookError::DuplicateLevel { side, price: next.price })
    } else {
        None
    }
}

/// The first refusal met when `levels` is taken one by one.
pub open spec fn scan_fault(side: Side, capacity: nat, levels: Seq<Level>) -> Option<BookError>
    decreases levels.len(),
{
    if levels.len() == 0 {
        None
    } else {
        match scan_fault(side, capacity, levels.drop_last()) {
            Some(error) => Some(error),
            None => next_level_fault(side, capacity, levels.drop_last(), levels.last()),
        }
    }
}

/// Why a snapshot is refused, if it is.
pub open spec fn load_fault(side: Side, capacity: nat, levels: Seq<Level>) -> Option<BookError> {
    match scan_fault(side, capacity, levels) {
        Some(error) => Some(error),
        None => if levels.len() <= capacity {
            repeat_fault(side, levels)
        } else {
            None
        },
    }
}

/// The quantity at each price of a list of levels.
pub open spec fn level_map(levels: Seq<Level>) -> Map<int, int> {
    Map::new(
        |p: int| exists|i: int| 0 <= i < levels.len() && (#[trigger] levels[i]).price.0 == p,
        |p: int|
            levels[choose|i: int|
                0 <= i < levels.len() && (#[trigger] levels[i]).price.0 == p].qty.0 as int,
    )
}

/// Whether `levels` runs strictly from worst to best.
spec fn ascending(side: Side, levels: Seq<Level>) -> bool {
    forall|i: int, j: int|
        0 <= i < j < levels.len() ==> side.better(
            (#[trigger] levels[j]).price.0 as int,
            (#[trigger] levels[i]).price.0 as int,
        )
}

/// One side of the book.
///
/// Levels are kept in an array sorted from worst to best, so the best level is last. Nearly
/// all venue updates touch the top of the book, where inserting or removing moves only the few
/// levels above the change. The array never grows past its capacity.
///
/// When the ladder is full and an update would add a level, the worst level is dropped and
/// the ladder records a *horizon*: the worst price it still knows exactly. Updates beyond the
/// horizon are ignored from then on, because the levels between the horizon and such an
/// update are unknown. Every level at or better than the horizon stays exact.
#[derive(Clone, Debug)]
pub struct Ladder {
    side: Side,
    levels: Vec<Level>,
    capacity: usize,
    horizon: Option<Price>,
}

impl View for Ladder {
    type V = LadderView;

    closed spec fn view(&self) -> LadderView {
        LadderView {
            side: self.side,
            capacity: self.capacity as nat,
            horizon: match self.horizon {
                Some(h) => Some(h.0 as int),
                None => None,
            },
            levels: level_map(self.levels@),
        }
    }
}

/// The level map of a strictly sorted list holds each entry of it, and nothing else.
proof fn lemma_level_map(side: Side, levels: Seq<Level>)
    requires
        ascending(side, levels),
    ensures
        forall|i: int|
            0 <= i < levels.len() ==> level_map(levels).contains_key(
                (#[trigger] levels[i]).price.0 as int,
            ) && level_map(levels)[levels[i].price.0 as int] == levels[i].qty.0,
        level_map(levels).dom().finite(),
        level_map(levels).len() == levels.len(),
{
    let m = level_map(levels);
    assert forall|i: int| 0 <= i < levels.len() implies m.contains_key(
        (#[trigger] levels[i]).price.0 as int,
    ) && m[levels[i].price.0 as int] == levels[i].qty.0 by {
        let p = levels[i].price.0 as int;
        let k = choose|k: int| 0 <= k < levels.len() && (#[trigger] levels[k]).price.0 == p;
        assert(0 <= k < levels.len() && levels[k].price.0 == p);
        assert(k == i);
    }
    let prices = levels.map_values(|l: Level| l.price.0 as int);
    assert(prices.no_duplicates()) by {
        assert forall|i: int, j: int|
            0 <= i < prices.len() && 0 <= j < prices.len() && i != j implies prices[i]
            != prices[j] by {
            assert(levels[i].price != levels[j].price);
        }
    }
    prices.unique_seq_to_set();
    assert(m.dom() =~= prices.to_set()) by {
        assert forall|p: int| m.dom().contains(p) == prices.to_set().contains(p) by {
            if m.dom().contains(p) {
                let k = choose|k: int| 0 <= k < levels.len() && (#[trigger] levels[k]).price.0 == p;
                assert(prices[k] == p);
            }
            if prices.to_set().contains(p) {
                let k = choose|k: int| 0 <= k < prices.len() && prices[k] == p;
                assert(levels[k].price.0 == p);
            }
        }
    }
}

/// In a strictly sorted list the first entry is the worst price and the last one the best.
proof fn lemma_ends(side: Side, levels: Seq<Level>)
    requires
        ascending(side, levels),
        levels.len() > 0,
    ensures
        worst_price(side, level_map(levels)) == levels[0].price.0,
        best_price(side, level_map(levels)) == levels.last().price.0,
{
    let m = level_map(levels);
    lemma_level_map(side, levels);
    let w = levels[0].price.0 as int;
    assert(is_worst(side, m, w)) by {
        assert forall|q: int| #[trigger] m.contains_key(q) implies q == w || side.better(q, w) by {
            let k = choose|k: int| 0 <= k < levels.len() && (#[trigger] levels[k]).price.0 == q;
            assert(0 <= k < levels.len() && levels[k].price.0 == q);
        }
    }
    let b = levels.last().price.0 as int;
    assert(is_best(side, m, b)) by {
        assert forall|q: int| #[trigger] m.contains_key(q) implies q == b || side.better(b, q) by {
            let k = choose|k: int| 0 <= k < levels.len() && (#[trigger] levels[k]).price.0 == q;
            assert(0 <= k < levels.len() && levels[k].price.0 == q);
        }
    }
    let w2 = worst_price(side, m);
    assert(is_worst(side, m, w2));
    assert(m.contains_key(w) && m.contains_key(w2));
    let b2 = best_price(side, m);
    assert(is_best(side, m, b2));
    assert(m.contains_key(b) && m.contains_key(b2));
}

/// Inserting a level at its sorted place adds it to the map.
proof fn lemma_insert(side: Side, levels: Seq<Level>, index: int, level: Level)
    requires
        ascending(side, levels),
        0 <= index <= levels.len(),
        forall|k: int|
            0 <= k < index ==> side.better(
                level.price.0 as int,
                (#[trigger] levels[k]).price.0 as int,
            ),
        forall|k: int|
            index <= k < levels.len() ==> side.better(
                (#[trigger] levels[k]).price.0 as int,
                level.price.0 as int,
            ),
    ensures
        ascending(side, levels.insert(index, level)),
        !level_map(levels).contains_key(level.price.0 as int),
        level_map(levels.insert(index, level)) =~= level_map(levels).insert(
            level.price.0 as int,
            level.qty.0 as int,
        ),
{
    let after = levels.insert(index, level);
    let p = level.price.0 as int;
    assert(ascending(side, after)) by {
        assert forall|i: int, j: int| 0 <= i < j < after.len() implies side.better(
            (#[trigger] after[j]).price.0 as int,
            (#[trigger] after[i]).price.0 as int,
        ) by {
            let i0 = if i < index { i } else { i - 1 };
            let j0 = if j < index { j } else { j - 1 };
            if i != index && j != index {
                assert(side.better(levels[j0].price.0 as int, levels[i0].price.0 as int));
            } else if i == index {
                assert(after[j] == levels[j0]);
            } else {
                assert(after[i] == levels[i0]);
            }
        }
    }
    lemma_level_map(side, levels);
    lemma_level_map(side, after);
    let m = level_map(levels);
    let m2 = level_map(after);
    assert forall|q: int| m2.contains_key(q) == m.insert(p, level.qty.0 as int).contains_key(q) by {
        if m2.contains_key(q) {
            let k = choose|k: int| 0 <= k < after.len() && (#[trigger] after[k]).price.0 == q;
            assert(0 <= k < after.len() && after[k].price.0 == q);
            if k != index {
                let k0 = if k < index { k } else { k - 1 };
                assert(after[k] == levels[k0]);
                assert(m.contains_key(levels[k0].price.0 as int));
            }
        }
        if m.contains_key(q) {
            let k = choose|k: int| 0 <= k < levels.len() && (#[trigger] levels[k]).price.0 == q;
            assert(0 <= k < levels.len() && levels[k].price.0 == q);
            let k1 = if k < index { k } else { k + 1 };
            assert(after[k1] == levels[k]);
            assert(m2.contains_key(after[k1].price.0 as int));
        }
        assert(after[index] == level);
        assert(m2.contains_key(after[index].price.0 as int));
    }
    assert forall|q: int| m2.contains_key(q) implies m2[q] == m.insert(p, level.qty.0 as int)[q] by {
        let k = choose|k: int| 0 <= k < after.len() && (#[trigger] after[k]).price.0 == q;
        assert(0 <= k < after.len() && after[k].price.0 == q);
        assert(m2[after[k].price.0 as int] == after[k].qty.0);
        if k != index {
            let k0 = if k < index { k } else { k - 1 };
            assert(after[k] == levels[k0]);
            assert(m[levels[k0].price.0 as int] == levels[k0].qty.0);
        }
    }
}

/// Removing an entry of a strictly sorted list removes its price from the map.
proof fn lemma_remove(side: Side, levels: Seq<Level>, index: int)
    requires
        ascending(side, levels),
        0 <= index < levels.len(),
    ensures
        ascending(side, levels.remove(index)),
        level_map(levels.remove(index)) =~= level_map(levels).remove(levels[index].price.0 as int),
{
    let after = levels.remove(index);
    let level = levels[index];
    assert(ascending(side, after)) by {
        assert forall|i: int, j: int| 0 <= i < j < after.len() implies side.better(
            (#[trigger] after[j]).price.0 as int,
            (#[trigger] after[i]).price.0 as int,
        ) by {
            let i0 = if i < index { i } else { i + 1 };
            let j0 = if j < index { j } else { j + 1 };
            assert(after[i] == levels[i0] && after[j] == levels[j0]);
        }
    }
    assert(levels =~= after.insert(index, level));
    assert forall|k: int| 0 <= k < index implies side.better(
        level.price.0 as int,
        (#[trigger] after[k]).price.0 as int,
    ) by {
        assert(after[k] == levels[k]);
    }
    assert forall|k: int| index <= k < after.len() implies side.better(
        (#[trigger] after[k]).price.0 as int,
        level.price.0 as int,
    ) by {
        assert(after[k] == levels[k + 1]);
    }
    lemma_insert(side, after, index, level);
}

/// Changing the quantity of an entry changes it in the map.
proof fn lemma_update(side: Side, levels: Seq<Level>, index: int, qty: Qty)
    requires
        ascending(side, levels),
        0 <= index < levels.len(),
    ensures
        ascending(side, levels.update(index, Level { price: levels[index].price, qty })),
        level_map(levels.update(index, Level { price: levels[index].price, qty }))
            =~= level_map(levels).insert(levels[index].price.0 as int, qty.0 as int),
{
    let level = Level { price: levels[index].price, qty };
    let gone = levels.remove(index);
    lemma_remove(side, levels, index);
    assert(levels.update(index, level) =~= gone.insert(index, level));
    assert forall|k: int| 0 <= k < index implies side.better(
        level.price.0 as int,
        (#[trigger] gone[k]).price.0 as int,
    ) by {
        assert(gone[k] == levels[k]);
    }
    assert forall|k: int| index <= k < gone.len() implies side.better(
        (#[trigger] gone[k]).price.0 as int,
        level.price.0 as int,
    ) by {
        assert(gone[k] == levels[k + 1]);
    }
    lemma_insert(side, gone, index, level);
}

/// Rearranging a list does not change which prices it repeats.
proof fn lemma_rearranged_repeats(a: Seq<Level>, b: Seq<Level>, p: int)
    requires
        a.to_multiset() == b.to_multiset(),
        listed_twice(a, p),
    ensures
        listed_twice(b, p),
{
    broadcast use vstd::seq_lib::group_to_multiset_ensures;
    broadcast use vstd::multiset::group_multiset_axioms;

    let (i, j) = choose|i: int, j: int|
        0 <= i < j < a.len() && (#[trigger] a[i]).price.0 == p && (#[trigger] a[j]).price.0 == p;
    assert(0 <= i < j < a.len() && a[i].price.0 == p && a[j].price.0 == p);
    assert(a.contains(a[i]) && a.contains(a[j]));
    assert(b.to_multiset().count(a[i]) > 0 && b.to_multiset().count(a[j]) > 0);
    assert(b.contains(a[i]) && b.contains(a[j]));
    let k = choose|k: int| 0 <= k < b.len() && b[k] == a[i];
    if a[i] == a[j] {
        let rest = a.remove(j);
        assert(rest[i] == a[i]);
        assert(rest.contains(a[i]));
        assert(rest.to_multiset().count(a[i]) > 0);
        let left = b.remove(k);
        assert(left.to_multiset() =~= rest.to_multiset());
        assert(left.contains(a[i]));
        let n = choose|n: int| 0 <= n < left.len() && left[n] == a[i];
        let m = if n < k { n } else { n + 1 };
        assert(b[m] == a[i] && m != k);
        if m < k {
            assert(b[m].price.0 == p && b[k].price.0 == p);
        } else {
            assert(b[k].price.0 == p && b[m].price.0 == p);
        }
    } else {
        let m = choose|m: int| 0 <= m < b.len() && b[m] == a[j];
        if m < k {
            assert(b[m].price.0 == p && b[k].price.0 == p);
        } else {
            assert(b[k].price.0 == p && b[m].price.0 == p);
        }
    }
}

/// The worst repeated price, once one is known, is the one that the error names.
pub(crate) proof fn lemma_repeat_fault(side: Side, levels: Seq<Level>, price: Price)
    requires
        is_worst_repeat(side, levels, price.0 as int),
    ensures
        repeat_fault(side, levels) == Some(BookError::DuplicateLevel { side, price }),
{
    let p = choose|p: int| is_worst_repeat(side, levels, p);
    assert(is_worst_repeat(side, levels, p));
    assert(listed_twice(levels, p) && listed_twice(levels, price.0 as int));
}

/// Whether `m` keeps every listed level that is not worse than a full set of others.
spec fn retains(side: Side, capacity: nat, listed: Seq<Level>, m: Map<int, int>) -> bool {
    &&& m.dom().finite()
    &&& m.len() <= capacity
    &&& forall|p: int| #[trigger]
        m.contains_key(p) ==> exists|i: int|
            0 <= i < listed.len() && (#[trigger] listed[i]).price.0 == p
    &&& forall|i: int|
        0 <= i < listed.len() && m.contains_key((#[trigger] listed[i]).price.0 as int)
            ==> m[listed[i].price.0 as int] == listed[i].qty.0
    &&& forall|i: int, q: int|
        0 <= i < listed.len() && !m.contains_key((#[trigger] listed[i]).price.0 as int)
            && #[trigger] m.contains_key(q) ==> side.better(q, listed[i].price.0 as int)
    &&& forall|i: int|
        0 <= i < listed.len() && !m.contains_key((#[trigger] listed[i]).price.0 as int) ==> m.len()
            == capacity
}

/// Such a map holds exactly the best `capacity` listed levels.
proof fn lemma_retains(side: Side, capacity: nat, listed: Seq<Level>, m: Map<int, int>)
    requires
        retains(side, capacity, listed, m),
    ensures
        m =~= best_levels(side, capacity, listed),
{
    let best = best_levels(side, capacity, listed);
    let prices = listed.map_values(|level: Level| level.price.0 as int);
    vstd::seq_lib::seq_to_set_is_finite(prices);
    assert forall|p: int| m.contains_key(p) == best.contains_key(p) by {
        let above = better_listed(side, listed, p);
        if m.contains_key(p) {
            let i = choose|i: int| 0 <= i < listed.len() && (#[trigger] listed[i]).price.0 == p;
            assert(prices[i] == p);
            assert(above.subset_of(m.dom().remove(p))) by {
                assert forall|q: int| above.contains(q) implies m.dom().remove(p).contains(q) by {
                    let k = choose|k: int| 0 <= k < prices.len() && prices[k] == q;
                    assert(listed[k].price.0 == q);
                    if !m.contains_key(q) {
                        assert(side.better(p, listed[k].price.0 as int));
                    }
                }
            }
            vstd::set_lib::lemma_len_subset(above, m.dom().remove(p));
        } else if best.contains_key(p) {
            let i = choose|i: int| 0 <= i < prices.len() && prices[i] == p;
            assert(listed[i].price.0 == p);
            assert(m.len() == capacity);
            assert(m.dom().subset_of(above)) by {
                assert forall|q: int| m.dom().contains(q) implies above.contains(q) by {
                    assert(side.better(q, listed[i].price.0 as int));
                    let k = choose|k: int|
                        0 <= k < listed.len() && (#[trigger] listed[k]).price.0 == q;
                    assert(prices[k] == q);
                }
            }
            vstd::set_lib::lemma_len_subset(m.dom(), above);
        }
    }
    assert forall|p: int| m.contains_key(p) implies m[p] == best[p] by {
        let i = choose|i: int| 0 <= i < listed.len() && (#[trigger] listed[i]).price.0 == p;
        assert(0 <= i < listed.len() && listed[i].price.0 == p);
    }
}

/// Sorted levels without repeats retain everything they were sorted from.
proof fn lemma_sorted_retains(side: Side, capacity: nat, listed: Seq<Level>, sorted: Seq<Level>)
    requires
        listed.to_multiset() == sorted.to_multiset(),
        ascending(side, sorted),
        sorted.len() <= capacity,
    ensures
        retains(side, capacity, listed, level_map(sorted)),
{
    broadcast use vstd::seq_lib::group_to_multiset_ensures;

    let m = level_map(sorted);
    lemma_level_map(side, sorted);
    assert forall|i: int| 0 <= i < listed.len() implies m.contains_key(
        (#[trigger] listed[i]).price.0 as int,
    ) && m[listed[i].price.0 as int] == listed[i].qty.0 by {
        assert(listed.contains(listed[i]));
        assert(sorted.to_multiset().count(listed[i]) > 0);
        let k = choose|k: int| 0 <= k < sorted.len() && sorted[k] == listed[i];
        assert(m.contains_key(sorted[k].price.0 as int));
    }
    assert forall|p: int| #[trigger] m.contains_key(p) implies exists|i: int|
        0 <= i < listed.len() && (#[trigger] listed[i]).price.0 == p by {
        let k = choose|k: int| 0 <= k < sorted.len() && (#[trigger] sorted[k]).price.0 == p;
        assert(sorted.contains(sorted[k]));
        assert(listed.to_multiset().count(sorted[k]) > 0);
        let i = choose|i: int| 0 <= i < listed.len() && listed[i] == sorted[k];
        assert(listed[i].price.0 == p);
    }
}

/// Adding one more listed level to a full ladder keeps the best ones.
proof fn lemma_add_retains(before: LadderView, listed: Seq<Level>, next: Level)
    requires
        retains(before.side, before.capacity, listed, before.levels),
        before.levels.len() == before.capacity,
        before.capacity > 0,
        !before.levels.contains_key(next.price.0 as int),
        is_worst(before.side, before.levels, worst_price(before.side, before.levels)),
    ensures
        retains(
            before.side,
            before.capacity,
            listed.push(next),
            before.add_level(next.price.0 as int, next.qty.0 as int).0.levels,
        ),
        before.add_level(next.price.0 as int, next.qty.0 as int).0.levels.len() == before.capacity,
{
    let side = before.side;
    let m = before.levels;
    let m2 = before.add_level(next.price.0 as int, next.qty.0 as int).0.levels;
    let all = listed.push(next);
    let worst = worst_price(side, m);
    let p = next.price.0 as int;
    assert forall|i: int| 0 <= i < listed.len() implies #[trigger] all[i] == listed[i] by {}
    assert(all[listed.len() as int] == next);
    if side.better(p, worst) {
        assert(m2.dom() =~= m.dom().remove(worst).insert(p));
    }
    assert forall|q: int| #[trigger] m2.contains_key(q) implies exists|i: int|
        0 <= i < all.len() && (#[trigger] all[i]).price.0 == q by {
        if q != p {
            assert(m.contains_key(q));
            let i = choose|i: int| 0 <= i < listed.len() && (#[trigger] listed[i]).price.0 == q;
            assert(all[i].price.0 == q);
        }
    }
    assert forall|i: int|
        0 <= i < all.len() && m2.contains_key(
            (#[trigger] all[i]).price.0 as int,
        ) implies m2[all[i].price.0 as int] == all[i].qty.0 by {
        if i < listed.len() {
            let q = listed[i].price.0 as int;
            if q == p {
                // The price was listed before and dropped, so it is not better than the worst.
                assert(m.contains_key(worst));
                assert(side.better(worst, listed[i].price.0 as int));
            }
        }
    }
    assert forall|i: int, q: int|
        0 <= i < all.len() && !m2.contains_key((#[trigger] all[i]).price.0 as int)
            && #[trigger] m2.contains_key(q) implies side.better(q, all[i].price.0 as int) by {
        assert(m.contains_key(worst));
        if i < listed.len() {
            let r = listed[i].price.0 as int;
            if m.contains_key(r) {
                assert(r == worst);
                if q != p {
                    assert(m.contains_key(q));
                }
            } else {
                assert(side.better(worst, listed[i].price.0 as int));
                if q != p {
                    assert(m.contains_key(q));
                }
            }
        } else {
            assert(m.contains_key(q));
        }
    }
}

/// The first entry of a strictly sorted list is the worst one of its map.
proof fn lemma_worst(side: Side, levels: Seq<Level>)
    requires
        ascending(side, levels),
        levels.len() > 0,
    ensures
        is_worst(side, level_map(levels), levels[0].price.0 as int),
{
    lemma_level_map(side, levels);
    let w = levels[0].price.0 as int;
    assert forall|q: int| #[trigger] level_map(levels).contains_key(q) implies q == w
        || side.better(q, w) by {
        let k = choose|k: int| 0 <= k < levels.len() && (#[trigger] levels[k]).price.0 == q;
        assert(0 <= k < levels.len() && levels[k].price.0 == q);
    }
}

/// In sorted order, the first price that equals the one before it is the worst repeated one.
proof fn lemma_first_repeat(side: Side, before: Seq<Level>, after: Seq<Level>, i: int)
    requires
        after.to_multiset() == before.to_multiset(),
        1 <= i < after.len(),
        after[i - 1].price == after[i].price,
        forall|a: int, b: int|
            0 <= a < b < after.len() ==> !side.outranks(
                (#[trigger] after[a]).price,
                (#[trigger] after[b]).price,
            ),
        forall|a: int, b: int|
            0 <= a < b < i ==> side.better(
                (#[trigger] after[b]).price.0 as int,
                (#[trigger] after[a]).price.0 as int,
            ),
    ensures
        repeat_fault(side, before) == Some(
            BookError::DuplicateLevel { side, price: after[i].price },
        ),
{
    let price = after[i].price;
    let p = price.0 as int;
    assert(listed_twice(after, p)) by {
        assert(after[i - 1].price.0 == p && after[i].price.0 == p);
    }
    lemma_rearranged_repeats(after, before, p);
    assert forall|q: int| #[trigger] listed_twice(before, q) implies q == p || side.better(
        q,
        p,
    ) by {
        lemma_rearranged_repeats(before, after, q);
        let (a, b) = choose|a: int, b: int|
            0 <= a < b < after.len() && (#[trigger] after[a]).price.0 == q && (
            #[trigger] after[b]).price.0 == q;
        assert(0 <= a < b < after.len() && after[a].price.0 == q && after[b].price.0 == q);
        if b < i {
            assert(side.better(after[b].price.0 as int, after[a].price.0 as int));
        } else if b > i {
            assert(!side.outranks(after[i].price, after[b].price));
        }
    }
    lemma_repeat_fault(side, before, price);
}

/// The first refusal decides the outcome of the whole snapshot.
proof fn lemma_scan_stops(side: Side, capacity: nat, levels: Seq<Level>, i: int)
    requires
        0 <= i < levels.len(),
        scan_fault(side, capacity, levels.take(i)) is None,
        next_level_fault(side, capacity, levels.take(i), levels[i]) is Some,
    ensures
        scan_fault(side, capacity, levels) == next_level_fault(
            side,
            capacity,
            levels.take(i),
            levels[i],
        ),
    decreases levels.len(),
{
    if i + 1 == levels.len() {
        assert(levels.drop_last() =~= levels.take(i));
    } else {
        let rest = levels.drop_last();
        assert(rest.take(i) =~= levels.take(i));
        lemma_scan_stops(side, capacity, rest, i);
    }
}

/// Two rankings of the same levels agree on their first `n` entries.
proof fn lemma_rankings_agree(
    side: Side,
    a: Seq<Level>,
    b: Seq<Level>,
    levels: Map<int, int>,
    n: int,
)
    requires
        is_ranking(side, a, levels),
        is_ranking(side, b, levels),
        0 <= n <= a.len(),
        n <= b.len(),
    ensures
        a.take(n) =~= b.take(n),
    decreases n,
{
    if n > 0 {
        lemma_rankings_agree(side, a, b, levels, n - 1);
        let i = n - 1;
        assert forall|k: int| 0 <= k < i implies a[k] == b[k] by {
            assert(a.take(i)[k] == b.take(i)[k]);
        }
        assert(levels.contains_key(a[i].price.0 as int));
        assert(levels.contains_key(b[i].price.0 as int));
        let k = choose|k: int| 0 <= k < b.len() && (#[trigger] b[k]).price.0 == a[i].price.0;
        let m = choose|m: int| 0 <= m < a.len() && (#[trigger] a[m]).price.0 == b[i].price.0;
        assert(0 <= k < b.len() && b[k].price.0 == a[i].price.0);
        assert(0 <= m < a.len() && a[m].price.0 == b[i].price.0);
        if k < i {
            assert(a[k] == b[k]);
        } else if m < i {
            assert(a[m] == b[m]);
        }
        assert(a[i].price == b[i].price);
        assert(a[i] == b[i]);
    }
}

/// The levels held by a map have at most one ranking.
pub proof fn lemma_ranking_unique(side: Side, a: Seq<Level>, b: Seq<Level>, levels: Map<int, int>)
    requires
        is_ranking(side, a, levels),
        is_ranking(side, b, levels),
    ensures
        a == b,
{
    if a.len() < b.len() {
        lemma_rankings_agree(side, a, b, levels, a.len() as int);
        let extra = b[a.len() as int];
        assert(levels.contains_key(extra.price.0 as int));
        let k = choose|k: int| 0 <= k < a.len() && (#[trigger] a[k]).price.0 == extra.price.0;
        assert(0 <= k < a.len() && a[k].price.0 == extra.price.0);
        assert(a.take(a.len() as int)[k] == b.take(a.len() as int)[k]);
        assert(a[k] == b[k]);
    } else {
        lemma_rankings_agree(side, a, b, levels, b.len() as int);
        if a.len() > b.len() {
            let extra = a[b.len() as int];
            assert(levels.contains_key(extra.price.0 as int));
            let k = choose|k: int| 0 <= k < b.len() && (#[trigger] b[k]).price.0 == extra.price.0;
            assert(0 <= k < b.len() && b[k].price.0 == extra.price.0);
            assert(a.take(b.len() as int)[k] == b.take(b.len() as int)[k]);
            assert(a[k] == b[k]);
        }
        assert(a =~= a.take(b.len() as int));
        assert(b =~= b.take(b.len() as int));
    }
}

/// A list from worst to best, reversed, ranks its map.
proof fn lemma_reverse_ranks(side: Side, levels: Seq<Level>, ranked: Seq<Level>)
    requires
        ascending(side, levels),
        ranked.len() == levels.len(),
        forall|i: int|
            0 <= i < levels.len() ==> #[trigger] ranked[i] == levels[levels.len() - 1 - i],
    ensures
        is_ranking(side, ranked, level_map(levels)),
{
    let m = level_map(levels);
    lemma_level_map(side, levels);
    assert forall|i: int| 0 <= i < ranked.len() implies m.contains_key(
        (#[trigger] ranked[i]).price.0 as int,
    ) && m[ranked[i].price.0 as int] == ranked[i].qty.0 by {
        assert(m.contains_key(levels[levels.len() - 1 - i].price.0 as int));
    }
    assert forall|p: int| #[trigger] m.contains_key(p) implies exists|i: int|
        0 <= i < ranked.len() && (#[trigger] ranked[i]).price.0 == p by {
        let k = choose|k: int| 0 <= k < levels.len() && (#[trigger] levels[k]).price.0 == p;
        assert(ranked[levels.len() - 1 - k].price.0 == p);
    }
}

impl Ladder {
    /// What the constructor establishes and every method keeps.
    pub closed spec fn wf(self) -> bool {
        &&& self.capacity > 0
        &&& self.levels.len() <= self.capacity
        &&& ascending(self.side, self.levels@)
        &&& forall|i: int|
            0 <= i < self.levels.len() ==> (#[trigger] self.levels[i]).price.0 > 0
                && self.levels[i].qty.0 > 0 && !self@.beyond_horizon(self.levels[i].price.0 as int)
    }

    /// A well-formed ladder has a well-formed view.
    pub proof fn lemma_wf(self)
        requires
            self.wf(),
        ensures
            self@.wf(),
    {
        lemma_level_map(self.side, self.levels@);
        assert forall|p: int| #[trigger] self@.levels.contains_key(p) implies 0 < p <= i64::MAX
            && 0 < self@.levels[p] <= i64::MAX && !self@.beyond_horizon(p) by {
            let k = choose|k: int|
                0 <= k < self.levels.len() && (#[trigger] self.levels@[k]).price.0 == p;
            assert(0 <= k < self.levels.len() && self.levels@[k].price.0 == p);
            assert(self.levels[k].price.0 > 0);
        }
    }

    /// The ranking of the view is the array read backwards.
    proof fn lemma_ranked(self)
        requires
            self.wf(),
        ensures
            is_ranking(self@.side, self@.ranked(), self@.levels),
            self@.ranked().len() == self.levels.len(),
            forall|i: int|
                0 <= i < self.levels.len() ==> #[trigger] self@.ranked()[i]
                    == self.levels@[self.levels.len() - 1 - i],
    {
        let ranked = Seq::new(
            self.levels@.len(),
            |i: int| self.levels@[self.levels.len() - 1 - i],
        );
        lemma_reverse_ranks(self.side, self.levels@, ranked);
        lemma_ranking_unique(self.side, ranked, self@.ranked(), self@.levels);
    }

    /// Creates an empty ladder that holds at most `capacity` levels.
    ///
    /// # Errors
    /// [`BookError::ZeroCapacity`] if `capacity` is zero.
    pub fn new(side: Side, capacity: usize) -> (r: Result<Self, BookError>)
        ensures
            match r {
                Ok(ladder) => {
                    &&& capacity > 0
                    &&& ladder.wf()
                    &&& ladder@ == (LadderView {
                        side,
                        capacity: capacity as nat,
                        horizon: None,
                        levels: Map::empty(),
                    })
                },
                Err(error) => capacity == 0 && error == BookError::ZeroCapacity,
            },
    {
        if capacity == 0 {
            return Err(BookError::ZeroCapacity);
        }
        let ladder: Ladder = Ladder {
            side,
            levels: Vec::with_capacity(capacity),
            capacity,
            horizon: None,
        };
        assert(ladder@.levels =~= Map::<int, int>::empty());
        Ok(ladder)
    }

    /// Which side of the book this is.
    pub fn side(&self) -> (r: Side)
        ensures
            r == self@.side,
    {
        self.side
    }

    /// Number of levels held.
    pub fn len(&self) -> (r: usize)
        requires
            self.wf(),
        ensures
            r == self@.levels.len(),
    {
        proof {
            lemma_level_map(self.side, self.levels@);
        }
        self.levels.len()
    }

    /// Whether the ladder holds no levels.
    pub fn is_empty(&self) -> (r: bool)
        requires
            self.wf(),
        ensures
            r == (self@.levels.len() == 0),
    {
        proof {
            lemma_level_map(self.side, self.levels@);
        }
        self.levels.is_empty()
    }

    /// Maximum number of levels held.
    pub fn capacity(&self) -> (r: usize)
        ensures
            r == self@.capacity,
    {
        self.capacity
    }

    /// The worst price known exactly, once the ladder has had to drop levels. `None` means
    /// every level the venue reported is held.
    pub fn horizon(&self) -> (r: Option<Price>)
        ensures
            match r {
                Some(price) => self@.horizon == Some(price.0 as int),
                None => self@.horizon is None,
            },
    {
        self.horizon
    }

    /// The best level.
    pub fn best(&self) -> (r: Option<Level>)
        requires
            self.wf(),
        ensures
            r == self@.best(),
    {
        let len: usize = self.levels.len();
        proof {
            lemma_level_map(self.side, self.levels@);
        }
        if len == 0 {
            assert(self@.levels.dom() =~= Set::<int>::empty());
            None
        } else {
            proof {
                lemma_ends(self.side, self.levels@);
                assert(self@.levels.contains_key(self.levels@[len - 1].price.0 as int));
            }
            Some(self.levels[len - 1])
        }
    }

    /// The `n`-th best level, counting from 0.
    pub fn nth_best(&self, n: usize) -> (r: Option<Level>)
        requires
            self.wf(),
        ensures
            is_ranking(self@.side, self@.ranked(), self@.levels),
            r == (if n < self@.ranked().len() {
                Some(self@.ranked()[n as int])
            } else {
                None
            }),
    {
        proof {
            self.lemma_ranked();
        }
        let len: usize = self.levels.len();
        if n < len {
            Some(self.levels[len - 1 - n])
        } else {
            None
        }
    }

    /// Levels from best to worst.
    pub fn iter(&self) -> (r: Vec<Level>)
        requires
            self.wf(),
        ensures
            is_ranking(self@.side, self@.ranked(), self@.levels),
            r@ == self@.ranked(),
    {
        proof {
            self.lemma_ranked();
        }
        let len: usize = self.levels.len();
        let mut ranked: Vec<Level> = Vec::with_capacity(len);
        let mut i: usize = 0;
        while i < len
            invariant
                i <= len,
                len == self.levels.len(),
                ranked@.len() == i,
                forall|k: int| 0 <= k < i ==> #[trigger] ranked@[k] == self.levels@[len - 1 - k],
            decreases len - i,
        {
            ranked.push(self.levels[len - 1 - i]);
            i = i + 1;
        }
        assert(ranked@ =~= self@.ranked());
        ranked
    }

    /// Finds `price`: `Ok(index)` if held, `Err(index)` where it would be inserted.
    ///
    /// Venue updates cluster at the top of the book, so the best few levels are scanned
    /// directly before falling back to binary search over the rest.
    fn search(&self, price: Price) -> (r: Result<usize, usize>)
        requires
            ascending(self.side, self.levels@),
        ensures
            match r {
                Ok(index) => index < self.levels.len() && self.levels[index as int].price == price,
                Err(index) => {
                    &&& index <= self.levels.len()
                    &&& forall|k: int|
                        0 <= k < index ==> self.side.better(
                            price.0 as int,
                            (#[trigger] self.levels@[k]).price.0 as int,
                        )
                    &&& forall|k: int|
                        index <= k < self.levels.len() ==> self.side.better(
                            (#[trigger] self.levels@[k]).price.0 as int,
                            price.0 as int,
                        )
                },
            },
    {
        let len: usize = self.levels.len();
        let scanned: usize = if len < TOP_SCAN { len } else { TOP_SCAN };
        let mut high: usize = len;
        while high > len - scanned
            invariant
                ascending(self.side, self.levels@),
                len == self.levels.len(),
                scanned <= len,
                len - scanned <= high <= len,
                forall|k: int|
                    high <= k < len ==> self.side.better(
                        (#[trigger] self.levels@[k]).price.0 as int,
                        price.0 as int,
                    ),
            decreases high,
        {
            let index: usize = high - 1;
            let level: Level = self.levels[index];
            if level.price == price {
                return Ok(index);
            }
            if self.side.is_more_aggressive(price, level.price) {
                return Err(high);
            }
            high = index;
        }
        let mut low: usize = 0;
        while low < high
            invariant
                ascending(self.side, self.levels@),
                low <= high <= self.levels.len(),
                forall|k: int|
                    0 <= k < low ==> self.side.better(
                        price.0 as int,
                        (#[trigger] self.levels@[k]).price.0 as int,
                    ),
                forall|k: int|
                    high <= k < self.levels.len() ==> self.side.better(
                        (#[trigger] self.levels@[k]).price.0 as int,
                        price.0 as int,
                    ),
            decreases high - low,
        {
            let middle: usize = low + (high - low) / 2;
            let level: Level = self.levels[middle];
            if level.price == price {
                return Ok(middle);
            }
            if self.side.is_more_aggressive(price, level.price) {
                low = middle + 1;
            } else {
                high = middle;
            }
        }
        Err(low)
    }

    /// Whether `price` lies strictly beyond the horizon.
    fn beyond_horizon(&self, price: Price) -> (r: bool)
        ensures
            r == self@.beyond_horizon(price.0 as int),
    {
        match self.horizon {
            Some(horizon) => self.side.is_more_aggressive(horizon, price),
            None => false,
        }
    }

    /// Inserts a new level at its sorted `index`, dropping the worst level if full.
    fn insert(&mut self, index: usize, level: Level) -> (r: Applied)
        requires
            old(self).wf(),
            level.price.0 > 0,
            level.qty.0 > 0,
            old(self).levels.len() < old(self).capacity ==> !old(self)@.beyond_horizon(
                level.price.0 as int,
            ),
            index <= old(self).levels.len(),
            forall|k: int|
                0 <= k < index ==> old(self).side.better(
                    level.price.0 as int,
                    (#[trigger] old(self).levels@[k]).price.0 as int,
                ),
            forall|k: int|
                index <= k < old(self).levels.len() ==> old(self).side.better(
                    (#[trigger] old(self).levels@[k]).price.0 as int,
                    level.price.0 as int,
                ),
        ensures
            final(self).wf(),
            !old(self)@.levels.contains_key(level.price.0 as int),
            (final(self)@, r) == old(self)@.add_level(level.price.0 as int, level.qty.0 as int),
    {
        let ghost before = self.levels@;
        proof {
            lemma_level_map(self.side, before);
            lemma_insert(self.side, before, index as int, level);
        }
        if self.levels.len() < self.capacity {
            self.levels.insert(index, level);
            proof {
                assert forall|i: int| 0 <= i < self.levels.len() implies (
                #[trigger] self.levels[i]).price.0 > 0 && self.levels[i].qty.0 > 0
                    && !self@.beyond_horizon(self.levels[i].price.0 as int) by {
                    if i != index {
                        let i0 = if i < index { i } else { i - 1 };
                        assert(old(self).levels[i0] == self.levels[i]);
                    }
                }
            }
            return Applied::Inserted;
        }
        proof {
            lemma_ends(self.side, before);
        }
        if index == 0 {
            // Worse than every level held: it becomes unknown territory.
            self.horizon = Some(self.levels[0].price);
            return Applied::BeyondHorizon;
        }
        // Full: drop the worst level (rare, and the only non-top-of-book memmove).

        self.levels.remove(0);
        self.levels.insert(index - 1, level);
        self.horizon = Some(self.levels[0].price);
        proof {
            let kept = before.remove(0);
            lemma_remove(self.side, before, 0);
            assert forall|k: int| 0 <= k < kept.len() implies #[trigger] kept[k] == before[k
                + 1] by {}
            lemma_insert(self.side, kept, index - 1, level);
            lemma_ends(self.side, self.levels@);
            assert forall|i: int| 0 <= i < self.levels.len() implies (
            #[trigger] self.levels[i]).price.0 > 0 && self.levels[i].qty.0 > 0
                && !self@.beyond_horizon(self.levels[i].price.0 as int) by {
                if i < index - 1 {
                    assert(self.levels[i] == old(self).levels[i + 1]);
                } else if i > index - 1 {
                    assert(self.levels[i] == old(self).levels[i]);
                }
                assert(i > 0 ==> self.side.better(
                    self.levels@[i].price.0 as int,
                    self.levels@[0].price.0 as int,
                ));
            }
            assert(old(self).side.better(level.price.0 as int, before[0].price.0 as int));
        }
        Applied::Inserted
    }

    /// Sets the quantity at `price`. A quantity of zero removes the level.
    ///
    /// # Errors
    /// [`BookError::InvalidPrice`] if `price` is not positive, or [`BookError::InvalidQty`] if
    /// `qty` is negative. The ladder is unchanged on error.
    pub fn apply(&mut self, price: Price, qty: Qty) -> (r: Result<Applied, BookError>)
        requires
            old(self).wf(),
        ensures
            final(self).wf(),
            (final(self)@, r) == old(self)@.apply(price, qty),
    {
        validate(self.side, price, qty)?;
        if self.beyond_horizon(price) {
            return Ok(Applied::BeyondHorizon);
        }
        let ghost before = self.levels@;
        proof {
            lemma_level_map(self.side, before);
        }
        match self.search(price) {
            Ok(index) => {
                assert(before[index as int].price == price);
                if qty.is_zero() {
                    self.levels.remove(index);
                    proof {
                        lemma_remove(self.side, before, index as int);
                        assert forall|i: int| 0 <= i < self.levels.len() implies (
                        #[trigger] self.levels[i]).price.0 > 0 && self.levels[i].qty.0 > 0
                            && !self@.beyond_horizon(self.levels[i].price.0 as int) by {
                            let i0 = if i < index { i } else { i + 1 };
                            assert(self.levels[i] == old(self).levels[i0]);
                        }
                    }
                    Ok(Applied::Removed)
                } else {
                    let level: Level = Level { price, qty };
                    self.levels.set(index, level);
                    proof {
                        lemma_update(self.side, before, index as int, qty);
                        assert forall|i: int| 0 <= i < self.levels.len() implies (
                        #[trigger] self.levels[i]).price.0 > 0 && self.levels[i].qty.0 > 0
                            && !self@.beyond_horizon(self.levels[i].price.0 as int) by {
                            assert(self.levels[i].price == old(self).levels[i].price);
                        }
                    }
                    Ok(Applied::Updated)
                }
            },
            Err(index) => {
                if qty.is_zero() {
                    proof {
                        lemma_insert(self.side, before, index as int, Level { price, qty });
                    }
                    Ok(Applied::Unchanged)
                } else {
                    Ok(self.insert(index, Level { price, qty }))
                }
            },
        }
    }

    /// Removes every level and forgets the horizon.
    pub fn clear(&mut self)
        requires
            old(self).wf(),
        ensures
            final(self).wf(),
            final(self)@ == old(self)@.cleared(),
    {
        self.discard();
    }

    /// Empties the ladder whatever its levels are.
    fn discard(&mut self)
        requires
            old(self).capacity > 0,
        ensures
            final(self).wf(),
            final(self).side == old(self).side,
            final(self).capacity == old(self).capacity,
            final(self).levels@.len() == 0,
            final(self)@ == old(self)@.cleared(),
    {
        self.levels.clear();
        self.horizon = None;
        assert(self@.levels =~= Map::<int, int>::empty());
    }

    /// Replaces the contents with `levels`, given in any order.
    ///
    /// # Errors
    /// [`BookError::InvalidPrice`], [`BookError::InvalidQty`] (including a zero quantity,
    /// which a snapshot must not contain) or [`BookError::DuplicateLevel`]. On error the ladder
    /// is left empty.
    pub fn load(&mut self, levels: &[Level]) -> (r: Result<(), BookError>)
        requires
            old(self).wf(),
        ensures
            final(self).wf(),
            (final(self)@, r) == old(self)@.load(levels@),
    {
        self.discard();
        let result: Result<(), BookError> = self.load_inner(levels);
        if result.is_err() {
            self.discard();
        }
        result
    }

    fn load_inner(&mut self, levels: &[Level]) -> (r: Result<(), BookError>)
        requires
            old(self).wf(),
            old(self).levels@.len() == 0,
            old(self).horizon is None,
        ensures
            final(self).side == old(self).side,
            final(self).capacity == old(self).capacity,
            r is Ok ==> final(self).wf() && (final(self)@, r) == old(self)@.load(levels@),
            r matches Err(error) ==> load_fault(
                old(self).side,
                old(self).capacity as nat,
                levels@,
            ) == Some(error),
    {
        let side: Side = self.side;
        let ghost capacity = self.capacity as nat;
        let mut sorted: bool = false;
        let mut i: usize = 0;
        while i < levels.len()
            invariant
                i <= levels.len(),
                side == self.side,
                capacity == self.capacity,
                capacity > 0,
                self.side == old(self).side,
                self.capacity == old(self).capacity,
                scan_fault(side, capacity, levels@.take(i as int)) is None,
                !sorted ==> {
                    &&& i <= capacity
                    &&& self.levels@ == levels@.take(i as int)
                    &&& self.horizon is None
                    &&& forall|k: int|
                        0 <= k < i ==> (#[trigger] levels@[k]).price.0 > 0 && levels@[k].qty.0 > 0
                },
                sorted ==> {
                    &&& i > capacity
                    &&& self.wf()
                    &&& self.levels.len() == capacity
                    &&& retains(side, capacity, levels@.take(i as int), self@.levels)
                    &&& self@.horizon == Some(worst_price(side, self@.levels))
                },
            decreases levels.len() - i,
        {
            let level: Level = levels[i];
            let ghost before = levels@.take(i as int);
            proof {
                assert(levels@.take(i + 1).drop_last() =~= before);
                assert(levels@.take(i + 1).last() == level);
            }
            let valid: Result<(), BookError> = validate(side, level.price, level.qty);
            if valid.is_err() {
                proof {
                    lemma_scan_stops(side, capacity, levels@, i as int);
                }
                return valid;
            }
            if level.qty.is_zero() {
                proof {
                    lemma_scan_stops(side, capacity, levels@, i as int);
                }
                return Err(BookError::InvalidQty { side, price: level.price, qty: level.qty });
            }
            if self.levels.len() < self.capacity {
                self.levels.push(level);
                assert(self.levels@ =~= levels@.take(i + 1));
            } else {
                // More levels than capacity: sort what we have once, then insert the rest in
                // order so the ladder keeps the best `capacity` levels and records its horizon.
                if !sorted {
                    let checked: Result<(), BookError> = self.sort_and_check();
                    if checked.is_err() {
                        proof {
                            lemma_scan_stops(side, capacity, levels@, i as int);
                        }
                        return checked;
                    }
                    sorted = true;
                    proof {
                        lemma_sorted_retains(side, capacity, before, self.levels@);
                    }
                }
                proof {
                    lemma_retains(side, capacity, before, self@.levels);
                    lemma_level_map(side, self.levels@);
                }
                match self.search(level.price) {
                    Ok(index) => {
                        proof {
                            assert(self@.levels.contains_key(
                                self.levels@[index as int].price.0 as int,
                            ));
                            lemma_scan_stops(side, capacity, levels@, i as int);
                        }
                        return Err(BookError::DuplicateLevel { side, price: level.price });
                    },
                    Err(index) => {
                        let ghost held = *self;
                        self.insert(index, level);
                        proof {
                            lemma_ends(side, held.levels@);
                            assert(is_worst(side, held@.levels, held.levels@[0].price.0 as int)) by {
                                lemma_worst(side, held.levels@);
                            }
                            lemma_add_retains(held@, before, level);
                            assert(levels@.take(i + 1) =~= before.push(level));
                            lemma_level_map(side, self.levels@);
                        }
                    },
                }
            }
            i = i + 1;
        }
        assert(levels@.take(i as int) =~= levels@);
        if !sorted {
            let checked: Result<(), BookError> = self.sort_and_check();
            if checked.is_err() {
                return checked;
            }
            proof {
                lemma_sorted_retains(side, capacity, levels@, self.levels@);
            }
        }
        proof {
            lemma_retains(side, capacity, levels@, self@.levels);
        }
        Ok(())
    }

    /// Sorts the levels and looks for a repeated price.
    fn sort_and_check(&mut self) -> (r: Result<(), BookError>)
        requires
            old(self).levels.len() <= old(self).capacity,
            old(self).capacity > 0,
            old(self).horizon is None,
            forall|k: int|
                0 <= k < old(self).levels.len() ==> (#[trigger] old(self).levels@[k]).price.0 > 0
                    && old(self).levels@[k].qty.0 > 0,
        ensures
            final(self).side == old(self).side,
            final(self).capacity == old(self).capacity,
            final(self).horizon is None,
            final(self).levels.len() == old(self).levels.len(),
            final(self).levels@.to_multiset() == old(self).levels@.to_multiset(),
            r is Ok ==> final(self).wf() && repeat_fault(old(self).side, old(self).levels@) is None,
            r matches Err(error) ==> repeat_fault(old(self).side, old(self).levels@) == Some(error),
    {
        let side: Side = self.side;
        let ghost before = self.levels@;
        sort_worst_first(side, &mut self.levels);
        let ghost after = self.levels@;
        proof {
            broadcast use vstd::seq_lib::group_to_multiset_ensures;

            assert(after.to_multiset().len() == before.to_multiset().len());
            assert forall|k: int| 0 <= k < after.len() implies (#[trigger] after[k]).price.0 > 0
                && after[k].qty.0 > 0 by {
                assert(after.contains(after[k]));
                assert(before.to_multiset().count(after[k]) > 0);
                let n = choose|n: int| 0 <= n < before.len() && before[n] == after[k];
                assert(before[n].price.0 > 0);
            }
        }
        let mut i: usize = 1;
        while i < self.levels.len()
            invariant
                1 <= i,
                self.side == old(self).side,
                self.capacity == old(self).capacity,
                self.horizon is None,
                side == self.side,
                self.levels@ == after,
                before == old(self).levels@,
                after.len() == before.len(),
                after.to_multiset() == before.to_multiset(),
                forall|i: int, j: int|
                    0 <= i < j < after.len() ==> !side.outranks(
                        (#[trigger] after[i]).price,
                        (#[trigger] after[j]).price,
                    ),
                forall|a: int, b: int|
                    0 <= a < b < i && b < after.len() ==> side.better(
                        (#[trigger] after[b]).price.0 as int,
                        (#[trigger] after[a]).price.0 as int,
                    ),
            decreases self.levels.len() - i,
        {
            let price: Price = self.levels[i].price;
            if self.levels[i - 1].price == price {
                proof {
                    lemma_first_repeat(side, before, after, i as int);
                }
                return Err(BookError::DuplicateLevel { side, price });
            }
            assert forall|a: int, b: int| 0 <= a < b < i + 1 && b < after.len() implies side.better(
                (#[trigger] after[b]).price.0 as int,
                (#[trigger] after[a]).price.0 as int,
            ) by {
                if b == i {
                    assert(!side.outranks(after[i - 1].price, after[b].price));
                    if a < i - 1 {
                        assert(side.better(after[i - 1].price.0 as int, after[a].price.0 as int));
                    }
                }
            }
            i = i + 1;
        }
        proof {
            assert(ascending(side, after));
            if exists|p: int| listed_twice(before, p) {
                let p = choose|p: int| listed_twice(before, p);
                lemma_rearranged_repeats(before, after, p);
            }
        }
        Ok(())
    }
}

/// Orders two levels of one side: `Less` means that the first is worse.
fn rank(side: Side, level: Price, other: Price) -> (r: Ordering)
    ensures
        r == Ordering::Less <==> side.outranks(other, level),
        r == Ordering::Greater <==> side.outranks(level, other),
{
    if side.is_more_aggressive(other, level) {
        Ordering::Less
    } else if side.is_more_aggressive(level, other) {
        Ordering::Greater
    } else {
        Ordering::Equal
    }
}

/// Calls `slice::sort_unstable_by` of std with [`rank`], which orders any two levels: the
/// entries are the same as before, and none is better than one that comes after it.
#[verifier::external_body]
fn sort_worst_first(side: Side, levels: &mut Vec<Level>)
    ensures
        final(levels)@.to_multiset() == old(levels)@.to_multiset(),
        forall|i: int, j: int|
            0 <= i < j < final(levels)@.len() ==> !side.outranks(
                (#[trigger] final(levels)@[i]).price,
                (#[trigger] final(levels)@[j]).price,
            ),
{
    levels.sort_unstable_by(|a, b| rank(side, a.price, b.price));
}

/// Checks an update's price and quantity.
fn validate(side: Side, price: Price, qty: Qty) -> (r: Result<(), BookError>)
    ensures
        r == (match update_fault(side, price, qty) {
            Some(error) => Err::<(), BookError>(error),
            None => Ok(()),
        }),
{
    if price.0 <= 0 {
        return Err(BookError::InvalidPrice { side, price });
    }
    if qty.0 < 0 {
        return Err(BookError::InvalidQty { side, price, qty });
    }
    Ok(())
}

} // verus!

//! What a snapshot is refused for, and what is left of a book then.

use crate::book::book::BookView;
use crate::book::ladder::{self, Applied, LadderView, Level};
use crate::book::laws;
use crate::book::BookError;
use crate::units::{Price, Qty, Side};
use vstd::prelude::*;

verus! {

/// A price beyond the horizon is not kept and changes nothing, whatever its quantity: nothing is
/// known of the levels there.
pub proof fn law_prices_beyond_the_horizon_change_nothing(
    ladder: LadderView,
    price: Price,
    qty: Qty,
    horizon: int,
)
    requires
        ladder.horizon == Some(horizon),
        ladder.side == Side::Buy ==> price.0 < horizon,
        ladder.side == Side::Sell ==> price.0 > horizon,
        price.0 > 0,
        qty.0 >= 0,
    ensures
        ladder.apply(price, qty) == (ladder, Ok::<Applied, BookError>(Applied::BeyondHorizon)),
{
}

/// A snapshot is taken or refused as a whole. Each side is loaded on its own, the bids' error is
/// the one that is given, and a book that refuses a snapshot holds nothing on either side.
pub proof fn law_snapshots_are_taken_or_refused_as_a_whole(
    book: BookView,
    bids: Seq<Level>,
    asks: Seq<Level>,
)
    ensures
        ({
            let (after, result) = book.load(bids, asks);
            let (bid_ladder, of_bids) = book.bids.load(bids);
            let (ask_ladder, of_asks) = book.asks.load(asks);
            &&& of_bids is Err ==> result == of_bids
            &&& of_bids is Ok && of_asks is Err ==> result == of_asks
            &&& of_bids is Ok && of_asks is Ok ==> result is Ok && after.bids == bid_ladder
                && after.asks == ask_ladder
            &&& result is Err ==> {
                &&& after.bids.levels == Map::<int, int>::empty()
                &&& after.asks.levels == Map::<int, int>::empty()
                &&& after.bids.horizon is None
                &&& after.asks.horizon is None
                &&& after.bids.capacity == book.bids.capacity
                &&& after.asks.capacity == book.asks.capacity
                &&& after.bids.side == book.bids.side
                &&& after.asks.side == book.asks.side
            }
        }),
{
}

/// A scan meets nothing before the first bad level, as long as everything fits.
proof fn lemma_scan_to_the_first(side: Side, capacity: nat, levels: Seq<Level>, i: int, n: int)
    requires
        0 <= i < levels.len(),
        i < capacity,
        0 <= n <= levels.len(),
        levels[i].price.0 <= 0 || levels[i].qty.0 <= 0,
        forall|k: int|
            0 <= k < i ==> (#[trigger] levels[k]).price.0 > 0 && levels[k].qty.0 > 0,
    ensures
        n <= i ==> ladder::scan_fault(side, capacity, levels.take(n)) is None,
        n > i ==> ladder::scan_fault(side, capacity, levels.take(n)) == ladder::level_fault(
            side,
            levels[i],
        ),
    decreases n,
{
    if n > 0 {
        lemma_scan_to_the_first(side, capacity, levels, i, n - 1);
        assert(levels.take(n).drop_last() =~= levels.take(n - 1));
        assert(levels.take(n).last() == levels[n - 1]);
    }
}

/// The first level with a price or a quantity that is not positive is the one that a snapshot is
/// refused for, by its price if that is bad and by its quantity otherwise.
pub proof fn law_the_first_bad_level_is_named(before: LadderView, levels: Seq<Level>, i: int)
    requires
        0 <= i < levels.len(),
        i < before.capacity,
        levels[i].price.0 <= 0 || levels[i].qty.0 <= 0,
        forall|k: int|
            0 <= k < i ==> (#[trigger] levels[k]).price.0 > 0 && levels[k].qty.0 > 0,
    ensures
        before.load(levels).1 == Err::<(), BookError>(
            if levels[i].price.0 <= 0 {
                BookError::InvalidPrice { side: before.side, price: levels[i].price }
            } else {
                BookError::InvalidQty {
                    side: before.side,
                    price: levels[i].price,
                    qty: levels[i].qty,
                }
            },
        ),
{
    lemma_scan_to_the_first(before.side, before.capacity, levels, i, levels.len() as int);
    assert(levels.take(levels.len() as int) =~= levels);
}

/// A scan of good levels that all fit meets nothing.
proof fn lemma_scan_of_good_levels(side: Side, capacity: nat, levels: Seq<Level>, n: int)
    requires
        0 <= n <= levels.len() <= capacity,
        forall|k: int|
            0 <= k < levels.len() ==> (#[trigger] levels[k]).price.0 > 0 && levels[k].qty.0 > 0,
    ensures
        ladder::scan_fault(side, capacity, levels.take(n)) is None,
    decreases n,
{
    if n > 0 {
        lemma_scan_of_good_levels(side, capacity, levels, n - 1);
        assert(levels.take(n).drop_last() =~= levels.take(n - 1));
        assert(levels.take(n).last() == levels[n - 1]);
    }
}

/// A snapshot that fits and lists good levels is refused for the worst of the prices that it lists
/// twice.
pub proof fn law_the_worst_repeated_price_is_named(
    before: LadderView,
    levels: Seq<Level>,
    i: int,
    j: int,
)
    requires
        0 <= i < j < levels.len() <= before.capacity,
        levels[i].price == levels[j].price,
        forall|k: int|
            0 <= k < levels.len() ==> (#[trigger] levels[k]).price.0 > 0 && levels[k].qty.0 > 0,
        forall|a: int, b: int|
            0 <= a < b < levels.len() && (#[trigger] levels[a]).price == (
            #[trigger] levels[b]).price ==> if before.side == Side::Buy {
                levels[a].price.0 >= levels[i].price.0
            } else {
                levels[a].price.0 <= levels[i].price.0
            },
    ensures
        before.load(levels).1 == Err::<(), BookError>(
            BookError::DuplicateLevel { side: before.side, price: levels[i].price },
        ),
{
    let p = levels[i].price.0 as int;
    lemma_scan_of_good_levels(before.side, before.capacity, levels, levels.len() as int);
    assert(levels.take(levels.len() as int) =~= levels);
    assert(ladder::listed_twice(levels, p));
    assert forall|q: int| #[trigger] ladder::listed_twice(levels, q) implies q == p
        || before.side.better(q, p) by {
        let (a, b) = choose|a: int, b: int|
            0 <= a < b < levels.len() && (#[trigger] levels[a]).price.0 == q && (
            #[trigger] levels[b]).price.0 == q;
        assert(levels[a].price == levels[b].price);
    }
    ladder::lemma_repeat_fault(before.side, levels, levels[i].price);
}

/// Among prices that are listed twice there is a worst one.
proof fn lemma_some_worst_repeat(side: Side, levels: Seq<Level>) -> (p: int)
    requires
        exists|p: int| ladder::listed_twice(levels, p),
    ensures
        ladder::is_worst_repeat(side, levels, p),
{
    let repeats = Map::new(|p: int| ladder::listed_twice(levels, p), |p: int| 0int);
    let listed = levels.map_values(|level: Level| level.price.0 as int);
    vstd::seq_lib::seq_to_set_is_finite(listed);
    assert(repeats.dom().subset_of(listed.to_set())) by {
        assert forall|p: int| repeats.dom().contains(p) implies listed.to_set().contains(p) by {
            let (a, b) = choose|a: int, b: int|
                0 <= a < b < levels.len() && (#[trigger] levels[a]).price.0 == p && (
                #[trigger] levels[b]).price.0 == p;
            assert(listed[a] == p);
        }
    }
    vstd::set_lib::lemma_len_subset(repeats.dom(), listed.to_set());
    let some = choose|p: int| ladder::listed_twice(levels, p);
    assert(repeats.contains_key(some));
    laws::lemma_extremes(side, repeats);
    let worst = ladder::worst_price(side, repeats);
    assert(ladder::is_worst(side, repeats, worst));
    assert forall|q: int| #[trigger] ladder::listed_twice(levels, q) implies q == worst
        || side.better(q, worst) by {
        assert(repeats.contains_key(q));
    }
    worst
}

/// A repeated price is listed twice.
proof fn lemma_repeat_is_listed_twice(side: Side, levels: Seq<Level>)
    requires
        ladder::repeat_fault(side, levels) is Some,
    ensures
        ladder::repeat_fault(side, levels) matches Some(BookError::DuplicateLevel { side: s, price })
            && s == side && ladder::listed_twice(levels, price.0 as int),
{
    let p = lemma_some_worst_repeat(side, levels);
    let (a, b) = choose|a: int, b: int|
        0 <= a < b < levels.len() && (#[trigger] levels[a]).price.0 == p && (
        #[trigger] levels[b]).price.0 == p;
    assert(ladder::is_worst_repeat(side, levels, levels[a].price.0 as int));
    ladder::lemma_repeat_fault(side, levels, levels[a].price);
}

/// Whether an error is about something that a list of levels holds.
pub open spec fn tells_of(side: Side, levels: Seq<Level>, error: BookError) -> bool {
    match error {
        BookError::InvalidPrice { side: s, price } => s == side && price.0 <= 0 && exists|i: int|
            0 <= i < levels.len() && (#[trigger] levels[i]).price == price,
        BookError::InvalidQty { side: s, price, qty } => s == side && price.0 > 0 && qty.0 <= 0
            && exists|i: int|
            0 <= i < levels.len() && (#[trigger] levels[i]).price == price && levels[i].qty == qty,
        BookError::DuplicateLevel { side: s, price } => s == side && exists|i: int, j: int|
            0 <= i < j < levels.len() && (#[trigger] levels[i]).price == price && (
            #[trigger] levels[j]).price == price,
        _ => false,
    }
}

/// What is told of the front of a list is told of the whole.
proof fn lemma_told_of_the_front(side: Side, levels: Seq<Level>, n: int, error: BookError)
    requires
        0 <= n <= levels.len(),
        tells_of(side, levels.take(n), error),
    ensures
        tells_of(side, levels, error),
{
    let front = levels.take(n);
    assert forall|i: int| 0 <= i < n implies #[trigger] front[i] == levels[i] by {
    }
    match error {
        BookError::InvalidPrice { price, .. } => {
            let i = choose|i: int| 0 <= i < front.len() && (#[trigger] front[i]).price == price;
            assert(levels[i].price == price);
        },
        BookError::InvalidQty { price, qty, .. } => {
            let i = choose|i: int|
                0 <= i < front.len() && (#[trigger] front[i]).price == price && front[i].qty == qty;
            assert(levels[i].price == price && levels[i].qty == qty);
        },
        BookError::DuplicateLevel { price, .. } => {
            let (i, j) = choose|i: int, j: int|
                0 <= i < j < front.len() && (#[trigger] front[i]).price == price && (
                #[trigger] front[j]).price == price;
            assert(levels[i].price == price && levels[j].price == price);
        },
        _ => {},
    }
}

/// A price that is listed twice is told of.
proof fn lemma_told_of_repeats(side: Side, levels: Seq<Level>)
    requires
        ladder::repeat_fault(side, levels) is Some,
    ensures
        tells_of(side, levels, ladder::repeat_fault(side, levels)->0),
{
    lemma_repeat_is_listed_twice(side, levels);
    let price = ladder::repeat_fault(side, levels)->0->DuplicateLevel_price;
    let (i, j) = choose|i: int, j: int|
        0 <= i < j < levels.len() && (#[trigger] levels[i]).price.0 == price.0 as int && (
        #[trigger] levels[j]).price.0 == price.0 as int;
    assert(levels[i].price == price && levels[j].price == price);
}

/// A scan refuses a list for something that it holds.
proof fn lemma_scan_tells(side: Side, capacity: nat, levels: Seq<Level>)
    requires
        ladder::scan_fault(side, capacity, levels) is Some,
    ensures
        tells_of(side, levels, ladder::scan_fault(side, capacity, levels)->0),
    decreases levels.len(),
{
    let front = levels.drop_last();
    let error = ladder::scan_fault(side, capacity, levels)->0;
    let last = levels.len() - 1;
    assert(levels.take(last) =~= front);
    assert(levels[last] == levels.last());
    if ladder::scan_fault(side, capacity, front) is Some {
        lemma_scan_tells(side, capacity, front);
        lemma_told_of_the_front(side, levels, last, error);
    } else if ladder::level_fault(side, levels.last()) is Some {
    } else if front.len() == capacity && ladder::repeat_fault(side, front) is Some {
        lemma_told_of_repeats(side, front);
        lemma_told_of_the_front(side, levels, last, error);
    } else {
        let p = levels.last().price.0 as int;
        assert(ladder::listed_prices(front).contains(p));
        let prices = front.map_values(|level: Level| level.price.0 as int);
        let k = choose|k: int| 0 <= k < prices.len() && prices[k] == p;
        assert(levels[k].price == levels[last].price);
    }
}

/// A snapshot is refused only for something that it lists, on the side it is for: a price or a
/// quantity that is not positive, or a price that is there twice.
pub proof fn law_snapshots_are_refused_only_for_what_they_list(
    before: LadderView,
    levels: Seq<Level>,
)
    requires
        before.load(levels).1 is Err,
    ensures
        tells_of(before.side, levels, before.load(levels).1->Err_0),
{
    if ladder::scan_fault(before.side, before.capacity, levels) is Some {
        lemma_scan_tells(before.side, before.capacity, levels);
    } else {
        lemma_told_of_repeats(before.side, levels);
    }
}

/// What a scan refuses stays refused whatever follows.
proof fn lemma_refused_for_good(side: Side, capacity: nat, levels: Seq<Level>, n: int, m: int)
    requires
        0 <= n <= m <= levels.len(),
        ladder::scan_fault(side, capacity, levels.take(n)) is Some,
    ensures
        ladder::scan_fault(side, capacity, levels.take(m)) is Some,
    decreases m - n,
{
    if n < m {
        lemma_refused_for_good(side, capacity, levels, n, m - 1);
        assert(levels.take(m).drop_last() =~= levels.take(m - 1));
    }
}

/// A snapshot that lists a price twice among the first levels, as many as fit, is refused however
/// long it is.
pub proof fn law_early_repeats_are_refused(before: LadderView, levels: Seq<Level>, i: int, j: int)
    requires
        0 <= i < j < levels.len(),
        j < before.capacity,
        levels[i].price == levels[j].price,
    ensures
        before.load(levels).1 is Err,
{
    let (side, capacity) = (before.side, before.capacity);
    let p = levels[i].price.0 as int;
    if levels.len() <= capacity {
        assert(ladder::listed_twice(levels, p));
    } else {
        let n = capacity as int;
        let front = levels.take(n);
        assert(front[i].price.0 == p && front[j].price.0 == p);
        assert(ladder::listed_twice(front, p));
        assert(levels.take(n + 1).drop_last() =~= front);
        assert(ladder::scan_fault(side, capacity, levels.take(n + 1)) is Some);
        lemma_refused_for_good(side, capacity, levels, n + 1, levels.len() as int);
        assert(levels.take(levels.len() as int) =~= levels);
    }
}

/// A snapshot that lists the best price so far once more, after as many levels as fit, is refused
/// however long it is.
pub proof fn law_late_repeats_of_the_best_are_refused(
    before: LadderView,
    levels: Seq<Level>,
    i: int,
    j: int,
)
    requires
        before.capacity > 0,
        0 <= i < j < levels.len(),
        before.capacity <= j,
        levels[i].price == levels[j].price,
        forall|k: int|
            0 <= k < j ==> if before.side == Side::Buy {
                (#[trigger] levels[k]).price.0 <= levels[i].price.0
            } else {
                levels[k].price.0 >= levels[i].price.0
            },
    ensures
        before.load(levels).1 is Err,
{
    let (side, capacity) = (before.side, before.capacity);
    let p = levels[i].price.0 as int;
    let front = levels.take(j);
    let prices = front.map_values(|level: Level| level.price.0 as int);
    assert(levels.take(j + 1).drop_last() =~= front);
    assert(levels.take(j + 1).last() == levels[j]);
    assert(prices[i] == p);
    assert(ladder::listed_prices(front).contains(p));
    assert(ladder::better_listed(side, front, p) =~= Set::empty()) by {
        assert forall|q: int| !ladder::better_listed(side, front, p).contains(q) by {
            if ladder::listed_prices(front).contains(q) {
                let k = choose|k: int| 0 <= k < prices.len() && prices[k] == q;
                assert(front[k] == levels[k]);
            }
        }
    }
    assert(ladder::best_levels(side, capacity, front).contains_key(p));
    assert(ladder::scan_fault(side, capacity, levels.take(j + 1)) is Some);
    lemma_refused_for_good(side, capacity, levels, j + 1, levels.len() as int);
    assert(levels.take(levels.len() as int) =~= levels);
}

} // verus!

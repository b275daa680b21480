//! What each call on a ladder and on a sync comes to, by what is asked of it and what it held.

use crate::book::book::{BookView, LevelUpdate};
use crate::book::ladder::{self, Applied, LadderView, Level};
use crate::book::laws::{self, VenueBook};
use crate::book::sync::{
    self, DeltaOutcome, Message, Replayed, SeqRange, SyncError, SyncStats, SyncView,
};
use crate::book::BookError;
use crate::units::{Price, Qty, Side};
use vstd::prelude::*;

verus! {

/// Bids are better the higher they are, asks the lower.
pub proof fn law_better_is_closer_to_the_other_side(a: int, b: int)
    ensures
        Side::Buy.better(a, b) <==> a > b,
        Side::Sell.better(a, b) <==> a < b,
{
}

/// An update is refused exactly if its price is not positive or its quantity is negative, and
/// then nothing changes.
pub proof fn law_invalid_updates_are_refused(ladder: LadderView, price: Price, qty: Qty)
    ensures
        ladder.apply(price, qty).1 is Err <==> price.0 <= 0 || qty.0 < 0,
        ladder.apply(price, qty).1 is Err ==> ladder.apply(price, qty).0 == ladder,
        price.0 <= 0 ==> ladder.apply(price, qty).1 == Err::<Applied, BookError>(
            BookError::InvalidPrice { side: ladder.side, price },
        ),
        price.0 > 0 && qty.0 < 0 ==> ladder.apply(price, qty).1 == Err::<Applied, BookError>(
            BookError::InvalidQty { side: ladder.side, price, qty },
        ),
{
}

/// What a valid update says that it did is what it did.
pub proof fn law_updates_do_what_they_say(ladder: LadderView, price: Price, qty: Qty)
    requires
        ladder.wf(),
        price.0 > 0,
        qty.0 >= 0,
    ensures
        ({
            let p = price.0 as int;
            let q = qty.0 as int;
            let (after, result) = ladder.apply(price, qty);
            &&& after.side == ladder.side && after.capacity == ladder.capacity
            &&& match result {
                Ok(Applied::Inserted) => !ladder.levels.contains_key(p) && q > 0
                    && after.levels.contains_key(p) && after.levels[p] == q,
                Ok(Applied::Updated) => ladder.levels.contains_key(p) && q > 0 && after
                    == (LadderView { levels: ladder.levels.insert(p, q), ..ladder }),
                Ok(Applied::Removed) => ladder.levels.contains_key(p) && q == 0 && after
                    == (LadderView { levels: ladder.levels.remove(p), ..ladder }),
                Ok(Applied::Unchanged) => !ladder.levels.contains_key(p) && q == 0 && after
                    == ladder,
                Ok(Applied::BeyondHorizon) => !ladder.levels.contains_key(p) && after.levels
                    == ladder.levels,
                Err(_) => false,
            }
        }),
{
    if ladder.levels.len() >= ladder.capacity {
        laws::lemma_extremes(ladder.side, ladder.levels);
    }
}

/// A new level is turned away only if it lies beyond the horizon, or if the ladder is full of
/// better ones.
pub proof fn law_levels_are_turned_away_only_for_want_of_room(
    ladder: LadderView,
    price: Price,
    qty: Qty,
)
    requires
        ladder.wf(),
        price.0 > 0,
        qty.0 > 0,
        ladder.apply(price, qty).1 == Ok::<Applied, BookError>(Applied::BeyondHorizon),
    ensures
        (ladder.horizon matches Some(h) && ladder.side.better(h, price.0 as int)) || (
        ladder.levels.len() == ladder.capacity && forall|p: int| #[trigger]
            ladder.levels.contains_key(p) ==> ladder.side.better(p, price.0 as int)),
{
    if ladder.levels.len() >= ladder.capacity {
        laws::lemma_extremes(ladder.side, ladder.levels);
        let w = ladder::worst_price(ladder.side, ladder.levels);
        assert(ladder.levels.contains_key(w));
    }
}

/// A new level with room displaces nothing. In a full ladder it displaces one level, the worst,
/// and the horizon is then the worst level that is left; the ladder stays full.
pub proof fn law_a_new_level_displaces_only_the_worst(ladder: LadderView, price: Price, qty: Qty)
    requires
        ladder.wf(),
        price.0 > 0,
        qty.0 > 0,
        ladder.apply(price, qty).1 == Ok::<Applied, BookError>(Applied::Inserted),
    ensures
        ({
            let p = price.0 as int;
            let after = ladder.apply(price, qty).0;
            if ladder.levels.len() < ladder.capacity {
                after == (LadderView { levels: ladder.levels.insert(p, qty.0 as int), ..ladder })
            } else {
                &&& after.levels.len() == ladder.levels.len()
                &&& exists|w: int| #[trigger]
                    ladder::is_worst(ladder.side, ladder.levels, w) && after.levels
                        == ladder.levels.remove(w).insert(p, qty.0 as int)
                &&& after.horizon matches Some(h) && after.levels.contains_key(h) && forall|q: int|
                    #[trigger]
                    after.levels.contains_key(q) ==> q == h || ladder.side.better(q, h)
            }
        }),
{
    let p = price.0 as int;
    let after = ladder.apply(price, qty).0;
    if ladder.levels.len() >= ladder.capacity {
        laws::lemma_extremes(ladder.side, ladder.levels);
        let w = ladder::worst_price(ladder.side, ladder.levels);
        assert(ladder::is_worst(ladder.side, ladder.levels, w));
        assert(after.levels.dom() =~= ladder.levels.dom().remove(w).insert(p));
        laws::lemma_extremes(ladder.side, after.levels);
    }
}

/// A level that is turned away from a full ladder leaves its worst level as the horizon.
pub proof fn law_a_full_ladder_has_its_worst_level_as_horizon(
    ladder: LadderView,
    price: Price,
    qty: Qty,
)
    requires
        ladder.wf(),
        price.0 > 0,
        qty.0 >= 0,
        ladder.apply(price, qty).1 == Ok::<Applied, BookError>(Applied::BeyondHorizon),
    ensures
        ({
            let after = ladder.apply(price, qty).0;
            if ladder.horizon matches Some(h) && ladder.side.better(h, price.0 as int) {
                after == ladder
            } else {
                after.horizon is Some && ladder::is_worst(
                    ladder.side,
                    ladder.levels,
                    after.horizon->0,
                )
            }
        }),
{
    if ladder.levels.len() >= ladder.capacity {
        laws::lemma_extremes(ladder.side, ladder.levels);
    }
}

/// The best level of a ladder is one that it holds, and none is better; there is one unless
/// nothing is held.
pub proof fn law_the_best_level_is_the_best(ladder: LadderView)
    requires
        ladder.wf(),
    ensures
        ladder.best() is None <==> ladder.levels.len() == 0,
        ladder.best() matches Some(best) ==> {
            &&& ladder.levels.contains_key(best.price.0 as int)
            &&& ladder.levels[best.price.0 as int] == best.qty.0
            &&& forall|p: int| #[trigger]
                ladder.levels.contains_key(p) ==> p == best.price.0 || ladder.side.better(
                    best.price.0 as int,
                    p,
                )
        },
{
    if ladder.levels.len() > 0 {
        laws::lemma_extremes(ladder.side, ladder.levels);
        let b = ladder::best_price(ladder.side, ladder.levels);
        assert(ladder.levels.contains_key(b));
    } else {
        assert(ladder.levels.dom() =~= Set::<int>::empty());
    }
}

/// A snapshot with an invalid level is refused, and the ladder is then empty.
pub proof fn law_bad_snapshots_are_refused(before: LadderView, levels: Seq<Level>, i: int)
    requires
        0 <= i < levels.len(),
        levels[i].price.0 <= 0 || levels[i].qty.0 <= 0,
    ensures
        before.load(levels).1 is Err,
        before.load(levels).0.levels == Map::<int, int>::empty(),
        before.load(levels).0.horizon is None,
    decreases levels.len(),
{
    lemma_scan_refuses(before.side, before.capacity, levels, i);
}

proof fn lemma_scan_refuses(side: Side, capacity: nat, levels: Seq<Level>, i: int)
    requires
        0 <= i < levels.len(),
        levels[i].price.0 <= 0 || levels[i].qty.0 <= 0,
    ensures
        ladder::scan_fault(side, capacity, levels) is Some,
    decreases levels.len(),
{
    if i < levels.len() - 1 {
        assert(levels.drop_last()[i] == levels[i]);
        lemma_scan_refuses(side, capacity, levels.drop_last(), i);
    }
}

/// What can be a snapshot: levels with positive prices and quantities, no price listed twice.
pub proof fn law_snapshots_are_positive_levels_listed_once(side: Side, levels: Seq<Level>)
    ensures
        laws::is_snapshot(side, levels) <==> (forall|i: int|
            0 <= i < levels.len() ==> (#[trigger] levels[i]).price.0 > 0 && levels[i].qty.0 > 0)
            && (forall|i: int, j: int|
            #![trigger levels[i], levels[j]]
            0 <= i < j < levels.len() ==> levels[i].price.0 != levels[j].price.0),
{
    if forall|i: int|
        0 <= i < levels.len() ==> (#[trigger] levels[i]).price.0 > 0 && levels[i].qty.0 > 0 {
        assert forall|i: int| 0 <= i < levels.len() implies ladder::level_fault(
            side,
            #[trigger] levels[i],
        ) is None by {}
    }
    if laws::is_snapshot(side, levels) {
        assert forall|i: int| 0 <= i < levels.len() implies (#[trigger] levels[i]).price.0 > 0
            && levels[i].qty.0 > 0 by {
            assert(ladder::level_fault(side, levels[i]) is None);
        }
        assert forall|i: int, j: int|
            #![trigger levels[i], levels[j]]
            0 <= i < j < levels.len() implies levels[i].price.0 != levels[j].price.0 by {
            if levels[i].price.0 == levels[j].price.0 {
                assert(ladder::listed_twice(levels, levels[i].price.0 as int));
            }
        }
    }
}

/// The updates that a book takes: positive prices, quantities that are not negative.
pub proof fn law_valid_updates_are_those_a_book_takes(updates: Seq<LevelUpdate>)
    ensures
        laws::all_valid(updates) <==> forall|i: int|
            0 <= i < updates.len() ==> (#[trigger] updates[i]).price.0 > 0 && updates[i].qty.0 >= 0,
{
    if laws::all_valid(updates) {
        assert forall|i: int| 0 <= i < updates.len() implies (#[trigger] updates[i]).price.0 > 0
            && updates[i].qty.0 >= 0 by {
            assert(ladder::update_fault(updates[i].side, updates[i].price, updates[i].qty) is None);
        }
    }
}

/// An update changes only its own side of a book.
pub proof fn law_updates_leave_the_other_side_alone(book: BookView, update: LevelUpdate)
    ensures
        update.side == Side::Buy ==> book.apply(update).0.asks == book.asks
            && (book.apply(update).0.bids, book.apply(update).1) == book.bids.apply(
            update.price,
            update.qty,
        ),
        update.side == Side::Sell ==> book.apply(update).0.bids == book.bids
            && (book.apply(update).0.asks, book.apply(update).1) == book.asks.apply(
            update.price,
            update.qty,
        ),
{
}

/// A ladder lists its levels from best to worst: bids from the highest price down, asks from the
/// lowest up, each level that it holds once.
pub proof fn law_levels_are_listed_from_best_to_worst(ladder: LadderView, ranked: Seq<Level>)
    requires
        ladder.wf(),
        ladder::is_ranking(ladder.side, ranked, ladder.levels),
    ensures
        ranked.len() == ladder.levels.len(),
        ranked.len() > 0 ==> ladder.best() == Some(ranked[0]),
        forall|i: int, j: int|
            #![trigger ranked[i], ranked[j]]
            0 <= i < j < ranked.len() ==> (ladder.side == Side::Buy ==> ranked[i].price.0
                > ranked[j].price.0) && (ladder.side == Side::Sell ==> ranked[i].price.0
                < ranked[j].price.0),
        forall|i: int|
            0 <= i < ranked.len() ==> ladder.levels.contains_key(
                (#[trigger] ranked[i]).price.0 as int,
            ) && ladder.levels[ranked[i].price.0 as int] == ranked[i].qty.0,
{
    let prices = ranked.map_values(|level: Level| level.price.0 as int);
    assert(prices.no_duplicates()) by {
        assert forall|i: int, j: int|
            0 <= i < prices.len() && 0 <= j < prices.len() && i != j implies prices[i]
            != prices[j] by {
            if i < j {
                assert(ranked[i].price.0 != ranked[j].price.0);
            } else {
                assert(ranked[j].price.0 != ranked[i].price.0);
            }
        }
    }
    prices.unique_seq_to_set();
    assert(prices.to_set() =~= ladder.levels.dom()) by {
        assert forall|p: int| prices.to_set().contains(p) == ladder.levels.dom().contains(p) by {
            if prices.to_set().contains(p) {
                let i = choose|i: int| 0 <= i < prices.len() && prices[i] == p;
                assert(ranked[i].price.0 == p);
            }
            if ladder.levels.contains_key(p) {
                let i = choose|i: int|
                    0 <= i < ranked.len() && (#[trigger] ranked[i]).price.0 == p;
                assert(prices[i] == p);
            }
        }
    }
    law_the_best_level_is_the_best(ladder);
    if ranked.len() > 0 {
        let best = ladder.best()->0;
        let i = choose|i: int|
            0 <= i < ranked.len() && (#[trigger] ranked[i]).price.0 == best.price.0 as int;
        assert(ranked[i].price.0 == best.price.0);
        assert(ladder.levels.contains_key(ranked[0].price.0 as int));
    }
}

/// A snapshot that fits is refused if it lists a price twice.
pub proof fn law_repeated_prices_are_refused(before: LadderView, levels: Seq<Level>, i: int, j: int)
    requires
        0 <= i < j < levels.len() <= before.capacity,
        levels[i].price == levels[j].price,
    ensures
        before.load(levels).1 is Err,
{
    assert(ladder::listed_twice(levels, levels[i].price.0 as int));
}

/// A book is crossed exactly if some bid is at or above some ask, and the levels named are then
/// its best.
pub proof fn law_a_crossing_is_the_best_levels(book: BookView)
    requires
        book.wf(),
    ensures
        book.crossing() is Some <==> exists|b: int, a: int|
            #![trigger book.bids.levels.contains_key(b), book.asks.levels.contains_key(a)]
            book.bids.levels.contains_key(b) && book.asks.levels.contains_key(a) && b >= a,
        book.crossing() matches Some((bid, ask)) ==> bid.0 >= ask.0
            && book.bids.levels.contains_key(bid.0 as int) && book.asks.levels.contains_key(
            ask.0 as int,
        ) && (forall|b: int| #[trigger] book.bids.levels.contains_key(b) ==> b <= bid.0) && (
        forall|a: int| #[trigger] book.asks.levels.contains_key(a) ==> a >= ask.0),
{
    law_the_best_level_is_the_best(book.bids);
    law_the_best_level_is_the_best(book.asks);
    if book.bids.levels.len() == 0 {
        assert(book.bids.levels.dom() =~= Set::<int>::empty());
    }
    if book.asks.levels.len() == 0 {
        assert(book.asks.levels.dom() =~= Set::<int>::empty());
    }
    if let Some((bid, ask)) = book.crossing() {
        assert(book.bids.levels.contains_key(bid.0 as int) && book.asks.levels.contains_key(
            ask.0 as int,
        ) && bid.0 >= ask.0);
    } else if book.bids.best() is Some && book.asks.best() is Some {
        let bid = book.bids.best()->0.price.0;
        let ask = book.asks.best()->0.price.0;
        assert forall|b: int, a: int|
            #![trigger book.bids.levels.contains_key(b), book.asks.levels.contains_key(a)]
            book.bids.levels.contains_key(b) && book.asks.levels.contains_key(a) implies b < a by {
            assert(b <= bid < ask <= a);
        }
    }
}

/// Whether every listed bid is below every listed ask.
pub open spec fn apart(bids: Seq<Level>, asks: Seq<Level>) -> bool {
    forall|i: int, j: int|
        #![trigger bids[i], asks[j]]
        0 <= i < bids.len() && 0 <= j < asks.len() ==> bids[i].price.0 < asks[j].price.0
}

/// Whether a ladder holds the best of the listed levels: all of them if they fit, else as many
/// as fit, with a horizon behind which the others lie.
pub open spec fn lists_best(ladder: LadderView, levels: Seq<Level>) -> bool {
    &&& laws::exact(ladder, ladder::level_map(levels))
    &&& ladder.levels.len() == (if levels.len() < ladder.capacity {
        levels.len()
    } else {
        ladder.capacity
    })
    &&& levels.len() <= ladder.capacity ==> ladder.horizon is None
}

/// The held levels of a snapshot are levels of it.
proof fn lemma_held_are_listed(ladder: LadderView, levels: Seq<Level>, p: int) -> (i: int)
    requires
        laws::exact(ladder, ladder::level_map(levels)),
        ladder.levels.contains_key(p),
    ensures
        0 <= i < levels.len(),
        levels[i].price.0 == p,
{
    assert(ladder::level_map(levels).contains_key(p));
    choose|i: int| 0 <= i < levels.len() && (#[trigger] levels[i]).price.0 == p
}

/// With nothing buffered, as is always so while live, a proper, uncrossed snapshot that is not
/// older than the book replaces it: the sync is live at the snapshot's own number, with the
/// levels that the snapshot lists.
pub proof fn law_newer_snapshots_replace_the_book(
    v: SyncView,
    seq: u64,
    bids: Seq<Level>,
    asks: Seq<Level>,
)
    requires
        v.wf(),
        v.pending.len() == 0,
        v.live matches Some(last) ==> seq >= last,
        laws::is_snapshot(Side::Buy, bids),
        laws::is_snapshot(Side::Sell, asks),
        apart(bids, asks),
    ensures
        ({
            let (after, result) = v.on_snapshot(seq, bids, asks);
            &&& result == Ok::<bool, SyncError>(true)
            &&& after.live == Some(seq)
            &&& lists_best(after.book.bids, bids)
            &&& lists_best(after.book.asks, asks)
            &&& after.pending.len() == 0
            &&& after.stats == v.stats
            &&& after.config == v.config
        }),
{
    laws::law_load_keeps_the_best_levels(v.book.bids, bids);
    laws::law_load_keeps_the_best_levels(v.book.asks, asks);
    let loaded = v.book.load(bids, asks).0;
    assert(loaded.wf());
    law_a_crossing_is_the_best_levels(loaded);
    if let Some((bid, ask)) = loaded.crossing() {
        let i = lemma_held_are_listed(loaded.bids, bids, bid.0 as int);
        let j = lemma_held_are_listed(loaded.asks, asks, ask.0 as int);
        assert(bids[i].price.0 < asks[j].price.0);
    }
}

/// A snapshot is ignored exactly if the book is live and newer, and then nothing changes.
pub proof fn law_only_older_snapshots_are_ignored(
    v: SyncView,
    seq: u64,
    bids: Seq<Level>,
    asks: Seq<Level>,
)
    ensures
        v.on_snapshot(seq, bids, asks).1 == Ok::<bool, SyncError>(false) <==> (v.live matches Some(
            last,
        ) && seq < last),
        v.live matches Some(last) && seq < last ==> v.on_snapshot(seq, bids, asks).0 == v,
{
}

/// A snapshot that is taken brings the book live, at a number that is not before the snapshot's;
/// one that is refused leaves no book and, unless it was merely too old, nothing buffered.
pub proof fn law_snapshots_go_live_or_take_the_book_away(
    v: SyncView,
    seq: u64,
    bids: Seq<Level>,
    asks: Seq<Level>,
)
    requires
        v.wf(),
    ensures
        ({
            let (after, result) = v.on_snapshot(seq, bids, asks);
            &&& result == Ok::<bool, SyncError>(true) ==> after.live is Some && after.live->0 >= seq
                && after.pending.len() == 0 && after.stats == v.stats
            &&& match result {
                Ok(_) => true,
                Err(SyncError::SnapshotTooOld { snapshot, .. }) => snapshot == seq && after.pending
                    == v.pending && after.live is None && after.stats == v.stats,
                Err(_) => after.live is None && after.pending.len() == 0
                    && after.stats.invalidations == v.stats.invalidations + (
                if v.stats.invalidations < u64::MAX {
                    1int
                } else {
                    0
                }) && after.stats.stale_deltas == v.stats.stale_deltas && after.stats.buffer_resets
                    == v.stats.buffer_resets,
            }
        }),
{
    let loaded = v.book.load(bids, asks).0;
    lemma_replay_moves_on(loaded, seq, v.pending);
}

proof fn lemma_replay_moves_on(book: BookView, seq: u64, messages: Seq<Message>)
    ensures
        sync::replay(book, seq, messages) matches Replayed::Done { last, .. } ==> last >= seq,
    decreases messages.len(),
{
    if messages.len() > 0 {
        lemma_replay_moves_on(book, seq, messages.drop_last());
    }
}

/// A crossed snapshot is refused, with the levels that cross.
pub proof fn law_crossed_snapshots_are_refused(
    v: SyncView,
    seq: u64,
    bids: Seq<Level>,
    asks: Seq<Level>,
)
    requires
        v.wf(),
        v.pending.len() == 0,
        v.live matches Some(last) ==> seq >= last,
        laws::is_snapshot(Side::Buy, bids),
        laws::is_snapshot(Side::Sell, asks),
        bids.len() <= v.book.bids.capacity,
        asks.len() <= v.book.asks.capacity,
        !apart(bids, asks),
    ensures
        v.on_snapshot(seq, bids, asks).0.live is None,
        v.on_snapshot(seq, bids, asks).1 matches Err(SyncError::Crossed { bid, ask }) && bid.0
            >= ask.0,
{
    laws::law_load_keeps_the_best_levels(v.book.bids, bids);
    laws::law_load_keeps_the_best_levels(v.book.asks, asks);
    laws::lemma_listed_map(bids);
    laws::lemma_listed_map(asks);
    let loaded = v.book.load(bids, asks).0;
    law_a_crossing_is_the_best_levels(loaded);
    let (i, j) = choose|i: int, j: int|
        #![trigger bids[i], asks[j]]
        0 <= i < bids.len() && 0 <= j < asks.len() && bids[i].price.0 >= asks[j].price.0;
    assert(loaded.bids.levels.contains_key(bids[i].price.0 as int));
    assert(loaded.asks.levels.contains_key(asks[j].price.0 as int));
}

/// A snapshot with an invalid level is refused whatever else it lists, and takes the book away.
pub proof fn law_invalid_snapshots_take_the_book_away(
    v: SyncView,
    seq: u64,
    bids: Seq<Level>,
    asks: Seq<Level>,
    i: int,
)
    requires
        v.live matches Some(last) ==> seq >= last,
        (0 <= i < bids.len() && (bids[i].price.0 <= 0 || bids[i].qty.0 <= 0)) || (0 <= i
            < asks.len() && (asks[i].price.0 <= 0 || asks[i].qty.0 <= 0)),
    ensures
        v.on_snapshot(seq, bids, asks).0.live is None,
        v.on_snapshot(seq, bids, asks).1 matches Err(SyncError::Book(_)),
{
    if 0 <= i < bids.len() && (bids[i].price.0 <= 0 || bids[i].qty.0 <= 0) {
        law_bad_snapshots_are_refused(v.book.bids, bids, i);
    } else {
        law_bad_snapshots_are_refused(v.book.asks, asks, i);
    }
}

/// A snapshot that leaves a hole before the buffered messages is too old, and the buffer is kept
/// for the next one.
pub proof fn law_a_hole_before_the_buffer_is_too_old(
    v: SyncView,
    seq: u64,
    bids: Seq<Level>,
    asks: Seq<Level>,
)
    requires
        v.wf(),
        v.live is None,
        laws::is_snapshot(Side::Buy, bids),
        laws::is_snapshot(Side::Sell, asks),
        v.pending.len() > 0,
        v.pending[0].range@.last > seq,
        v.pending[0].range@.first > seq + 1,
    ensures
        v.on_snapshot(seq, bids, asks).1 == Err::<bool, SyncError>(
            SyncError::SnapshotTooOld {
                snapshot: seq,
                first_buffered: v.pending[0].range@.first,
            },
        ),
        v.on_snapshot(seq, bids, asks).0.pending == v.pending,
        v.on_snapshot(seq, bids, asks).0.live is None,
{
    laws::law_load_keeps_the_best_levels(v.book.bids, bids);
    laws::law_load_keeps_the_best_levels(v.book.asks, asks);
    lemma_first_too_old(v.book.load(bids, asks).0, seq, v.pending);
}

proof fn lemma_first_too_old(book: BookView, seq: u64, messages: Seq<Message>)
    requires
        messages.len() > 0,
        messages[0].range@.last > seq,
        messages[0].range@.first > seq + 1,
    ensures
        sync::replay(book, seq, messages) == (Replayed::TooOld { first: messages[0].range@.first }),
    decreases messages.len(),
{
    if messages.len() == 1 {
        assert(messages.drop_last() =~= Seq::<Message>::empty());
        assert(messages.last() == messages[0]);
    } else {
        assert(messages.drop_last()[0] == messages[0]);
        lemma_first_too_old(book, seq, messages.drop_last());
    }
}

/// A live book ignores messages that it covers, takes no harm from them and counts them.
pub proof fn law_covered_deltas_are_ignored(
    v: SyncView,
    range: SeqRange,
    updates: Seq<LevelUpdate>,
    last: u64,
)
    requires
        v.live == Some(last),
    ensures
        v.on_delta(range, updates).1 == Ok::<DeltaOutcome, SyncError>(DeltaOutcome::Stale)
            <==> range@.last <= last,
        range@.last <= last ==> {
            let after = v.on_delta(range, updates).0;
            &&& after.book == v.book && after.live == v.live && after.pending == v.pending
            &&& after.config == v.config
            &&& v.stats.stale_deltas < u64::MAX ==> after.stats == (SyncStats {
                stale_deltas: (v.stats.stale_deltas + 1) as u64,
                ..v.stats
            })
        },
{
}

/// A live book that misses a sequence number is taken away at once. The error says which number
/// should have come, and the message that came is kept for the next snapshot if it fits.
pub proof fn law_gaps_take_the_book_away(
    v: SyncView,
    range: SeqRange,
    updates: Seq<LevelUpdate>,
    last: u64,
)
    requires
        v.wf(),
        v.live == Some(last),
        last < range@.last,
    ensures
        v.on_delta(range, updates).1 matches Err(SyncError::Gap { .. }) <==> range@.first > last
            + 1,
        range@.first > last + 1 ==> {
            let (after, result) = v.on_delta(range, updates);
            &&& result == Err::<DeltaOutcome, SyncError>(
                SyncError::Gap { expected: (last + 1) as u64, got: range },
            )
            &&& after.live is None
            &&& after.book.bids.levels == Map::<int, int>::empty()
            &&& after.book.asks.levels == Map::<int, int>::empty()
            &&& updates.len() <= v.config.buffered_updates ==> after.pending == seq![
                Message { range, updates },
            ]
            &&& v.stats.invalidations < u64::MAX ==> after.stats.invalidations
                == v.stats.invalidations + 1
        },
{
    assert(v.invalidated().pending.push(Message { range, updates }) =~= seq![
        Message { range, updates },
    ]);
    assert(sync::updates_in(Seq::<Message>::empty()) == 0);
}

/// A message that a live book continues with, without an invalid update, is applied, and the
/// book then stands at the message's last number with every level as the updates set it, unless
/// that leaves it crossed: then it is taken away.
pub proof fn law_continuing_deltas_are_applied(
    v: SyncView,
    range: SeqRange,
    updates: Seq<LevelUpdate>,
    venue: VenueBook,
    last: u64,
)
    requires
        v.wf(),
        v.live == Some(last),
        last < range@.last,
        range@.first <= last + 1,
        laws::all_valid(updates),
        laws::exact_book(v.book, venue),
    ensures
        ({
            let (after, result) = v.on_delta(range, updates);
            ||| {
                &&& result == Ok::<DeltaOutcome, SyncError>(DeltaOutcome::Applied)
                &&& after.live == Some(range@.last)
                &&& laws::exact_book(after.book, venue.after(updates))
                &&& after.book.crossing() is None
                &&& after.stats == v.stats && after.config == v.config
            }
            ||| {
                &&& result matches Err(SyncError::Crossed { bid, ask }) && bid.0 >= ask.0
                    && venue.after(updates).bids.contains_key(bid.0 as int) && venue.after(
                    updates,
                ).asks.contains_key(ask.0 as int)
                &&& after.live is None
                &&& v.stats.invalidations < u64::MAX ==> after.stats.invalidations
                    == v.stats.invalidations + 1
            }
        }),
        (forall|b: int, a: int|
            #![trigger venue.after(updates).bids.contains_key(b),
                venue.after(updates).asks.contains_key(a)]
            venue.after(updates).bids.contains_key(b) && venue.after(updates).asks.contains_key(a)
                ==> b < a) ==> v.on_delta(range, updates).1 == Ok::<DeltaOutcome, SyncError>(
            DeltaOutcome::Applied,
        ),
{
    laws::lemma_updates_stay_exact(v.book, venue, updates);
    laws::lemma_valid_updates_apply(v.book, updates);
    let book = sync::apply_updates(v.book, updates).0;
    law_a_crossing_is_the_best_levels(book);
}

/// A live book that is given an invalid update is taken away, with that update's error.
pub proof fn law_invalid_deltas_take_the_book_away(
    v: SyncView,
    range: SeqRange,
    updates: Seq<LevelUpdate>,
    last: u64,
    i: int,
)
    requires
        v.wf(),
        v.live == Some(last),
        last < range@.last,
        range@.first <= last + 1,
        0 <= i < updates.len(),
        updates[i].price.0 <= 0 || updates[i].qty.0 < 0,
        laws::all_valid(updates.take(i)),
    ensures
        v.on_delta(range, updates).0.live is None,
        v.on_delta(range, updates).1 == Err::<DeltaOutcome, SyncError>(
            SyncError::Book(
                if updates[i].price.0 <= 0 {
                    BookError::InvalidPrice { side: updates[i].side, price: updates[i].price }
                } else {
                    BookError::InvalidQty {
                        side: updates[i].side,
                        price: updates[i].price,
                        qty: updates[i].qty,
                    }
                },
            ),
        ),
{
    lemma_first_invalid(v.book, updates, i, updates.len() as int);
    assert(updates.take(updates.len() as int) =~= updates);
}

proof fn lemma_first_invalid(book: BookView, updates: Seq<LevelUpdate>, i: int, n: int)
    requires
        book.wf(),
        0 <= i < n <= updates.len(),
        updates[i].price.0 <= 0 || updates[i].qty.0 < 0,
        laws::all_valid(updates.take(i)),
    ensures
        sync::apply_updates(book, updates.take(n)).1 == Some(
            if updates[i].price.0 <= 0 {
                BookError::InvalidPrice { side: updates[i].side, price: updates[i].price }
            } else {
                BookError::InvalidQty {
                    side: updates[i].side,
                    price: updates[i].price,
                    qty: updates[i].qty,
                }
            },
        ),
    decreases n,
{
    assert(updates.take(n).drop_last() =~= updates.take(n - 1));
    assert(updates.take(n).last() == updates[n - 1]);
    if i < n - 1 {
        lemma_first_invalid(book, updates, i, n - 1);
    } else {
        laws::lemma_valid_updates_apply(book, updates.take(i));
    }
}

/// A waiting sync keeps what continues its buffered chain, ignores what the chain covers, and
/// starts over with what leaves a hole. No delta makes a waiting sync live.
pub proof fn law_waiting_syncs_buffer_the_newest_chain(
    v: SyncView,
    range: SeqRange,
    updates: Seq<LevelUpdate>,
)
    requires
        v.wf(),
        v.live is None,
    ensures
        ({
            let (after, result) = v.on_delta(range, updates);
            let message = Message { range, updates };
            let known = v.pending.len() > 0 && range@.last <= v.pending.last().range@.last;
            let broken = v.pending.len() > 0 && range@.first > v.pending.last().range@.last + 1;
            let fits = v.pending.len() < v.config.buffered_messages && sync::updates_in(v.pending)
                + updates.len() <= v.config.buffered_updates;
            &&& after.live is None && after.book == v.book && after.config == v.config
            &&& after.stats.invalidations == v.stats.invalidations
            &&& result == Ok::<DeltaOutcome, SyncError>(
                if known {
                    DeltaOutcome::Stale
                } else {
                    DeltaOutcome::Buffered
                },
            )
            &&& known ==> after.pending == v.pending && after.stats.buffer_resets
                == v.stats.buffer_resets && (v.stats.stale_deltas < u64::MAX
                ==> after.stats.stale_deltas == v.stats.stale_deltas + 1)
            &&& !known ==> after.stats.stale_deltas == v.stats.stale_deltas
            &&& !known && !broken && fits ==> after.pending == v.pending.push(message)
                && after.stats == v.stats
            &&& !known && broken && updates.len() <= v.config.buffered_updates ==> after.pending
                == seq![message]
            &&& !known && (broken || !fits) && v.stats.buffer_resets < u64::MAX
                ==> after.stats.buffer_resets > v.stats.buffer_resets
            &&& !known && !broken && v.pending.len() >= v.config.buffered_messages && updates.len()
                <= v.config.buffered_updates ==> after.pending == seq![message]
            &&& !known && updates.len() > v.config.buffered_updates ==> after.pending.len() == 0
            &&& !known && !broken && v.pending.len() < v.config.buffered_messages && !fits
                ==> after.pending.len() == 0
        }),
{
    let message = Message { range, updates };
    assert(Seq::<Message>::empty().push(message) =~= seq![message]);
    assert(sync::updates_in(Seq::<Message>::empty()) == 0);
}

/// A reset takes the book away and forgets what was buffered.
pub proof fn law_a_reset_waits_for_a_snapshot(v: SyncView)
    ensures
        v.invalidated().live is None,
        v.invalidated().pending.len() == 0,
        v.invalidated().book.bids.levels == Map::<int, int>::empty(),
        v.invalidated().book.asks.levels == Map::<int, int>::empty(),
        v.invalidated().config == v.config,
{
}

} // verus!

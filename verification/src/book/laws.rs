//! What books and their synchronization promise as a whole, stated against a plain model: a
//! venue side is the map from every price with a resting order to its quantity.

use crate::book::book::{BookView, LevelUpdate};
use crate::book::ladder::{self, LadderView, Level};
use crate::book::sync::{self, Message, Replayed, SeqRange, SyncView};
use crate::units::{Price, Qty, Side};
use vstd::prelude::*;

verus! {

/// The venue's levels after it sets the quantity at `price`; zero removes the level.
pub open spec fn venue_set(levels: Map<int, int>, price: int, qty: int) -> Map<int, int> {
    if qty == 0 {
        levels.remove(price)
    } else {
        levels.insert(price, qty)
    }
}

/// Whether `ladder` holds exactly those venue levels that are not beyond its horizon.
pub open spec fn exact(ladder: LadderView, venue: Map<int, int>) -> bool {
    &&& forall|p: int| #[trigger]
        ladder.levels.contains_key(p) <==> venue.contains_key(p) && !ladder.beyond_horizon(p)
    &&& forall|p: int| #[trigger] ladder.levels.contains_key(p) ==> ladder.levels[p] == venue[p]
}

/// A finite, non-empty side has a worst and a best price.
pub(crate) proof fn lemma_extremes(side: Side, levels: Map<int, int>)
    requires
        levels.dom().finite(),
        levels.len() > 0,
    ensures
        ladder::is_worst(side, levels, ladder::worst_price(side, levels)),
        ladder::is_best(side, levels, ladder::best_price(side, levels)),
    decreases levels.len(),
{
    let p = levels.dom().choose();
    assert(levels.contains_key(p));
    if levels.len() == 1 {
        assert(levels.dom().remove(p).len() == 0);
        assert forall|q: int| levels.contains_key(q) implies q == p by {
            if q != p {
                assert(levels.dom().remove(p).contains(q));
            }
        }
        assert(ladder::is_worst(side, levels, p));
        assert(ladder::is_best(side, levels, p));
    } else {
        let rest = levels.remove(p);
        assert(rest.dom() =~= levels.dom().remove(p));
        lemma_extremes(side, rest);
        let w = ladder::worst_price(side, rest);
        let b = ladder::best_price(side, rest);
        assert forall|q: int| levels.contains_key(q) && q != p implies rest.contains_key(q) by {}
        assert(ladder::is_worst(side, levels, if side.better(w, p) { p } else { w }));
        assert(ladder::is_best(side, levels, if side.better(p, b) { p } else { b }));
    }
}

/// Whatever updates come, a ladder keeps its invariant, and every level at or better than its
/// horizon stays exact.
pub proof fn law_ladder_stays_exact_up_to_its_horizon(
    ladder: LadderView,
    venue: Map<int, int>,
    price: Price,
    qty: Qty,
)
    requires
        ladder.wf(),
        exact(ladder, venue),
    ensures
        ladder.apply(price, qty).0.wf(),
        ladder::update_fault(ladder.side, price, qty) is None ==> exact(
            ladder.apply(price, qty).0,
            venue_set(venue, price.0 as int, qty.0 as int),
        ),
{
    if ladder::update_fault(ladder.side, price, qty) is None {
        let p = price.0 as int;
        let side = ladder.side;
        let after = ladder.apply(price, qty).0;
        let full = ladder.levels.len() >= ladder.capacity;
        if !ladder.beyond_horizon(p) && qty.0 != 0 && !ladder.levels.contains_key(p) && full {
            lemma_extremes(side, ladder.levels);
            let w = ladder::worst_price(side, ladder.levels);
            assert(ladder.levels.contains_key(w));
            if side.better(p, w) {
                assert(after.levels.dom() =~= ladder.levels.dom().remove(w).insert(p));
                lemma_extremes(side, after.levels);
                let h = ladder::worst_price(side, after.levels);
                assert(after.levels.contains_key(h));
                assert(after.horizon == Some(h));
                assert(side.better(h, w));
                assert forall|q: int| #[trigger] after.levels.contains_key(q) implies 0 < q
                    <= i64::MAX && 0 < after.levels[q] <= i64::MAX && !after.beyond_horizon(q) by {
                    if q != p {
                        assert(ladder.levels.contains_key(q));
                    }
                }
                let venue2 = venue_set(venue, p, qty.0 as int);
                assert forall|q: int| #[trigger]
                    after.levels.contains_key(q) <==> venue2.contains_key(q)
                        && !after.beyond_horizon(q) by {
                    assert(ladder.levels.contains_key(q) <==> venue.contains_key(q)
                        && !ladder.beyond_horizon(q));
                    if h != p {
                        assert(ladder.levels.contains_key(h));
                    }
                    assert(!ladder.beyond_horizon(h));
                }
                assert forall|q: int| #[trigger] after.levels.contains_key(q) implies after.levels[q]
                    == venue2[q] by {
                    if q != p {
                        assert(ladder.levels.contains_key(q));
                    }
                }
            }
        } else {
            assert(after.levels.dom() =~= ladder.levels.dom() || after.levels.dom()
                =~= ladder.levels.dom().remove(p) || after.levels.dom()
                =~= ladder.levels.dom().insert(p));
        }
    }
}

/// While every price it is told of fits, a ladder holds the whole venue side and has no
/// horizon.
pub proof fn law_ladder_with_room_matches_the_venue(
    ladder: LadderView,
    prices: Set<int>,
    price: Price,
    qty: Qty,
)
    requires
        ladder.wf(),
        ladder.horizon is None,
        prices.finite(),
        prices.len() <= ladder.capacity,
        ladder.levels.dom().subset_of(prices),
        prices.contains(price.0 as int),
        ladder::update_fault(ladder.side, price, qty) is None,
    ensures
        ladder.apply(price, qty).0.horizon is None,
        ladder.apply(price, qty).0.levels == venue_set(
            ladder.levels,
            price.0 as int,
            qty.0 as int,
        ),
        ladder.apply(price, qty).0.levels.dom().subset_of(prices),
{
    let p = price.0 as int;
    if !ladder.levels.contains_key(p) {
        assert(ladder.levels.dom().subset_of(prices.remove(p)));
        vstd::set_lib::lemma_len_subset(ladder.levels.dom(), prices.remove(p));
        if qty.0 == 0 {
            assert(ladder.levels.remove(p) =~= ladder.levels);
        }
    }
}

/// Whether `levels` can be a snapshot: every level valid, no price twice.
pub open spec fn is_snapshot(side: Side, levels: Seq<Level>) -> bool {
    &&& forall|i: int|
        0 <= i < levels.len() ==> ladder::level_fault(side, #[trigger] levels[i]) is None
    &&& forall|p: int| !#[trigger] ladder::listed_twice(levels, p)
}

/// A proper snapshot meets no refusal.
proof fn lemma_snapshot_scans(side: Side, capacity: nat, levels: Seq<Level>)
    requires
        is_snapshot(side, levels),
    ensures
        ladder::scan_fault(side, capacity, levels) is None,
        ladder::repeat_fault(side, levels) is None,
    decreases levels.len(),
{
    if levels.len() > 0 {
        let before = levels.drop_last();
        let next = levels.last();
        assert forall|p: int| !#[trigger] ladder::listed_twice(before, p) by {
            if ladder::listed_twice(before, p) {
                let (i, j) = choose|i: int, j: int|
                    0 <= i < j < before.len() && (#[trigger] before[i]).price.0 == p && (
                    #[trigger] before[j]).price.0 == p;
                assert(levels[i].price.0 == p && levels[j].price.0 == p);
                assert(ladder::listed_twice(levels, p));
            }
        }
        assert forall|i: int| 0 <= i < before.len() implies ladder::level_fault(
            side,
            #[trigger] before[i],
        ) is None by {
            assert(before[i] == levels[i]);
        }
        lemma_snapshot_scans(side, capacity, before);
        assert(levels[levels.len() - 1] == next);
        let prices = before.map_values(|level: Level| level.price.0 as int);
        if ladder::listed_prices(before).contains(next.price.0 as int) {
            let i = choose|i: int| 0 <= i < prices.len() && prices[i] == next.price.0 as int;
            assert(levels[i].price.0 == next.price.0);
            assert(levels[levels.len() - 1].price.0 == next.price.0);
            assert(ladder::listed_twice(levels, next.price.0 as int));
        }
    }
}

/// The map of a list without repeats holds each entry of it, and nothing else.
pub(crate) proof fn lemma_listed_map(levels: Seq<Level>)
    requires
        forall|p: int| !#[trigger] ladder::listed_twice(levels, p),
    ensures
        forall|i: int|
            0 <= i < levels.len() ==> ladder::level_map(levels).contains_key(
                (#[trigger] levels[i]).price.0 as int,
            ) && ladder::level_map(levels)[levels[i].price.0 as int] == levels[i].qty.0,
        ladder::level_map(levels).dom() == ladder::listed_prices(levels),
        ladder::listed_prices(levels).finite(),
        ladder::listed_prices(levels).len() == levels.len(),
{
    let m = ladder::level_map(levels);
    let prices = levels.map_values(|level: Level| level.price.0 as int);
    assert forall|i: int, j: int| 0 <= i < j < levels.len() implies #[trigger] levels[i].price.0
        != #[trigger] levels[j].price.0 by {
        if levels[i].price.0 == levels[j].price.0 {
            assert(ladder::listed_twice(levels, levels[i].price.0 as int));
        }
    }
    assert(prices.no_duplicates()) by {
        assert forall|i: int, j: int|
            0 <= i < prices.len() && 0 <= j < prices.len() && i != j implies prices[i]
            != prices[j] by {
            if i < j {
                assert(levels[i].price.0 != levels[j].price.0);
            } else {
                assert(levels[j].price.0 != levels[i].price.0);
            }
        }
    }
    prices.unique_seq_to_set();
    vstd::seq_lib::seq_to_set_is_finite(prices);
    assert(m.dom() =~= prices.to_set()) by {
        assert forall|p: int| m.dom().contains(p) == prices.to_set().contains(p) by {
            if m.dom().contains(p) {
                let k = choose|k: int| 0 <= k < levels.len() && (#[trigger] levels[k]).price.0 == p;
                assert(prices[k] == p);
            }
            if prices.to_set().contains(p) {
                let k = choose|k: int| 0 <= k < prices.len() && prices[k] == p;
                assert(levels[k].price.0 == p);
            }
        }
    }
    assert forall|i: int| 0 <= i < levels.len() implies m.contains_key(
        (#[trigger] levels[i]).price.0 as int,
    ) && m[levels[i].price.0 as int] == levels[i].qty.0 by {
        let p = levels[i].price.0 as int;
        let k = choose|k: int| 0 <= k < levels.len() && (#[trigger] levels[k]).price.0 == p;
        assert(0 <= k < levels.len() && levels[k].price.0 == p);
        assert(prices[k] == prices[i]);
    }
}

/// A proper snapshot always loads. The ladder then holds its best levels, as many as fit, and
/// is exact up to its horizon.
pub proof fn law_load_keeps_the_best_levels(before: LadderView, levels: Seq<Level>)
    requires
        before.capacity > 0,
        is_snapshot(before.side, levels),
    ensures
        before.load(levels).1 is Ok,
        before.load(levels).0.wf(),
        before.load(levels).0.levels.len() == (if levels.len() < before.capacity {
            levels.len()
        } else {
            before.capacity
        }),
        exact(before.load(levels).0, ladder::level_map(levels)),
{
    let side = before.side;
    let capacity = before.capacity;
    let after = before.load(levels).0;
    let listed = ladder::listed_prices(levels);
    let venue = ladder::level_map(levels);
    lemma_snapshot_scans(side, capacity, levels);
    lemma_listed_map(levels);
    let best = after.levels;
    assert(best.dom().subset_of(listed));
    vstd::set_lib::lemma_len_subset(best.dom(), listed);
    assert forall|p: int| #[trigger] best.contains_key(p) implies best[p] == venue[p] && 0 < p
        <= i64::MAX && 0 < best[p] <= i64::MAX by {
        assert(venue.contains_key(p));
        let k = choose|k: int| 0 <= k < levels.len() && (#[trigger] levels[k]).price.0 == p;
        assert(ladder::level_fault(side, levels[k]) is None);
        assert(venue[levels[k].price.0 as int] == levels[k].qty.0);
    }
    if levels.len() <= capacity {
        assert forall|p: int| listed.contains(p) implies best.contains_key(p) by {
            let above = ladder::better_listed(side, levels, p);
            assert(above.subset_of(listed.remove(p)));
            vstd::set_lib::lemma_len_subset(above, listed.remove(p));
        }
        assert(best.dom() =~= listed);
    } else {
        lemma_extremes(side, venue);
        let top = ladder::best_price(side, venue);
        assert(venue.contains_key(top));
        assert(ladder::better_listed(side, levels, top) =~= Set::<int>::empty()) by {
            assert forall|q: int| !ladder::better_listed(side, levels, top).contains(q) by {
                if listed.contains(q) {
                    assert(venue.contains_key(q));
                }
            }
        }
        assert(best.contains_key(top));
        assert(best.len() > 0) by {
            if best.len() == 0 {
                assert(best.dom() =~= Set::<int>::empty());
            }
        }
        lemma_extremes(side, best);
        let h = ladder::worst_price(side, best);
        assert(best.contains_key(h));
        let above = ladder::better_listed(side, levels, h);
        assert(above.subset_of(listed));
        vstd::set_lib::lemma_len_subset(above, listed);
        assert forall|p: int| #[trigger] best.contains_key(p) <==> venue.contains_key(p)
            && !after.beyond_horizon(p) by {
            if venue.contains_key(p) && !after.beyond_horizon(p) {
                let mine = ladder::better_listed(side, levels, p);
                assert(mine.subset_of(above));
                vstd::set_lib::lemma_len_subset(mine, above);
            }
        }
        assert(best.dom() =~= above.insert(h));
        assert(best.len() == above.len() + 1);
        lemma_ranks_are_dense(side, levels, capacity, h);
    }
}

/// If exactly `n` listed prices are better than `p` and worse ones remain, one of those has
/// `n + 1` better ones.
proof fn lemma_ranks_are_dense(side: Side, levels: Seq<Level>, capacity: nat, h: int)
    requires
        forall|p: int| !#[trigger] ladder::listed_twice(levels, p),
        levels.len() > capacity,
        capacity > 0,
        ladder::listed_prices(levels).contains(h),
        ladder::better_listed(side, levels, h).len() < capacity,
        forall|p: int| #[trigger]
            ladder::best_levels(side, capacity, levels).contains_key(p) ==> p == h || side.better(
                p,
                h,
            ),
    ensures
        ladder::better_listed(side, levels, h).len() + 1 == capacity,
{
    let listed = ladder::listed_prices(levels);
    lemma_listed_map(levels);
    let above = ladder::better_listed(side, levels, h);
    vstd::set_lib::lemma_len_subset(above, listed);
    let upto = above.insert(h);
    let below = listed.difference(upto);
    assert(listed =~= upto.union(below));
    assert(upto.disjoint(below));
    vstd::set_lib::lemma_set_disjoint_lens(upto, below);
    assert(below.len() > 0);
    let worse = Map::new(|p: int| below.contains(p), |p: int| 0int);
    assert(worse.dom() =~= below);
    lemma_extremes(side, worse);
    let next = ladder::best_price(side, worse);
    assert(worse.contains_key(next));
    let next_above = ladder::better_listed(side, levels, next);
    assert(next_above =~= upto) by {
        assert forall|q: int| next_above.contains(q) == upto.contains(q) by {
            if below.contains(q) {
                assert(worse.contains_key(q));
            }
        }
    }
    if above.len() + 1 < capacity {
        assert(ladder::best_levels(side, capacity, levels).contains_key(next));
    }
}

/// Loading does not depend on the order in which a snapshot lists its levels.
pub proof fn law_load_ignores_order(before: LadderView, a: Seq<Level>, b: Seq<Level>)
    requires
        is_snapshot(before.side, a),
        is_snapshot(before.side, b),
        a.to_multiset() == b.to_multiset(),
    ensures
        before.load(a) == before.load(b),
{
    broadcast use vstd::seq_lib::group_to_multiset_ensures;

    lemma_snapshot_scans(before.side, before.capacity, a);
    lemma_snapshot_scans(before.side, before.capacity, b);
    lemma_listed_map(a);
    lemma_listed_map(b);
    assert(a.to_multiset().len() == b.to_multiset().len());
    assert(ladder::listed_prices(a) =~= ladder::listed_prices(b)) by {
        assert forall|p: int|
            ladder::listed_prices(a).contains(p) == ladder::listed_prices(b).contains(p) by {
            if ladder::listed_prices(a).contains(p) {
                lemma_relisted(a, b, p);
            }
            if ladder::listed_prices(b).contains(p) {
                lemma_relisted(b, a, p);
            }
        }
    }
    assert forall|p: int| ladder::listed_prices(a).contains(p) implies ladder::level_map(a)[p]
        == ladder::level_map(b)[p] by {
        lemma_relisted(a, b, p);
    }
    let best_a = ladder::best_levels(before.side, before.capacity, a);
    let best_b = ladder::best_levels(before.side, before.capacity, b);
    assert forall|p: int| ladder::better_listed(before.side, a, p) == ladder::better_listed(
        before.side,
        b,
        p,
    ) by {}
    assert(best_a =~= best_b) by {
        assert forall|p: int| best_a.contains_key(p) implies best_a[p] == best_b[p] by {
            assert(ladder::level_map(a)[p] == best_a[p]);
            assert(ladder::level_map(b)[p] == best_b[p]);
        }
    }
}

/// A rearranged list lists the same quantity at each price.
proof fn lemma_relisted(a: Seq<Level>, b: Seq<Level>, p: int)
    requires
        a.to_multiset() == b.to_multiset(),
        ladder::listed_prices(a).contains(p),
        forall|p: int| !#[trigger] ladder::listed_twice(a, p),
        forall|p: int| !#[trigger] ladder::listed_twice(b, p),
    ensures
        ladder::listed_prices(b).contains(p),
        ladder::level_map(a)[p] == ladder::level_map(b)[p],
{
    broadcast use vstd::seq_lib::group_to_multiset_ensures;

    lemma_listed_map(a);
    lemma_listed_map(b);
    assert(ladder::level_map(a).contains_key(p));
    let k = choose|k: int| 0 <= k < a.len() && (#[trigger] a[k]).price.0 == p;
    assert(a.contains(a[k]));
    assert(b.to_multiset().count(a[k]) > 0);
    let n = choose|n: int| 0 <= n < b.len() && b[n] == a[k];
    assert(ladder::level_map(b).contains_key(b[n].price.0 as int));
}

/// Every level of both sides of a venue's book.
#[verifier::ext_equal]
pub struct VenueBook {
    pub bids: Map<int, int>,
    pub asks: Map<int, int>,
}

impl VenueBook {
    /// One side.
    pub open spec fn side(self, side: Side) -> Map<int, int> {
        match side {
            Side::Buy => self.bids,
            Side::Sell => self.asks,
        }
    }

    /// The venue's book after one update.
    pub open spec fn apply(self, update: LevelUpdate) -> VenueBook {
        let p = update.price.0 as int;
        let q = update.qty.0 as int;
        match update.side {
            Side::Buy => VenueBook { bids: venue_set(self.bids, p, q), ..self },
            Side::Sell => VenueBook { asks: venue_set(self.asks, p, q), ..self },
        }
    }

    /// The venue's book after `updates` in order.
    pub open spec fn after(self, updates: Seq<LevelUpdate>) -> VenueBook
        decreases updates.len(),
    {
        if updates.len() == 0 {
            self
        } else {
            self.after(updates.drop_last()).apply(updates.last())
        }
    }
}

/// All the updates of a stream, in order. Each sequence number stands for any number of them.
pub open spec fn flat(stream: Seq<Seq<LevelUpdate>>) -> Seq<LevelUpdate>
    decreases stream.len(),
{
    if stream.len() == 0 {
        Seq::empty()
    } else {
        flat(stream.drop_last()) + stream.last()
    }
}

/// The updates of a stream in two parts.
proof fn lemma_flat_concat(a: Seq<Seq<LevelUpdate>>, b: Seq<Seq<LevelUpdate>>)
    ensures
        flat(a + b) == flat(a) + flat(b),
    decreases b.len(),
{
    if b.len() == 0 {
        assert(a + b =~= a);
        assert(flat(a) + flat(b) =~= flat(a));
    } else {
        assert((a + b).drop_last() =~= a + b.drop_last());
        lemma_flat_concat(a, b.drop_last());
        assert(flat(a) + flat(b.drop_last()) + b.last() =~= flat(a) + flat(b));
    }
}

/// The updates of a part of a stream stand among all of them, from this position on.
proof fn lemma_flat_part(stream: Seq<Seq<LevelUpdate>>, from: int, to: int) -> (at: int)
    requires
        0 <= from <= to <= stream.len(),
    ensures
        at >= 0,
        at + flat(stream.subrange(from, to)).len() <= flat(stream).len(),
        forall|i: int|
            0 <= i < flat(stream.subrange(from, to)).len() ==> (#[trigger] flat(
                stream.subrange(from, to),
            )[i]) == flat(stream)[at + i],
{
    let part = stream.subrange(from, to);
    assert(stream =~= stream.take(from) + part + stream.skip(to));
    lemma_flat_concat(stream.take(from) + part, stream.skip(to));
    lemma_flat_concat(stream.take(from), part);
    flat(stream.take(from)).len() as int
}

/// The venue's book after the first `seq` sequence numbers of its stream, from an empty book.
pub open spec fn venue_at(stream: Seq<Seq<LevelUpdate>>, seq: int) -> VenueBook {
    VenueBook { bids: Map::empty(), asks: Map::empty() }.after(flat(stream.take(seq)))
}

/// Whether both ladders of `book` are exact up to their horizons.
pub open spec fn exact_book(book: BookView, venue: VenueBook) -> bool {
    exact(book.bids, venue.bids) && exact(book.asks, venue.asks)
}

/// Whether `message` carries the updates of `stream` that its range covers. The first sequence
/// number is 1.
pub open spec fn carries(stream: Seq<Seq<LevelUpdate>>, message: Message) -> bool {
    &&& 1 <= message.range@.first <= message.range@.last <= stream.len()
    &&& message.updates == flat(
        stream.subrange(message.range@.first - 1, message.range@.last as int),
    )
}

/// Whether a sync has followed `stream` faithfully so far: what it buffers comes from the
/// stream, and a live book is the venue's book at its last sequence number.
pub open spec fn tracks(v: SyncView, stream: Seq<Seq<LevelUpdate>>) -> bool {
    &&& forall|i: int| 0 <= i < v.pending.len() ==> carries(stream, #[trigger] v.pending[i])
    &&& v.live matches Some(last) ==> last <= stream.len() && exact_book(
        v.book,
        venue_at(stream, last as int),
    )
}

/// The quantity that the last of `updates` for this side and price sets, if there is one.
spec fn last_set(updates: Seq<LevelUpdate>, side: Side, p: int) -> Option<int>
    decreases updates.len(),
{
    if updates.len() == 0 {
        None
    } else if updates.last().side == side && updates.last().price.0 == p {
        Some(updates.last().qty.0 as int)
    } else {
        last_set(updates.drop_last(), side, p)
    }
}

/// After some updates a level is what the last update of it set, or what it was before.
proof fn lemma_after_lookup(venue: VenueBook, updates: Seq<LevelUpdate>, side: Side, p: int)
    ensures
        match last_set(updates, side, p) {
            Some(q) => venue.after(updates).side(side).contains_key(p) == (q != 0) && (q != 0
                ==> venue.after(updates).side(side)[p] == q),
            None => venue.after(updates).side(side).contains_key(p) == venue.side(
                side,
            ).contains_key(p) && venue.after(updates).side(side)[p] == venue.side(side)[p],
        },
    decreases updates.len(),
{
    if updates.len() > 0 {
        lemma_after_lookup(venue, updates.drop_last(), side, p);
    }
}

proof fn lemma_last_set_concat(a: Seq<LevelUpdate>, b: Seq<LevelUpdate>, side: Side, p: int)
    ensures
        last_set(a + b, side, p) == (match last_set(b, side, p) {
            Some(q) => Some(q),
            None => last_set(a, side, p),
        }),
    decreases b.len(),
{
    if b.len() == 0 {
        assert(a + b =~= a);
    } else {
        assert((a + b).drop_last() =~= a + b.drop_last());
        lemma_last_set_concat(a, b.drop_last(), side, p);
    }
}

/// Levels carry absolute quantities, so re-applying updates that were already applied, in
/// order, on the way to newer ones is harmless.
pub proof fn law_overlapping_updates_are_harmless(
    stream: Seq<Seq<LevelUpdate>>,
    from: int,
    seq: int,
    to: int,
)
    requires
        0 <= from <= seq <= to <= stream.len(),
    ensures
        venue_at(stream, seq).after(flat(stream.subrange(from, to))) == venue_at(stream, to),
{
    let empty = VenueBook { bids: Map::empty(), asks: Map::empty() };
    let (start, old, new) = (
        flat(stream.take(from)),
        flat(stream.subrange(from, seq)),
        flat(stream.subrange(seq, to)),
    );
    let again = flat(stream.subrange(from, to));
    let left = venue_at(stream, seq).after(again);
    let right = venue_at(stream, to);
    assert(stream.take(to) =~= stream.take(from) + stream.subrange(from, to));
    assert(stream.take(seq) =~= stream.take(from) + stream.subrange(from, seq));
    assert(stream.subrange(from, to) =~= stream.subrange(from, seq) + stream.subrange(seq, to));
    lemma_flat_concat(stream.take(from), stream.subrange(from, to));
    lemma_flat_concat(stream.take(from), stream.subrange(from, seq));
    lemma_flat_concat(stream.subrange(from, seq), stream.subrange(seq, to));
    assert forall|side: Side, p: int|
        #![trigger left.side(side).contains_key(p)]
        left.side(side).contains_key(p) == right.side(side).contains_key(p) && (left.side(
            side,
        ).contains_key(p) ==> left.side(side)[p] == right.side(side)[p]) by {
        lemma_after_lookup(venue_at(stream, seq), again, side, p);
        lemma_after_lookup(empty, start + again, side, p);
        lemma_after_lookup(empty, start + old, side, p);
        lemma_last_set_concat(start, again, side, p);
        lemma_last_set_concat(start, old, side, p);
        lemma_last_set_concat(old, new, side, p);
    }
    assert(left.bids =~= right.bids) by {
        assert forall|p: int| left.bids.contains_key(p) == right.bids.contains_key(p) by {
            assert(left.side(Side::Buy).contains_key(p) == right.side(Side::Buy).contains_key(p));
        }
        assert forall|p: int| left.bids.contains_key(p) implies left.bids[p] == right.bids[p] by {
            assert(left.side(Side::Buy).contains_key(p));
        }
    }
    assert(left.asks =~= right.asks) by {
        assert forall|p: int| left.asks.contains_key(p) == right.asks.contains_key(p) by {
            assert(left.side(Side::Sell).contains_key(p) == right.side(Side::Sell).contains_key(p));
        }
        assert forall|p: int| left.asks.contains_key(p) implies left.asks[p] == right.asks[p] by {
            assert(left.side(Side::Sell).contains_key(p));
        }
    }
}

/// Valid updates keep a book well formed and exact.
pub(crate) proof fn lemma_updates_stay_exact(book: BookView, venue: VenueBook, updates: Seq<LevelUpdate>)
    requires
        book.wf(),
        exact_book(book, venue),
    ensures
        sync::apply_updates(book, updates).0.wf(),
        sync::apply_updates(book, updates).1 is None ==> exact_book(
            sync::apply_updates(book, updates).0,
            venue.after(updates),
        ),
    decreases updates.len(),
{
    if updates.len() > 0 {
        let head = updates.drop_last();
        let update = updates.last();
        lemma_updates_stay_exact(book, venue, head);
        let (before, error) = sync::apply_updates(book, head);
        if error is None {
            law_ladder_stays_exact_up_to_its_horizon(
                before.side(update.side),
                venue.after(head).side(update.side),
                update.price,
                update.qty,
            );
        }
    }
}

/// Replaying messages of the stream on the venue's book brings the book to a later point of
/// the stream.
proof fn lemma_replay_tracks(
    book: BookView,
    seq: u64,
    messages: Seq<Message>,
    stream: Seq<Seq<LevelUpdate>>,
)
    requires
        book.wf(),
        seq <= stream.len(),
        exact_book(book, venue_at(stream, seq as int)),
        forall|i: int| 0 <= i < messages.len() ==> carries(stream, #[trigger] messages[i]),
    ensures
        sync::replay(book, seq, messages) matches Replayed::Done { book: after, last } ==> {
            &&& after.wf()
            &&& seq <= last <= stream.len()
            &&& exact_book(after, venue_at(stream, last as int))
            &&& forall|i: int| 0 <= i < messages.len() ==> (#[trigger] messages[i]).range@.last <= last
        },
    decreases messages.len(),
{
    if messages.len() > 0 {
        let head = messages.drop_last();
        let message = messages.last();
        assert forall|i: int| 0 <= i < head.len() implies carries(stream, #[trigger] head[i]) by {
            assert(head[i] == messages[i]);
        }
        lemma_replay_tracks(book, seq, head, stream);
        if let Replayed::Done { book: before, last } = sync::replay(book, seq, head) {
            assert(messages[messages.len() - 1] == message);
            assert(carries(stream, message));
            lemma_updates_stay_exact(before, venue_at(stream, last as int), message.updates);
            if message.range@.last > last && sync::continues(message.range, last as int) {
                law_overlapping_updates_are_harmless(
                    stream,
                    message.range@.first - 1,
                    last as int,
                    message.range@.last as int,
                );
            }
            assert forall|i: int| 0 <= i < messages.len() && sync::replay(
                book,
                seq,
                messages,
            ) is Done implies (#[trigger] messages[i]).range@.last
                <= sync::replay(book, seq, messages)->Done_last by {
                if i < head.len() {
                    assert(head[i] == messages[i]);
                }
            }
        }
    }
}

/// Whatever messages of the venue's stream arrive, in whatever order and with whatever losses,
/// a live book is the venue's book at its last sequence number, exact up to its horizons.
pub proof fn law_deltas_track_the_stream(
    v: SyncView,
    stream: Seq<Seq<LevelUpdate>>,
    range: SeqRange,
    updates: Seq<LevelUpdate>,
)
    requires
        v.wf(),
        tracks(v, stream),
        carries(stream, (Message { range, updates })),
    ensures
        tracks(v.on_delta(range, updates).0, stream),
{
    if let Some(last) = v.live {
        if range@.last > last && sync::continues(range, last as int) {
            lemma_updates_stay_exact(v.book, venue_at(stream, last as int), updates);
            law_overlapping_updates_are_harmless(
                stream,
                range@.first - 1,
                last as int,
                range@.last as int,
            );
        }
    }
}

/// The same holds when a snapshot of the venue's book at any point of its stream arrives.
pub proof fn law_snapshots_track_the_stream(
    v: SyncView,
    stream: Seq<Seq<LevelUpdate>>,
    seq: u64,
    bids: Seq<Level>,
    asks: Seq<Level>,
)
    requires
        v.wf(),
        tracks(v, stream),
        seq <= stream.len(),
        is_snapshot(Side::Buy, bids),
        is_snapshot(Side::Sell, asks),
        ladder::level_map(bids) == venue_at(stream, seq as int).bids,
        ladder::level_map(asks) == venue_at(stream, seq as int).asks,
    ensures
        tracks(v.on_snapshot(seq, bids, asks).0, stream),
{
    if !(v.live matches Some(last) && seq < last) {
        law_load_keeps_the_best_levels(v.book.bids, bids);
        law_load_keeps_the_best_levels(v.book.asks, asks);
        let loaded = v.book.load(bids, asks).0;
        lemma_replay_tracks(loaded, seq, v.pending, stream);
    }
}

/// Valid updates always apply.
pub(crate) proof fn lemma_valid_updates_apply(book: BookView, updates: Seq<LevelUpdate>)
    requires
        book.wf(),
        forall|i: int|
            0 <= i < updates.len() ==> ladder::update_fault(
                (#[trigger] updates[i]).side,
                updates[i].price,
                updates[i].qty,
            ) is None,
    ensures
        sync::apply_updates(book, updates).1 is None,
        sync::apply_updates(book, updates).0.wf(),
    decreases updates.len(),
{
    if updates.len() > 0 {
        let head = updates.drop_last();
        assert forall|i: int| 0 <= i < head.len() implies ladder::update_fault(
            (#[trigger] head[i]).side,
            head[i].price,
            head[i].qty,
        ) is None by {
            assert(head[i] == updates[i]);
        }
        lemma_valid_updates_apply(book, head);
        let before = sync::apply_updates(book, head).0;
        let update = updates.last();
        assert(updates[updates.len() - 1] == update);
        let ladder = before.side(update.side);
        law_ladder_stays_exact_up_to_its_horizon(
            ladder,
            Map::new(|p: int| ladder.levels.contains_key(p), |p: int| ladder.levels[p]),
            update.price,
            update.qty,
        );
    }
}

/// Whether every one of `updates` is valid.
pub open spec fn all_valid(updates: Seq<LevelUpdate>) -> bool {
    forall|i: int|
        0 <= i < updates.len() ==> ladder::update_fault(
            (#[trigger] updates[i]).side,
            updates[i].price,
            updates[i].qty,
        ) is None
}

/// The newest sequence number among a snapshot's and those of the buffered messages.
pub open spec fn newest(v: SyncView, seq: u64) -> u64 {
    if v.pending.len() > 0 && v.pending.last().range@.last > seq {
        v.pending.last().range@.last
    } else {
        seq
    }
}

/// A snapshot that the buffered chain continues replays to the newest sequence number.
proof fn lemma_replay_completes(
    book: BookView,
    seq: u64,
    messages: Seq<Message>,
    stream: Seq<Seq<LevelUpdate>>,
)
    requires
        book.wf(),
        all_valid(flat(stream)),
        forall|i: int| 0 <= i < messages.len() ==> carries(stream, #[trigger] messages[i]),
        sync::chained(messages),
        messages.len() > 0 ==> sync::continues(messages[0].range, seq as int),
    ensures
        sync::replay(book, seq, messages) matches Replayed::Done { book: after, last }
            && after.wf() && last == (if messages.len() > 0 && messages.last().range@.last > seq {
            messages.last().range@.last
        } else {
            seq
        }),
    decreases messages.len(),
{
    if messages.len() > 0 {
        let head = messages.drop_last();
        let message = messages.last();
        assert(messages[messages.len() - 1] == message);
        assert forall|i: int| 0 <= i < head.len() implies carries(stream, #[trigger] head[i]) by {
            assert(head[i] == messages[i]);
        }
        assert(sync::chained(head)) by {
            assert forall|i: int, j: int|
                #![trigger head[i], head[j]]
                0 <= i && j == i + 1 && j < head.len() implies head[i].range@.last
                < head[j].range@.last && sync::continues(
                head[j].range,
                head[i].range@.last as int,
            ) by {
                assert(head[i] == messages[i] && head[j] == messages[j]);
            }
        }
        if head.len() > 0 {
            assert(head[0] == messages[0]);
            let i = head.len() - 1;
            assert(head.last() == messages[i]);
            assert(messages[i].range@.last < messages[i + 1].range@.last);
        }
        lemma_replay_completes(book, seq, head, stream);
        let before = sync::replay(book, seq, head)->Done_book;
        let at = lemma_flat_part(stream, message.range@.first - 1, message.range@.last as int);
        assert forall|i: int| 0 <= i < message.updates.len() implies ladder::update_fault(
            (#[trigger] message.updates[i]).side,
            message.updates[i].price,
            message.updates[i].qty,
        ) is None by {
            assert(message.updates[i] == flat(stream)[at + i]);
        }
        lemma_valid_updates_apply(before, message.updates);
    }
}

/// Splitting a venue's valid stream into deltas, buffering an unbroken chain of them and taking
/// a snapshot at any point that the chain continues always goes live at the newest sequence
/// number, with the venue's book, unless the venue's book is crossed there.
pub proof fn law_sync_reproduces_the_full_stream(
    v: SyncView,
    stream: Seq<Seq<LevelUpdate>>,
    seq: u64,
    bids: Seq<Level>,
    asks: Seq<Level>,
)
    requires
        v.wf(),
        v.live is None,
        tracks(v, stream),
        all_valid(flat(stream)),
        seq <= stream.len(),
        is_snapshot(Side::Buy, bids),
        is_snapshot(Side::Sell, asks),
        ladder::level_map(bids) == venue_at(stream, seq as int).bids,
        ladder::level_map(asks) == venue_at(stream, seq as int).asks,
        v.pending.len() > 0 ==> sync::continues(v.pending[0].range, seq as int),
        forall|b: int, a: int|
            #![trigger venue_at(stream, newest(v, seq) as int).bids.contains_key(b),
                venue_at(stream, newest(v, seq) as int).asks.contains_key(a)]
            venue_at(stream, newest(v, seq) as int).bids.contains_key(b) && venue_at(
                stream,
                newest(v, seq) as int,
            ).asks.contains_key(a) ==> b < a,
    ensures
        v.on_snapshot(seq, bids, asks).1 == Ok::<bool, sync::SyncError>(true),
        v.on_snapshot(seq, bids, asks).0.live == Some(newest(v, seq)),
        exact_book(
            v.on_snapshot(seq, bids, asks).0.book,
            venue_at(stream, newest(v, seq) as int),
        ),
{
    law_load_keeps_the_best_levels(v.book.bids, bids);
    law_load_keeps_the_best_levels(v.book.asks, asks);
    let loaded = v.book.load(bids, asks).0;
    lemma_replay_tracks(loaded, seq, v.pending, stream);
    lemma_replay_completes(loaded, seq, v.pending, stream);
    let after = sync::replay(loaded, seq, v.pending)->Done_book;
    let venue = venue_at(stream, newest(v, seq) as int);
    assert(after.crossing() is None) by {
        if after.bids.levels.len() > 0 && after.asks.levels.len() > 0 {
            lemma_extremes(Side::Buy, after.bids.levels);
            lemma_extremes(Side::Sell, after.asks.levels);
            let b = ladder::best_price(Side::Buy, after.bids.levels);
            let a = ladder::best_price(Side::Sell, after.asks.levels);
            assert(after.bids.levels.contains_key(b) && after.asks.levels.contains_key(a));
            assert(venue.bids.contains_key(b) && venue.asks.contains_key(a));
        } else if after.bids.levels.len() == 0 {
            assert(after.bids.levels.dom() =~= Set::<int>::empty());
        } else {
            assert(after.asks.levels.dom() =~= Set::<int>::empty());
        }
    }
}

/// Whether a book has no horizon and only prices of `prices`, all of which fit on each side.
pub open spec fn roomy(book: BookView, prices: Set<int>) -> bool {
    &&& prices.finite()
    &&& prices.len() <= book.bids.capacity
    &&& prices.len() <= book.asks.capacity
    &&& book.bids.horizon is None
    &&& book.asks.horizon is None
    &&& book.bids.levels.dom().subset_of(prices)
    &&& book.asks.levels.dom().subset_of(prices)
}

/// Updates of prices that fit leave a book without a horizon.
proof fn lemma_updates_stay_roomy(book: BookView, prices: Set<int>, updates: Seq<LevelUpdate>)
    requires
        book.wf(),
        roomy(book, prices),
        forall|i: int|
            0 <= i < updates.len() ==> prices.contains((#[trigger] updates[i]).price.0 as int),
    ensures
        sync::apply_updates(book, updates).0.wf(),
        sync::apply_updates(book, updates).1 is None ==> roomy(
            sync::apply_updates(book, updates).0,
            prices,
        ),
    decreases updates.len(),
{
    if updates.len() > 0 {
        let head = updates.drop_last();
        assert forall|i: int| 0 <= i < head.len() implies prices.contains(
            (#[trigger] head[i]).price.0 as int,
        ) by {
            assert(head[i] == updates[i]);
        }
        lemma_updates_stay_roomy(book, prices, head);
        let (before, error) = sync::apply_updates(book, head);
        if error is None {
            let update = updates.last();
            assert(updates[updates.len() - 1] == update);
            let ladder = before.side(update.side);
            law_ladder_stays_exact_up_to_its_horizon(
                ladder,
                Map::new(|p: int| ladder.levels.contains_key(p), |p: int| ladder.levels[p]),
                update.price,
                update.qty,
            );
            if ladder::update_fault(update.side, update.price, update.qty) is None {
                law_ladder_with_room_matches_the_venue(ladder, prices, update.price, update.qty);
            }
        }
    }
}

/// Replaying messages with prices that fit leaves a book without a horizon.
proof fn lemma_replay_stays_roomy(
    book: BookView,
    seq: u64,
    prices: Set<int>,
    messages: Seq<Message>,
    stream: Seq<Seq<LevelUpdate>>,
)
    requires
        book.wf(),
        roomy(book, prices),
        forall|i: int|
            0 <= i < flat(stream).len() ==> prices.contains(
                (#[trigger] flat(stream)[i]).price.0 as int,
            ),
        forall|i: int| 0 <= i < messages.len() ==> carries(stream, #[trigger] messages[i]),
    ensures
        sync::replay(book, seq, messages) matches Replayed::Done { book: after, .. } ==> after.wf()
            && roomy(after, prices),
    decreases messages.len(),
{
    if messages.len() > 0 {
        let head = messages.drop_last();
        let message = messages.last();
        assert(messages[messages.len() - 1] == message);
        assert forall|i: int| 0 <= i < head.len() implies carries(stream, #[trigger] head[i]) by {
            assert(head[i] == messages[i]);
        }
        lemma_replay_stays_roomy(book, seq, prices, head, stream);
        if let Replayed::Done { book: before, .. } = sync::replay(book, seq, head) {
            let at = lemma_flat_part(stream, message.range@.first - 1, message.range@.last as int);
            assert forall|i: int| 0 <= i < message.updates.len() implies prices.contains(
                (#[trigger] message.updates[i]).price.0 as int,
            ) by {
                assert(message.updates[i] == flat(stream)[at + i]);
            }
            lemma_updates_stay_roomy(before, prices, message.updates);
        }
    }
}

/// A book only has prices that its updates mention.
proof fn lemma_after_prices(updates: Seq<LevelUpdate>, prices: Set<int>)
    requires
        forall|i: int|
            0 <= i < updates.len() ==> prices.contains((#[trigger] updates[i]).price.0 as int),
    ensures
        ({
            let book = VenueBook { bids: Map::empty(), asks: Map::empty() }.after(updates);
            book.bids.dom().subset_of(prices) && book.asks.dom().subset_of(prices)
        }),
    decreases updates.len(),
{
    if updates.len() > 0 {
        let head = updates.drop_last();
        assert forall|i: int| 0 <= i < head.len() implies prices.contains(
            (#[trigger] head[i]).price.0 as int,
        ) by {
            assert(head[i] == updates[i]);
        }
        lemma_after_prices(head, prices);
        assert(updates[updates.len() - 1] == updates.last());
    }
}

/// If all the prices that the stream mentions fit in the book, a snapshot that goes live
/// reproduces the whole of the venue's book, with no horizon on either side.
pub proof fn law_roomy_sync_holds_the_whole_book(
    v: SyncView,
    stream: Seq<Seq<LevelUpdate>>,
    prices: Set<int>,
    seq: u64,
    bids: Seq<Level>,
    asks: Seq<Level>,
)
    requires
        v.wf(),
        v.live is None,
        tracks(v, stream),
        seq <= stream.len(),
        is_snapshot(Side::Buy, bids),
        is_snapshot(Side::Sell, asks),
        ladder::level_map(bids) == venue_at(stream, seq as int).bids,
        ladder::level_map(asks) == venue_at(stream, seq as int).asks,
        prices.finite(),
        prices.len() <= v.book.bids.capacity,
        prices.len() <= v.book.asks.capacity,
        forall|i: int|
            0 <= i < flat(stream).len() ==> prices.contains(
                (#[trigger] flat(stream)[i]).price.0 as int,
            ),
    ensures
        v.on_snapshot(seq, bids, asks).0.live matches Some(last) ==> {
            let after = v.on_snapshot(seq, bids, asks).0.book;
            &&& after.bids.levels == venue_at(stream, last as int).bids
            &&& after.asks.levels == venue_at(stream, last as int).asks
            &&& after.bids.horizon is None
            &&& after.asks.horizon is None
        },
{
    law_snapshots_track_the_stream(v, stream, seq, bids, asks);
    law_load_keeps_the_best_levels(v.book.bids, bids);
    law_load_keeps_the_best_levels(v.book.asks, asks);
    let at = lemma_flat_part(stream, 0, seq as int);
    assert(stream.subrange(0, seq as int) =~= stream.take(seq as int));
    assert forall|i: int| 0 <= i < flat(stream.take(seq as int)).len() implies prices.contains(
        (#[trigger] flat(stream.take(seq as int))[i]).price.0 as int,
    ) by {
        assert(flat(stream.take(seq as int))[i] == flat(stream)[at + i]);
    }
    lemma_after_prices(flat(stream.take(seq as int)), prices);
    let loaded = v.book.load(bids, asks).0;
    lemma_listed_map(bids);
    lemma_listed_map(asks);
    vstd::set_lib::lemma_len_subset(ladder::listed_prices(bids), prices);
    vstd::set_lib::lemma_len_subset(ladder::listed_prices(asks), prices);
    lemma_replay_stays_roomy(loaded, seq, prices, v.pending, stream);
    let done = v.on_snapshot(seq, bids, asks).0;
    if let Some(last) = done.live {
        let venue = venue_at(stream, last as int);
        assert(done.book.bids.levels =~= venue.bids) by {
            assert forall|p: int| done.book.bids.levels.contains_key(p) == venue.bids.contains_key(
                p,
            ) by {}
        }
        assert(done.book.asks.levels =~= venue.asks) by {
            assert forall|p: int| done.book.asks.levels.contains_key(p) == venue.asks.contains_key(
                p,
            ) by {}
        }
    }
}

/// Every error takes the book away: nothing is live, and nothing is left in it.
pub proof fn law_errors_hide_the_book(
    v: SyncView,
    range: SeqRange,
    updates: Seq<LevelUpdate>,
    seq: u64,
    bids: Seq<Level>,
    asks: Seq<Level>,
)
    requires
        v.wf(),
    ensures
        v.on_delta(range, updates).1 is Err ==> v.on_delta(range, updates).0.live is None && v.on_delta(
            range,
            updates,
        ).0.book == v.book.cleared(),
        v.on_snapshot(seq, bids, asks).1 is Err ==> v.on_snapshot(seq, bids, asks).0.live is None
            && v.on_snapshot(seq, bids, asks).0.book == v.book.cleared(),
{
    lemma_apply_updates_keeps_shape(v.book, updates);
    lemma_replay_keeps_shape(v.book.load(bids, asks).0, seq, v.pending);
}

proof fn lemma_apply_updates_keeps_shape(book: BookView, updates: Seq<LevelUpdate>)
    ensures
        sync::apply_updates(book, updates).0.cleared() == book.cleared(),
    decreases updates.len(),
{
    if updates.len() > 0 {
        lemma_apply_updates_keeps_shape(book, updates.drop_last());
    }
}

proof fn lemma_replay_keeps_shape(book: BookView, seq: u64, messages: Seq<Message>)
    ensures
        sync::replay(book, seq, messages) matches Replayed::Done { book: after, .. }
            ==> after.cleared() == book.cleared(),
    decreases messages.len(),
{
    if messages.len() > 0 {
        lemma_replay_keeps_shape(book, seq, messages.drop_last());
        if let Replayed::Done { book: before, .. } = sync::replay(book, seq, messages.drop_last()) {
            lemma_apply_updates_keeps_shape(before, messages.last().updates);
        }
    }
}

/// A snapshot is too old only for the oldest buffered message that it does not cover: the rest
/// of the chain continues from there. The error names where that message starts.
pub proof fn law_too_old_names_the_oldest_usable_delta(
    v: SyncView,
    seq: u64,
    bids: Seq<Level>,
    asks: Seq<Level>,
    first_buffered: u64,
)
    requires
        v.wf(),
        v.on_snapshot(seq, bids, asks).1 == Err::<bool, sync::SyncError>(
            sync::SyncError::SnapshotTooOld { snapshot: seq, first_buffered },
        ),
    ensures
        seq + 1 < first_buffered,
        exists|i: int|
            0 <= i < v.pending.len() && (#[trigger] v.pending[i]).range@.first == first_buffered
                && v.pending[i].range@.last > seq && forall|k: int|
                0 <= k < i ==> (#[trigger] v.pending[k]).range@.last <= seq,
{
    let loaded = v.book.load(bids, asks).0;
    lemma_too_old(loaded, seq, v.pending);
}

proof fn lemma_too_old(book: BookView, seq: u64, messages: Seq<Message>)
    requires
        sync::chained(messages),
    ensures
        sync::replay(book, seq, messages) matches Replayed::TooOld { first } ==> seq + 1 < first
            && exists|i: int|
            0 <= i < messages.len() && (#[trigger] messages[i]).range@.first == first
                && messages[i].range@.last > seq && forall|k: int|
                0 <= k < i ==> (#[trigger] messages[k]).range@.last <= seq,
        sync::replay(book, seq, messages) matches Replayed::Done { last, .. } ==> last == (if
        messages.len() > 0 && messages.last().range@.last > seq {
            messages.last().range@.last
        } else {
            seq
        }),
    decreases messages.len(),
{
    if messages.len() > 0 {
        let head = messages.drop_last();
        let message = messages.last();
        let n = messages.len() - 1;
        assert(messages[n] == message);
        assert(sync::chained(head)) by {
            assert forall|i: int, j: int|
                #![trigger head[i], head[j]]
                0 <= i && j == i + 1 && j < head.len() implies head[i].range@.last
                < head[j].range@.last && sync::continues(
                head[j].range,
                head[i].range@.last as int,
            ) by {
                assert(head[i] == messages[i] && head[j] == messages[j]);
            }
        }
        lemma_too_old(book, seq, head);
        if n > 0 {
            assert(head.last() == messages[n - 1]);
            assert(messages[n - 1].range@.last < messages[n].range@.last);
        }
        match sync::replay(book, seq, head) {
            Replayed::TooOld { first } => {
                let i = choose|i: int|
                    0 <= i < head.len() && (#[trigger] head[i]).range@.first == first
                        && head[i].range@.last > seq && forall|k: int|
                        0 <= k < i ==> (#[trigger] head[k]).range@.last <= seq;
                assert(messages[i] == head[i]);
                assert forall|k: int| 0 <= k < i implies (#[trigger] messages[k]).range@.last
                    <= seq by {
                    assert(messages[k] == head[k]);
                }
            },
            Replayed::Done { last, .. } => {
                if message.range@.last > last && !sync::continues(message.range, last as int) {
                    lemma_chain_rises(messages, n);
                    assert forall|k: int| 0 <= k < n implies (#[trigger] messages[k]).range@.last
                        <= seq by {
                        lemma_chain_rises(messages, n - 1);
                    }
                }
            },
            Replayed::Invalid { .. } => {},
        }
    }
}

/// Along a chain the last sequence numbers rise.
proof fn lemma_chain_rises(messages: Seq<Message>, n: int)
    requires
        sync::chained(messages),
        0 <= n < messages.len(),
    ensures
        forall|k: int| 0 <= k < n ==> (#[trigger] messages[k]).range@.last < messages[n].range@.last,
    decreases n,
{
    if n > 0 {
        lemma_chain_rises(messages, n - 1);
        assert(messages[n - 1].range@.last < messages[n].range@.last);
    }
}

} // verus!

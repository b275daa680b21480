//! A whole stream of delta messages, however it is split, comes out as the venue's book.

use crate::book::book::{BookView, LevelUpdate};
use crate::book::ladder::{self, LadderView, Level};
use crate::book::laws::{self, VenueBook};
use crate::book::sync::{self, Message, Replayed, SyncView};
use crate::units::{Price, Qty, Side};
use vstd::prelude::*;

verus! {

/// All the updates of some messages, in order.
pub open spec fn updates_of(messages: Seq<Message>) -> Seq<LevelUpdate>
    decreases messages.len(),
{
    if messages.len() == 0 {
        Seq::empty()
    } else {
        updates_of(messages.drop_last()) + messages.last().updates
    }
}

/// The last sequence number of the first `n` messages, which count from 1.
pub open spec fn seq_after(messages: Seq<Message>, n: int) -> u64 {
    if n == 0 {
        0
    } else {
        messages[n - 1].range@.last
    }
}

/// Whether the messages cover the sequence numbers from 1 on, each once and none left out. How
/// many updates a message carries does not matter.
pub open spec fn contiguous(messages: Seq<Message>) -> bool {
    forall|i: int|
        0 <= i < messages.len() ==> seq_after(messages, i) + 1 == (
        #[trigger] messages[i]).range@.first <= messages[i].range@.last
}

/// The venue's book after the first `n` messages, from an empty book.
pub open spec fn venue_after(messages: Seq<Message>, n: int) -> VenueBook {
    VenueBook { bids: Map::empty(), asks: Map::empty() }.after(updates_of(messages.take(n)))
}

/// Whether no update leaves more than `depth` levels on a side, starting from `venue`.
pub open spec fn stays_within(venue: VenueBook, updates: Seq<LevelUpdate>, depth: nat) -> bool {
    forall|n: int|
        0 <= n <= updates.len() ==> (#[trigger] venue.after(updates.take(n))).bids.len() <= depth
            && venue.after(updates.take(n)).asks.len() <= depth
}

/// The sync after messages in order.
pub open spec fn fed(v: SyncView, messages: Seq<Message>) -> SyncView
    decreases messages.len(),
{
    if messages.len() == 0 {
        v
    } else {
        fed(v, messages.drop_last()).on_delta(messages.last().range, messages.last().updates).0
    }
}

/// Whether `book` holds every level of `venue`, with no horizon.
pub open spec fn holds_all(book: BookView, venue: VenueBook) -> bool {
    &&& book.bids.levels == venue.bids
    &&& book.asks.levels == venue.asks
    &&& book.bids.horizon is None
    &&& book.asks.horizon is None
}

/// As long as the venue's side fits, a ladder without a horizon holds all of it.
pub proof fn law_a_ladder_holds_a_side_that_fits(ladder: LadderView, price: Price, qty: Qty)
    requires
        ladder.wf(),
        ladder.horizon is None,
        ladder::update_fault(ladder.side, price, qty) is None,
        laws::venue_set(ladder.levels, price.0 as int, qty.0 as int).len() <= ladder.capacity,
    ensures
        ladder.apply(price, qty).0.wf(),
        ladder.apply(price, qty).0.horizon is None,
        ladder.apply(price, qty).0.levels == laws::venue_set(
            ladder.levels,
            price.0 as int,
            qty.0 as int,
        ),
{
    let p = price.0 as int;
    laws::law_ladder_stays_exact_up_to_its_horizon(ladder, ladder.levels, price, qty);
    if !ladder.levels.contains_key(p) {
        if qty.0 == 0 {
            assert(ladder.levels.remove(p) =~= ladder.levels);
        } else {
            assert(ladder.levels.insert(p, qty.0 as int).dom() =~= ladder.levels.dom().insert(p));
        }
    }
}

/// Valid updates that stay within the book's depth leave it with every level of the venue.
proof fn lemma_updates_hold_all(
    book: BookView,
    venue: VenueBook,
    updates: Seq<LevelUpdate>,
    depth: nat,
)
    requires
        book.wf(),
        holds_all(book, venue),
        book.bids.capacity == depth,
        book.asks.capacity == depth,
        laws::all_valid(updates),
        stays_within(venue, updates, depth),
    ensures
        sync::apply_updates(book, updates).1 is None,
        sync::apply_updates(book, updates).0.wf(),
        sync::apply_updates(book, updates).0.bids.capacity == depth,
        sync::apply_updates(book, updates).0.asks.capacity == depth,
        holds_all(sync::apply_updates(book, updates).0, venue.after(updates)),
    decreases updates.len(),
{
    if updates.len() > 0 {
        let head = updates.drop_last();
        let update = updates.last();
        assert(updates[updates.len() - 1] == update);
        assert forall|i: int| 0 <= i < head.len() implies ladder::update_fault(
            (#[trigger] head[i]).side,
            head[i].price,
            head[i].qty,
        ) is None by {
            assert(head[i] == updates[i]);
        }
        assert forall|n: int| 0 <= n <= head.len() implies (#[trigger] venue.after(
            head.take(n),
        )).bids.len() <= depth && venue.after(head.take(n)).asks.len() <= depth by {
            assert(head.take(n) =~= updates.take(n));
        }
        lemma_updates_hold_all(book, venue, head, depth);
        let before = sync::apply_updates(book, head).0;
        assert(updates.take(updates.len() as int) =~= updates);
        assert(venue.after(updates.take(updates.len() as int)).bids.len() <= depth);
        law_a_ladder_holds_a_side_that_fits(before.side(update.side), update.price, update.qty);
    }
}

/// More messages only add their updates.
proof fn lemma_updates_of(messages: Seq<Message>, n: int)
    requires
        0 <= n < messages.len(),
    ensures
        updates_of(messages.take(n + 1)) == updates_of(messages.take(n)) + messages[n].updates,
{
    assert(messages.take(n + 1).drop_last() =~= messages.take(n));
}

/// The updates of the first messages start those of all of them.
proof fn lemma_updates_start(messages: Seq<Message>, n: int)
    requires
        0 <= n <= messages.len(),
    ensures
        updates_of(messages.take(n)).len() <= updates_of(messages).len(),
        updates_of(messages).take(updates_of(messages.take(n)).len() as int) == updates_of(
            messages.take(n),
        ),
    decreases messages.len() - n,
{
    if n < messages.len() {
        lemma_updates_start(messages, n + 1);
        lemma_updates_of(messages, n);
        let all = updates_of(messages);
        let part = updates_of(messages.take(n));
        assert(all.take(part.len() as int) =~= updates_of(messages.take(n + 1)).take(
            part.len() as int,
        ));
        assert(updates_of(messages.take(n + 1)).take(part.len() as int) =~= part);
    } else {
        assert(messages.take(n) =~= messages);
        assert(updates_of(messages).take(updates_of(messages).len() as int) =~= updates_of(
            messages,
        ));
    }
}

/// Updates after updates are all of them in order.
proof fn lemma_after_concat(venue: VenueBook, a: Seq<LevelUpdate>, b: Seq<LevelUpdate>)
    ensures
        venue.after(a + b) == venue.after(a).after(b),
    decreases b.len(),
{
    if b.len() == 0 {
        assert(a + b =~= a);
    } else {
        assert((a + b).drop_last() =~= a + b.drop_last());
        lemma_after_concat(venue, a, b.drop_last());
    }
}

/// Any part of a valid stream that stays within a depth is valid and stays within it.
proof fn lemma_message_fits(messages: Seq<Message>, n: int, depth: nat)
    requires
        0 <= n < messages.len(),
        laws::all_valid(updates_of(messages)),
        stays_within(venue_after(messages, 0), updates_of(messages), depth),
    ensures
        laws::all_valid(messages[n].updates),
        stays_within(venue_after(messages, n), messages[n].updates, depth),
        venue_after(messages, n + 1) == venue_after(messages, n).after(messages[n].updates),
{
    let empty = VenueBook { bids: Map::empty(), asks: Map::empty() };
    let all = updates_of(messages);
    let part = updates_of(messages.take(n));
    let next = messages[n].updates;
    assert(messages.take(0) =~= Seq::<Message>::empty());
    assert(venue_after(messages, 0) == empty);
    lemma_updates_of(messages, n);
    lemma_updates_start(messages, n + 1);
    lemma_after_concat(empty, part, next);
    assert forall|i: int| 0 <= i < next.len() implies ladder::update_fault(
        (#[trigger] next[i]).side,
        next[i].price,
        next[i].qty,
    ) is None by {
        assert(next[i] == (part + next)[part.len() + i]);
        assert(next[i] == all[part.len() + i]);
    }
    assert forall|i: int| 0 <= i <= next.len() implies (#[trigger] venue_after(messages, n).after(
        next.take(i),
    )).bids.len() <= depth && venue_after(messages, n).after(next.take(i)).asks.len() <= depth by {
        lemma_after_concat(empty, part, next.take(i));
        assert(part + next.take(i) =~= (part + next).take(part.len() + i));
        assert((part + next).take(part.len() + i) =~= all.take(part.len() + i));
        assert(empty.after(all.take(part.len() + i)).bids.len() <= depth);
    }
}

/// Sequence numbers only rise.
proof fn lemma_seq_rises(messages: Seq<Message>, a: int, b: int)
    requires
        contiguous(messages),
        0 <= a <= b <= messages.len(),
    ensures
        seq_after(messages, a) + (b - a) <= seq_after(messages, b),
    decreases b - a,
{
    if a < b {
        lemma_seq_rises(messages, a, b - 1);
        assert(seq_after(messages, b - 1) + 1 == messages[b - 1].range@.first);
    }
}

/// While a sync waits, messages that follow each other and fit are all buffered.
proof fn lemma_fed_buffers(v: SyncView, messages: Seq<Message>, n: int)
    requires
        0 <= n <= messages.len(),
        v.live is None,
        v.pending.len() == 0,
        contiguous(messages),
        messages.len() <= v.config.buffered_messages,
        sync::updates_in(messages) <= v.config.buffered_updates,
    ensures
        fed(v, messages.take(n)) == (SyncView { pending: messages.take(n), ..v }),
        sync::updates_in(messages.take(n)) <= sync::updates_in(messages),
    decreases n,
{
    lemma_fewer_updates(messages, n);
    if n > 0 {
        lemma_fed_buffers(v, messages, n - 1);
        let before = messages.take(n - 1);
        let next = messages[n - 1];
        assert(messages.take(n).drop_last() =~= before);
        assert(seq_after(messages, n - 1) + 1 == next.range@.first <= next.range@.last);
        if n > 1 {
            assert(before.last() == messages[n - 2]);
        }
        assert(before.push(next) =~= messages.take(n));
    } else {
        assert(messages.take(0) =~= v.pending);
    }
}

/// Fewer messages carry no more updates.
proof fn lemma_fewer_updates(messages: Seq<Message>, n: int)
    requires
        0 <= n <= messages.len(),
    ensures
        sync::updates_in(messages.take(n)) <= sync::updates_in(messages),
    decreases messages.len() - n,
{
    if n < messages.len() {
        lemma_fewer_updates(messages, n + 1);
        assert(messages.take(n + 1).drop_last() =~= messages.take(n));
    } else {
        assert(messages.take(n) =~= messages);
    }
}

/// Replaying the stream on the venue's book after `at` messages brings it on message by message.
proof fn lemma_replay_holds_all(
    book: BookView,
    messages: Seq<Message>,
    at: int,
    n: int,
    depth: nat,
)
    requires
        0 <= at <= messages.len(),
        0 <= n <= messages.len(),
        contiguous(messages),
        laws::all_valid(updates_of(messages)),
        stays_within(venue_after(messages, 0), updates_of(messages), depth),
        book.wf(),
        book.bids.capacity == depth,
        book.asks.capacity == depth,
        holds_all(book, venue_after(messages, at)),
    ensures
        sync::replay(book, seq_after(messages, at), messages.take(n)) matches Replayed::Done {
            book: after,
            last,
        } && {
            let m = if n > at {
                n
            } else {
                at
            };
            &&& after.wf()
            &&& after.bids.capacity == depth
            &&& after.asks.capacity == depth
            &&& last == seq_after(messages, m)
            &&& holds_all(after, venue_after(messages, m))
        },
    decreases n,
{
    if n > 0 {
        lemma_replay_holds_all(book, messages, at, n - 1, depth);
        assert(messages.take(n).drop_last() =~= messages.take(n - 1));
        assert(messages.take(n).last() == messages[n - 1]);
        assert(seq_after(messages, n - 1) + 1 == messages[n - 1].range@.first
            <= messages[n - 1].range@.last);
        if n <= at {
            lemma_seq_rises(messages, n, at);
        } else {
            let before = sync::replay(
                book,
                seq_after(messages, at),
                messages.take(n - 1),
            )->Done_book;
            lemma_message_fits(messages, n - 1, depth);
            lemma_updates_hold_all(
                before,
                venue_after(messages, n - 1),
                messages[n - 1].updates,
                depth,
            );
        }
    } else {
        assert(messages.take(0) =~= Seq::<Message>::empty());
    }
}

/// A side that lists no more levels than fit is loaded whole.
proof fn lemma_loads_whole(before: LadderView, levels: Seq<Level>)
    requires
        before.capacity > 0,
        laws::is_snapshot(before.side, levels),
        levels.len() <= before.capacity,
    ensures
        before.load(levels).1 is Ok,
        before.load(levels).0.wf(),
        before.load(levels).0.capacity == before.capacity,
        before.load(levels).0.side == before.side,
        before.load(levels).0.horizon is None,
        before.load(levels).0.levels == ladder::level_map(levels),
{
    laws::law_load_keeps_the_best_levels(before, levels);
    let after = before.load(levels).0;
    let venue = ladder::level_map(levels);
    assert(after.levels =~= venue) by {
        assert forall|p: int| after.levels.contains_key(p) == venue.contains_key(p) by {}
        assert forall|p: int| after.levels.contains_key(p) implies after.levels[p] == venue[p] by {}
    }
}

/// A book with all of a venue's levels is crossed only if the venue's is.
proof fn lemma_uncrossed(book: BookView, venue: VenueBook)
    requires
        book.wf(),
        holds_all(book, venue),
        forall|b: int, a: int|
            #![trigger venue.bids.contains_key(b), venue.asks.contains_key(a)]
            venue.bids.contains_key(b) && venue.asks.contains_key(a) ==> b < a,
    ensures
        book.crossing() is None,
{
    if book.bids.levels.len() > 0 && book.asks.levels.len() > 0 {
        laws::lemma_extremes(Side::Buy, book.bids.levels);
        laws::lemma_extremes(Side::Sell, book.asks.levels);
        let b = ladder::best_price(Side::Buy, book.bids.levels);
        let a = ladder::best_price(Side::Sell, book.asks.levels);
        assert(venue.bids.contains_key(b) && venue.asks.contains_key(a));
    } else if book.bids.levels.len() == 0 {
        assert(book.bids.levels.dom() =~= Set::<int>::empty());
    } else {
        assert(book.asks.levels.dom() =~= Set::<int>::empty());
    }
}

/// Splitting one stream of updates into messages in any way, feeding all of them to a waiting
/// sync and then taking the snapshot as it was after any of them goes live with the book that
/// the whole stream gives, level for level, as long as that book never has more levels than fit.
pub proof fn law_any_split_reproduces_the_whole_book(
    v: SyncView,
    messages: Seq<Message>,
    at: int,
    bids: Seq<Level>,
    asks: Seq<Level>,
)
    requires
        v.wf(),
        v.live is None,
        v.pending.len() == 0,
        v.book.bids.capacity == v.config.levels_per_side,
        v.book.asks.capacity == v.config.levels_per_side,
        contiguous(messages),
        messages.len() <= v.config.buffered_messages,
        sync::updates_in(messages) <= v.config.buffered_updates,
        laws::all_valid(updates_of(messages)),
        stays_within(
            venue_after(messages, 0),
            updates_of(messages),
            v.config.levels_per_side as nat,
        ),
        0 <= at <= messages.len(),
        laws::is_snapshot(Side::Buy, bids),
        laws::is_snapshot(Side::Sell, asks),
        ladder::level_map(bids) == venue_after(messages, at).bids,
        ladder::level_map(asks) == venue_after(messages, at).asks,
        forall|b: int, a: int|
            #![trigger venue_after(messages, messages.len() as int).bids.contains_key(b),
                venue_after(messages, messages.len() as int).asks.contains_key(a)]
            venue_after(messages, messages.len() as int).bids.contains_key(b) && venue_after(
                messages,
                messages.len() as int,
            ).asks.contains_key(a) ==> b < a,
    ensures
        ({
            let n = messages.len() as int;
            let (after, result) = fed(v, messages).on_snapshot(
                seq_after(messages, at),
                bids,
                asks,
            );
            &&& result == Ok::<bool, sync::SyncError>(true)
            &&& after.live == Some(seq_after(messages, n))
            &&& holds_all(after.book, venue_after(messages, n))
        }),
{
    let n = messages.len() as int;
    let depth = v.config.levels_per_side as nat;
    assert(messages.take(n) =~= messages);
    lemma_fed_buffers(v, messages, n);
    let empty = venue_after(messages, 0);
    let part = updates_of(messages.take(at));
    assert(messages.take(0) =~= Seq::<Message>::empty());
    lemma_updates_start(messages, at);
    assert(empty.after(updates_of(messages).take(part.len() as int)) == venue_after(messages, at));
    laws::lemma_listed_map(bids);
    laws::lemma_listed_map(asks);
    lemma_loads_whole(v.book.bids, bids);
    lemma_loads_whole(v.book.asks, asks);
    let loaded = v.book.load(bids, asks).0;
    lemma_replay_holds_all(loaded, messages, at, n, depth);
    let done = sync::replay(loaded, seq_after(messages, at), messages)->Done_book;
    lemma_uncrossed(done, venue_after(messages, n));
}

} // verus!

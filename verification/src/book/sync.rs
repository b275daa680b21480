//! Keeping a [`Book`] in step with a venue's snapshot-plus-delta feed.
//!
//! Venues publish a full snapshot (with a sequence number) and a stream of deltas, each
//! covering a contiguous range of sequence numbers. Levels carry absolute quantities, so
//! re-applying an already-applied update in order is harmless. The rules, shared by every
//! venue adapter:
//!
//! 1. Until a snapshot arrives, deltas are buffered (in pre-allocated storage). A break in the
//!    buffered chain discards the older part, since no snapshot can bridge it.
//! 2. On a snapshot, buffered deltas that end at or before it are dropped. The next one must
//!    satisfy `first <= snapshot + 1 <= last`; otherwise the snapshot is too old and another is
//!    needed. The rest are applied in order.
//! 3. While live, a delta ending at or before the last applied sequence is stale and ignored.
//!    One that starts after `last + 1` is a gap.
//! 4. A gap, invalid data or a crossed book invalidates the book: it is cleared and the sync
//!    returns to buffering until a new snapshot arrives.
//!
//! The book is only readable through [`BookSync::book`] while live, so a stale or
//! half-synchronized book can never be quoted from.

use crate::book::book::{Book, BookView, LevelUpdate};
use crate::book::ladder::Level;
use crate::book::BookError;
use crate::units::Price;
use vstd::prelude::*;

verus! {

/// An inclusive range of venue sequence numbers covered by one delta message.
#[derive(Clone, Copy, Debug, PartialEq, Eq, Hash, Structural)]
pub struct SeqRange {
    first: u64,
    last: u64,
}

/// The two ends of a [`SeqRange`].
pub struct SeqEnds {
    pub first: u64,
    pub last: u64,
}

impl View for SeqRange {
    type V = SeqEnds;

    closed spec fn view(&self) -> SeqEnds {
        SeqEnds { first: self.first, last: self.last }
    }
}

impl SeqRange {
    /// A range is never inverted.
    #[verifier::type_invariant]
    spec fn ordered(self) -> bool {
        self.first <= self.last
    }

    /// Builds `first..=last`. `None` if `first > last`.
    pub fn new(first: u64, last: u64) -> (r: Option<Self>)
        ensures
            match r {
                Some(range) => first <= last && range@ == (SeqEnds { first, last }),
                None => first > last,
            },
    {
        if first > last {
            return None;
        }
        Some(SeqRange { first, last })
    }

    /// A range covering one sequence number.
    pub fn single(seq: u64) -> (r: Self)
        ensures
            r@ == (SeqEnds { first: seq, last: seq }),
    {
        SeqRange { first: seq, last: seq }
    }

    /// First sequence number. Never above the last one.
    pub fn first(self) -> (r: u64)
        ensures
            r == self@.first,
            r <= self@.last,
    {
        proof {
            use_type_invariant(&self);
        }
        self.first
    }

    /// Last sequence number. Never below the first one.
    pub fn last(self) -> (r: u64)
        ensures
            r == self@.last,
            r >= self@.first,
    {
        proof {
            use_type_invariant(&self);
        }
        self.last
    }

    /// Whether this range continues directly from `prev`, allowing overlap.
    fn continues(self, prev: u64) -> (r: bool)
        ensures
            r == continues(self, prev as int),
    {
        self.first <= prev.saturating_add(1)
    }
}

/// Ranges with the same ends are equal.
pub proof fn law_ranges_are_their_ends(a: SeqRange, b: SeqRange)
    ensures
        a == b <==> a@ == b@,
{
}

/// Whether `range` continues directly from sequence number `prev`, allowing overlap.
pub open spec fn continues(range: SeqRange, prev: int) -> bool {
    range@.first <= prev + 1
}

/// Sizes for a [`BookSync`]. All storage is allocated up front.
#[derive(Clone, Copy, Debug, PartialEq, Eq, Structural)]
pub struct SyncConfig {
    /// Levels held per side of the book.
    pub levels_per_side: usize,
    /// Delta messages that can be buffered while waiting for a snapshot.
    pub buffered_messages: usize,
    /// Level updates, across all buffered messages, that can be buffered.
    pub buffered_updates: usize,
}

/// Why the book was invalidated or a snapshot was rejected.
#[derive(Clone, Copy, Debug, PartialEq, Eq, Structural)]
pub enum SyncError {
    /// A delta did not continue from the last applied sequence number. The book was
    /// invalidated and the delta buffered for the next snapshot.
    Gap {
        /// Sequence number that should have come next.
        expected: u64,
        /// Range actually received.
        got: SeqRange,
    },
    /// The snapshot is older than the buffered deltas, so a newer one is needed. The book
    /// stays unavailable and the buffered deltas are kept.
    SnapshotTooOld {
        /// Snapshot sequence number.
        snapshot: u64,
        /// First sequence number of the oldest usable buffered delta.
        first_buffered: u64,
    },
    /// The book became crossed. It was invalidated.
    Crossed {
        /// Best bid price.
        bid: Price,
        /// Best ask price.
        ask: Price,
    },
    /// Invalid venue data. The book was invalidated.
    Book(BookError),
}

/// What happened to a delta that did not cause an error.
#[derive(Clone, Copy, Debug, PartialEq, Eq, Structural)]
pub enum DeltaOutcome {
    /// Applied to the live book.
    Applied,
    /// Stored until a snapshot arrives.
    Buffered,
    /// Already covered by the book or buffer; ignored.
    Stale,
}

/// Counters for monitoring.
#[derive(Clone, Copy, Debug, PartialEq, Eq, Structural)]
pub struct SyncStats {
    /// Times the book was invalidated.
    pub invalidations: u64,
    /// Times the buffer overflowed (or broke) and was restarted.
    pub buffer_resets: u64,
    /// Stale deltas ignored.
    pub stale_deltas: u64,
}

impl Default for SyncStats {
    fn default() -> (r: Self)
        ensures
            r == (SyncStats { invalidations: 0, buffer_resets: 0, stale_deltas: 0 }),
    {
        SyncStats { invalidations: 0, buffer_resets: 0, stale_deltas: 0 }
    }
}

/// One more than `count`, stopping at the largest value a counter can hold.
pub open spec fn bumped(count: u64) -> u64 {
    if count == u64::MAX {
        count
    } else {
        (count + 1) as u64
    }
}

/// A buffered delta message.
#[verifier::ext_equal]
pub struct Message {
    pub range: SeqRange,
    pub updates: Seq<LevelUpdate>,
}

/// What a sync holds.
#[verifier::ext_equal]
pub struct SyncView {
    pub book: BookView,
    /// The last applied sequence number, while live.
    pub live: Option<u64>,
    /// Buffered messages, oldest first.
    pub pending: Seq<Message>,
    pub config: SyncConfig,
    pub stats: SyncStats,
}

/// How many updates `messages` carry together.
pub open spec fn updates_in(messages: Seq<Message>) -> nat
    decreases messages.len(),
{
    if messages.len() == 0 {
        0
    } else {
        updates_in(messages.drop_last()) + messages.last().updates.len()
    }
}

/// Whether each message extends the chain that ends with the one before it.
pub open spec fn chained(messages: Seq<Message>) -> bool {
    forall|i: int, j: int|
        #![trigger messages[i], messages[j]]
        0 <= i && j == i + 1 && j < messages.len() ==> messages[i].range@.last
            < messages[j].range@.last && continues(messages[j].range, messages[i].range@.last as int)
}

/// The book after `updates` in order, up to the first invalid one, and that one's error.
pub open spec fn apply_updates(book: BookView, updates: Seq<LevelUpdate>) -> (
    BookView,
    Option<BookError>,
)
    decreases updates.len(),
{
    if updates.len() == 0 {
        (book, None)
    } else {
        let (before, error) = apply_updates(book, updates.drop_last());
        if error is Some {
            (before, error)
        } else {
            let (after, result) = before.apply(updates.last());
            match result {
                Ok(_) => (after, None),
                Err(error) => (after, Some(error)),
            }
        }
    }
}

/// How a replay of buffered messages on top of a snapshot ends.
pub enum Replayed {
    /// Every message was covered already or applied; `last` is the newest sequence number.
    Done { book: BookView, last: u64 },
    /// This message starts after the next sequence number.
    TooOld { first: u64 },
    /// An update was invalid.
    Invalid { error: BookError },
}

/// The replay of `messages` on top of `book`, which stands at sequence number `seq`.
pub open spec fn replay(book: BookView, seq: u64, messages: Seq<Message>) -> Replayed
    decreases messages.len(),
{
    if messages.len() == 0 {
        Replayed::Done { book, last: seq }
    } else {
        match replay(book, seq, messages.drop_last()) {
            Replayed::Done { book, last } => replay_one(book, last, messages.last()),
            stopped => stopped,
        }
    }
}

/// The replay of one message on a book that stands at sequence number `last`.
pub open spec fn replay_one(book: BookView, last: u64, message: Message) -> Replayed {
    if message.range@.last <= last {
        Replayed::Done { book, last }
    } else if !continues(message.range, last as int) {
        Replayed::TooOld { first: message.range@.first }
    } else {
        let (after, error) = apply_updates(book, message.updates);
        match error {
            Some(error) => Replayed::Invalid { error },
            None => Replayed::Done { book: after, last: message.range@.last },
        }
    }
}

impl SyncView {
    /// What every sync keeps: bounded, unbroken buffering while it waits, with nothing in the
    /// book; while live, an uncrossed book and nothing buffered.
    pub open spec fn wf(self) -> bool {
        &&& self.book.wf()
        &&& self.pending.len() <= self.config.buffered_messages
        &&& updates_in(self.pending) <= self.config.buffered_updates
        &&& chained(self.pending)
        &&& match self.live {
            Some(_) => self.pending.len() == 0 && self.book.crossing() is None,
            None => self.book == self.book.cleared(),
        }
        &&& self.config.buffered_messages > 0
        &&& self.config.buffered_updates > 0
    }

    /// The book emptied, the buffer dropped, and the invalidation counted.
    pub open spec fn invalidated(self) -> SyncView {
        SyncView {
            book: self.book.cleared(),
            live: None,
            pending: Seq::empty(),
            stats: SyncStats { invalidations: bumped(self.stats.invalidations), ..self.stats },
            ..self
        }
    }

    /// The buffer dropped, and the restart counted.
    pub open spec fn restarted(self) -> SyncView {
        SyncView {
            pending: Seq::empty(),
            stats: SyncStats { buffer_resets: bumped(self.stats.buffer_resets), ..self.stats },
            ..self
        }
    }

    /// A stale delta counted, and nothing else changed.
    pub open spec fn ignored(self) -> SyncView {
        SyncView {
            stats: SyncStats { stale_deltas: bumped(self.stats.stale_deltas), ..self.stats },
            ..self
        }
    }

    /// The sync after a delta that has to wait for a snapshot.
    pub open spec fn buffer(self, range: SeqRange, updates: Seq<LevelUpdate>) -> (
        SyncView,
        DeltaOutcome,
    ) {
        if self.pending.len() > 0 && range@.last <= self.pending.last().range@.last {
            (self.ignored(), DeltaOutcome::Stale)
        } else {
            let unbroken = if self.pending.len() > 0 && !continues(
                range,
                self.pending.last().range@.last as int,
            ) {
                self.restarted()
            } else {
                self
            };
            let roomy = if unbroken.pending.len() >= self.config.buffered_messages {
                unbroken.restarted()
            } else {
                unbroken
            };
            if updates_in(roomy.pending) + updates.len() > self.config.buffered_updates {
                (roomy.restarted(), DeltaOutcome::Buffered)
            } else {
                (
                    SyncView { pending: roomy.pending.push(Message { range, updates }), ..roomy },
                    DeltaOutcome::Buffered,
                )
            }
        }
    }

    /// The sync once its book stands at `last`: a crossed book is invalidated.
    pub open spec fn settled(self, last: u64) -> (SyncView, Option<SyncError>) {
        let live = SyncView { live: Some(last), ..self };
        match self.book.crossing() {
            Some((bid, ask)) => (live.invalidated(), Some(SyncError::Crossed { bid, ask })),
            None => (live, None),
        }
    }

    /// The sync after one delta message.
    pub open spec fn on_delta(self, range: SeqRange, updates: Seq<LevelUpdate>) -> (
        SyncView,
        Result<DeltaOutcome, SyncError>,
    ) {
        match self.live {
            None => {
                let (after, outcome) = self.buffer(range, updates);
                (after, Ok(outcome))
            },
            Some(last) => if range@.last <= last {
                (self.ignored(), Ok(DeltaOutcome::Stale))
            } else if !continues(range, last as int) {
                (
                    self.invalidated().buffer(range, updates).0,
                    Err(SyncError::Gap { expected: (last + 1) as u64, got: range }),
                )
            } else {
                let (book, error) = apply_updates(self.book, updates);
                match error {
                    Some(error) => (self.invalidated(), Err(SyncError::Book(error))),
                    None => {
                        let (after, crossed) = (SyncView { book, ..self }).settled(range@.last);
                        match crossed {
                            Some(error) => (after, Err(error)),
                            None => (after, Ok(DeltaOutcome::Applied)),
                        }
                    },
                }
            },
        }
    }

    /// The sync after a snapshot taken at sequence number `seq`.
    pub open spec fn on_snapshot(self, seq: u64, bids: Seq<Level>, asks: Seq<Level>) -> (
        SyncView,
        Result<bool, SyncError>,
    ) {
        if self.live matches Some(last) && seq < last {
            (self, Ok(false))
        } else {
            let (loaded, result) = self.book.load(bids, asks);
            match result {
                Err(error) => (self.invalidated(), Err(SyncError::Book(error))),
                Ok(_) => match replay(loaded, seq, self.pending) {
                    Replayed::TooOld { first } => (
                        SyncView { book: self.book.cleared(), live: None, ..self },
                        Err(SyncError::SnapshotTooOld { snapshot: seq, first_buffered: first }),
                    ),
                    Replayed::Invalid { error } => (
                        self.invalidated(),
                        Err(SyncError::Book(error)),
                    ),
                    Replayed::Done { book, last } => {
                        let (after, crossed) = (SyncView {
                            book,
                            pending: Seq::empty(),
                            ..self
                        }).settled(last);
                        match crossed {
                            Some(error) => (after, Err(error)),
                            None => (after, Ok(true)),
                        }
                    },
                },
            }
        }
    }
}

/// Where a buffered message's updates stand in the update storage.
#[derive(Clone, Copy, Debug)]
struct Pending {
    range: SeqRange,
    start: usize,
    len: usize,
}

#[derive(Clone, Copy, Debug, PartialEq, Eq, Structural)]
enum State {
    AwaitingSnapshot,
    Live { last: u64 },
}

/// The messages that `pending` lays out over `updates`.
spec fn messages(pending: Seq<Pending>, updates: Seq<LevelUpdate>) -> Seq<Message> {
    Seq::new(
        pending.len(),
        |i: int|
            Message {
                range: pending[i].range,
                updates: updates.subrange(
                    pending[i].start as int,
                    pending[i].start + pending[i].len,
                ),
            },
    )
}

/// Whether `pending` lays its messages end to end over `total` updates.
spec fn laid_out(pending: Seq<Pending>, total: int) -> bool {
    &&& pending.len() > 0 ==> pending[0].start == 0
    &&& forall|i: int|
        0 <= i < pending.len() ==> (#[trigger] pending[i]).start + pending[i].len <= total
    &&& forall|i: int, j: int|
        #![trigger pending[i], pending[j]]
        0 <= i && j == i + 1 && j < pending.len() ==> pending[j].start == pending[i].start
            + pending[i].len
    &&& total == (if pending.len() == 0 {
        0int
    } else {
        pending.last().start + pending.last().len
    })
}

/// Messages laid end to end carry as many updates as the storage holds.
proof fn lemma_updates_in(pending: Seq<Pending>, updates: Seq<LevelUpdate>)
    requires
        laid_out(pending, updates.len() as int),
    ensures
        updates_in(messages(pending, updates)) == updates.len(),
{
    lemma_updates_in_first(pending, updates, pending.len() as int);
    assert(messages(pending, updates) =~= messages(pending, updates).take(pending.len() as int));
}

proof fn lemma_updates_in_first(pending: Seq<Pending>, updates: Seq<LevelUpdate>, n: int)
    requires
        laid_out(pending, updates.len() as int),
        0 <= n <= pending.len(),
    ensures
        updates_in(messages(pending, updates).take(n)) == (if n == 0 {
            0int
        } else {
            pending[n - 1].start + pending[n - 1].len
        }),
    decreases n,
{
    if n > 0 {
        lemma_updates_in_first(pending, updates, n - 1);
        let first = messages(pending, updates).take(n);
        assert(first.drop_last() =~= messages(pending, updates).take(n - 1));
        assert(pending[n - 1].start + pending[n - 1].len <= updates.len());
        if n > 1 {
            assert(pending[n - 2].start + pending[n - 2].len <= updates.len());
        }
    }
}

/// Storing one more message behind the others leaves those as they are.
proof fn lemma_message_added(
    pending: Seq<Pending>,
    stored: Seq<LevelUpdate>,
    range: SeqRange,
    updates: Seq<LevelUpdate>,
)
    requires
        laid_out(pending, stored.len() as int),
        stored.len() + updates.len() <= usize::MAX,
    ensures
        ({
            let added = Pending {
                range,
                start: stored.len() as usize,
                len: updates.len() as usize,
            };
            &&& laid_out(pending.push(added), (stored + updates).len() as int)
            &&& messages(pending.push(added), stored + updates) == messages(pending, stored).push(
                Message { range, updates },
            )
        }),
{
    let added = Pending { range, start: stored.len() as usize, len: updates.len() as usize };
    let after = pending.push(added);
    let all = stored + updates;
    assert forall|k: int| 0 <= k < after.len() implies (#[trigger] after[k]).start + after[k].len
        <= all.len() by {
        if k < pending.len() {
            assert(after[k] == pending[k]);
        }
    }
    assert forall|i: int, j: int|
        #![trigger after[i], after[j]]
        0 <= i && j == i + 1 && j < after.len() implies after[j].start == after[i].start
        + after[i].len by {
        assert(after[i] == pending[i]);
        if j < pending.len() {
            assert(after[j] == pending[j]);
        }
    }
    let before = messages(pending, stored);
    assert forall|k: int| 0 <= k < after.len() implies #[trigger] messages(after, all)[k]
        == before.push(Message { range, updates })[k] by {
        if k < pending.len() {
            let at = pending[k];
            assert(after[k] == at);
            assert(at.start + at.len <= stored.len());
            assert(all.subrange(at.start as int, at.start + at.len) =~= stored.subrange(
                at.start as int,
                at.start + at.len,
            ));
        } else {
            assert(all.subrange(added.start as int, added.start + added.len) =~= updates);
        }
    }
    assert(messages(after, all) =~= before.push(Message { range, updates }));
}

/// A message that extends a chain makes a longer chain.
proof fn lemma_chain_extended(pending: Seq<Message>, message: Message)
    requires
        chained(pending),
        pending.len() > 0 ==> pending.last().range@.last < message.range@.last && continues(
            message.range,
            pending.last().range@.last as int,
        ),
    ensures
        chained(pending.push(message)),
        updates_in(pending.push(message)) == updates_in(pending) + message.updates.len(),
{
    let after = pending.push(message);
    assert(after.drop_last() =~= pending);
    assert forall|i: int, j: int|
        #![trigger after[i], after[j]]
        0 <= i && j == i + 1 && j < after.len() implies after[i].range@.last < after[j].range@.last
        && continues(after[j].range, after[i].range@.last as int) by {
        assert(after[i] == pending[i]);
        if j < pending.len() {
            assert(after[j] == pending[j]);
        }
    }
}

/// Applying updates keeps the sides and sizes of a book.
proof fn lemma_apply_updates_shape(book: BookView, updates: Seq<LevelUpdate>)
    ensures
        apply_updates(book, updates).0.cleared() == book.cleared(),
    decreases updates.len(),
{
    if updates.len() > 0 {
        lemma_apply_updates_shape(book, updates.drop_last());
    }
}

/// The first invalid update decides the outcome of all of them.
proof fn lemma_apply_updates_stops(book: BookView, updates: Seq<LevelUpdate>, i: int)
    requires
        0 <= i <= updates.len(),
        apply_updates(book, updates.take(i)).1 is Some,
    ensures
        apply_updates(book, updates) == apply_updates(book, updates.take(i)),
    decreases updates.len(),
{
    if i == updates.len() {
        assert(updates.take(i) =~= updates);
    } else {
        let rest = updates.drop_last();
        assert(rest.take(i) =~= updates.take(i));
        lemma_apply_updates_stops(book, rest, i);
    }
}

/// The first message that stops a replay decides its outcome.
proof fn lemma_replay_stops(book: BookView, seq: u64, messages: Seq<Message>, i: int)
    requires
        0 <= i <= messages.len(),
        !(replay(book, seq, messages.take(i)) is Done),
    ensures
        replay(book, seq, messages) == replay(book, seq, messages.take(i)),
    decreases messages.len(),
{
    if i == messages.len() {
        assert(messages.take(i) =~= messages);
    } else {
        let rest = messages.drop_last();
        assert(rest.take(i) =~= messages.take(i));
        lemma_replay_stops(book, seq, rest, i);
    }
}

/// Applies updates in order, stopping at the first invalid one.
fn apply_all(book: &mut Book, updates: &[LevelUpdate]) -> (r: Result<(), BookError>)
    requires
        old(book).wf(),
    ensures
        final(book).wf(),
        final(book)@ == apply_updates(old(book)@, updates@).0,
        final(book)@.cleared() == old(book)@.cleared(),
        match r {
            Ok(_) => apply_updates(old(book)@, updates@).1 is None,
            Err(error) => apply_updates(old(book)@, updates@).1 == Some(error),
        },
{
    proof {
        lemma_apply_updates_shape(book@, updates@);
    }
    let mut i: usize = 0;
    while i < updates.len()
        invariant
            i <= updates.len(),
            book.wf(),
            apply_updates(old(book)@, updates@.take(i as int)) == (book@, None::<BookError>),
            apply_updates(old(book)@, updates@).0.cleared() == old(book)@.cleared(),
        decreases updates.len() - i,
    {
        proof {
            assert(updates@.take(i + 1).drop_last() =~= updates@.take(i as int));
            assert(updates@.take(i + 1).last() == updates@[i as int]);
        }
        match book.apply(updates[i]) {
            Ok(_) => {},
            Err(error) => {
                proof {
                    lemma_apply_updates_stops(old(book)@, updates@, i + 1);
                }
                return Err(error);
            },
        }
        i = i + 1;
    }
    assert(updates@.take(i as int) =~= updates@);
    Ok(())
}

/// Why buffered messages could not be replayed on a snapshot.
enum ReplayError {
    TooOld { first: u64 },
    Invalid { error: BookError },
}

/// Replays buffered messages on a book that stands at `seq`. Returns the sequence number that
/// the book then stands at.
fn replay_all(
    book: &mut Book,
    seq: u64,
    pending: &Vec<Pending>,
    pending_updates: &Vec<LevelUpdate>,
) -> (r: Result<u64, ReplayError>)
    requires
        old(book).wf(),
        laid_out(pending@, pending_updates@.len() as int),
    ensures
        final(book).wf(),
        final(book)@.cleared() == old(book)@.cleared(),
        replay(old(book)@, seq, messages(pending@, pending_updates@)) == (match r {
            Ok(last) => Replayed::Done { book: final(book)@, last },
            Err(ReplayError::TooOld { first }) => Replayed::TooOld { first },
            Err(ReplayError::Invalid { error }) => Replayed::Invalid { error },
        }),
{
    let ghost buffered = messages(pending@, pending_updates@);
    let mut cursor: u64 = seq;
    let mut index: usize = 0;
    while index < pending.len()
        invariant
            index <= pending.len(),
            laid_out(pending@, pending_updates@.len() as int),
            buffered == messages(pending@, pending_updates@),
            book.wf(),
            book@.cleared() == old(book)@.cleared(),
            replay(old(book)@, seq, buffered.take(index as int)) == (Replayed::Done {
                book: book@,
                last: cursor,
            }),
        decreases pending.len() - index,
    {
        let message: Pending = pending[index];
        proof {
            assert(message == pending@[index as int]);
            assert(buffered.take(index + 1).drop_last() =~= buffered.take(index as int));
            assert(buffered.take(index + 1).last() == buffered[index as int]);
        }
        if message.range.last() > cursor {
            if !message.range.continues(cursor) {
                // Buffered deltas are contiguous, so only the first one kept can fail here.
                proof {
                    lemma_replay_stops(old(book)@, seq, buffered, index + 1);
                }
                return Err(ReplayError::TooOld { first: message.range.first() });
            }
            assert(message.start + message.len <= pending_updates.len());
            let end: usize = message.start + message.len;
            let updates: &[LevelUpdate] = &pending_updates[message.start..end];
            match apply_all(book, updates) {
                Ok(_) => {},
                Err(error) => {
                    proof {
                        lemma_replay_stops(old(book)@, seq, buffered, index + 1);
                    }
                    return Err(ReplayError::Invalid { error });
                },
            }
            cursor = message.range.last();
        }
        index = index + 1;
    }
    assert(buffered.take(index as int) =~= buffered);
    Ok(cursor)
}

/// A [`Book`] plus the sequencing state that keeps it correct. See the module docs.
#[derive(Clone, Debug)]
pub struct BookSync {
    book: Book,
    state: State,
    pending: Vec<Pending>,
    pending_updates: Vec<LevelUpdate>,
    config: SyncConfig,
    stats: SyncStats,
}

impl View for BookSync {
    type V = SyncView;

    closed spec fn view(&self) -> SyncView {
        SyncView {
            book: self.book@,
            live: match self.state {
                State::Live { last } => Some(last),
                State::AwaitingSnapshot => None,
            },
            pending: messages(self.pending@, self.pending_updates@),
            config: self.config,
            stats: self.stats,
        }
    }
}

impl BookSync {
    /// What the constructor establishes and every method keeps.
    pub closed spec fn wf(self) -> bool {
        &&& self.book.wf()
        &&& laid_out(self.pending@, self.pending_updates@.len() as int)
        &&& self@.wf()
    }

    /// A well-formed sync has a well-formed view.
    pub proof fn lemma_wf(self)
        requires
            self.wf(),
        ensures
            self@.wf(),
    {
    }

    /// Creates a sync waiting for its first snapshot.
    ///
    /// # Errors
    /// [`BookError::ZeroCapacity`] if any configured size is zero.
    pub fn new(config: SyncConfig) -> (r: Result<Self, BookError>)
        ensures
            match r {
                Ok(sync) => {
                    &&& sync.wf()
                    &&& config.levels_per_side > 0
                    &&& config.buffered_messages > 0
                    &&& config.buffered_updates > 0
                    &&& sync@ == (SyncView {
                        book: BookView::empty(config.levels_per_side as nat),
                        live: None,
                        pending: Seq::empty(),
                        config,
                        stats: SyncStats { invalidations: 0, buffer_resets: 0, stale_deltas: 0 },
                    })
                },
                Err(error) => {
                    &&& error == BookError::ZeroCapacity
                    &&& config.levels_per_side == 0 || config.buffered_messages == 0
                        || config.buffered_updates == 0
                },
            },
    {
        if config.buffered_messages == 0 || config.buffered_updates == 0 {
            return Err(BookError::ZeroCapacity);
        }
        let book: Book = Book::new(config.levels_per_side)?;
        let sync: BookSync = BookSync {
            book,
            state: State::AwaitingSnapshot,
            pending: Vec::with_capacity(config.buffered_messages),
            pending_updates: Vec::with_capacity(config.buffered_updates),
            config,
            stats: SyncStats::default(),
        };
        proof {
            book.lemma_wf();
            assert(sync@.pending =~= Seq::<Message>::empty());
        }
        Ok(sync)
    }

    /// The book, only while it is live and consistent with the feed.
    pub fn book(&self) -> (r: Option<&Book>)
        requires
            self.wf(),
        ensures
            match r {
                Some(book) => self@.live is Some && book.wf() && book@ == self@.book
                    && book@.crossing() is None,
                None => self@.live is None,
            },
    {
        match self.state {
            State::Live { .. } => Some(&self.book),
            State::AwaitingSnapshot => None,
        }
    }

    /// Whether the book is live.
    pub fn is_live(&self) -> (r: bool)
        ensures
            r == self@.live is Some,
    {
        match self.state {
            State::Live { .. } => true,
            State::AwaitingSnapshot => false,
        }
    }

    /// Last sequence number applied, while live.
    pub fn last_seq(&self) -> (r: Option<u64>)
        ensures
            r == self@.live,
    {
        match self.state {
            State::Live { last } => Some(last),
            State::AwaitingSnapshot => None,
        }
    }

    /// Monitoring counters.
    pub fn stats(&self) -> (r: SyncStats)
        ensures
            r == self@.stats,
    {
        self.stats
    }

    /// Clears the book and waits for a new snapshot, for example after a reconnect.
    pub fn reset(&mut self)
        requires
            old(self).wf(),
        ensures
            final(self).wf(),
            final(self)@ == old(self)@.invalidated(),
    {
        self.invalidate();
    }

    fn invalidate(&mut self)
        requires
            old(self).book.wf(),
            old(self).config.buffered_messages > 0,
            old(self).config.buffered_updates > 0,
        ensures
            final(self).wf(),
            final(self)@ == old(self)@.invalidated(),
    {
        self.book.clear();
        self.state = State::AwaitingSnapshot;
        self.pending.clear();
        self.pending_updates.clear();
        self.stats.invalidations = self.stats.invalidations.saturating_add(1);
        proof {
            self.book.lemma_wf();
            assert(self@.pending =~= Seq::<Message>::empty());
            assert(self@.book =~= self@.book.cleared());
        }
    }

    fn restart_buffer(&mut self)
        requires
            old(self).book.wf(),
            old(self).config.buffered_messages > 0,
            old(self).config.buffered_updates > 0,
            old(self)@.live is None,
            old(self)@.book == old(self)@.book.cleared(),
        ensures
            final(self).wf(),
            final(self)@ == old(self)@.restarted(),
    {
        self.pending.clear();
        self.pending_updates.clear();
        self.stats.buffer_resets = self.stats.buffer_resets.saturating_add(1);
        proof {
            self.book.lemma_wf();
            assert(self@.pending =~= Seq::<Message>::empty());
        }
    }

    fn buffer(&mut self, range: SeqRange, updates: &[LevelUpdate]) -> (r: DeltaOutcome)
        requires
            old(self).wf(),
            old(self)@.live is None,
        ensures
            final(self).wf(),
            (final(self)@, r) == old(self)@.buffer(range, updates@),
    {
        if self.pending.len() > 0 {
            let prev: SeqRange = self.pending[self.pending.len() - 1].range;
            assert(prev == self@.pending.last().range);
            if range.last() <= prev.last() {
                self.stats.stale_deltas = self.stats.stale_deltas.saturating_add(1);
                return DeltaOutcome::Stale;
            }
            if !range.continues(prev.last()) {
                // No snapshot can bridge the break, so the older part is useless.
                self.restart_buffer();
            }
        }
        if self.pending.len() >= self.config.buffered_messages {
            self.restart_buffer();
        }
        let ghost roomy = *self;
        let start: usize = self.pending_updates.len();
        let ghost stored = self.pending_updates@;
        proof {
            lemma_updates_in(self.pending@, self.pending_updates@);
        }
        let mut i: usize = 0;
        while i < updates.len()
            invariant
                i <= updates.len(),
                roomy.wf(),
                roomy@.live is None,
                self.book == roomy.book,
                self.state == roomy.state,
                self.pending == roomy.pending,
                self.config == roomy.config,
                self.stats == roomy.stats,
                start == stored.len(),
                stored == roomy.pending_updates@,
                self.pending_updates@ == stored + updates@.take(i as int),
                start + i <= self.config.buffered_updates,
                updates_in(roomy@.pending) == start,
                roomy@.config == old(self)@.config,
                old(self)@.buffer(range, updates@) == (if updates_in(roomy@.pending) + updates@.len()
                    > old(self)@.config.buffered_updates {
                    (roomy@.restarted(), DeltaOutcome::Buffered)
                } else {
                    (
                        SyncView {
                            pending: roomy@.pending.push(Message { range, updates: updates@ }),
                            ..roomy@
                        },
                        DeltaOutcome::Buffered,
                    )
                }),
            decreases updates.len() - i,
        {
            if self.pending_updates.len() >= self.config.buffered_updates {
                // Out of room: keep nothing, so the next snapshot starts a clean chain.
                self.restart_buffer();
                assert(self@ =~= roomy@.restarted());
                return DeltaOutcome::Buffered;
            }
            self.pending_updates.push(updates[i]);
            assert(self.pending_updates@ =~= stored + updates@.take(i + 1));
            i = i + 1;
        }
        assert(updates@.take(i as int) =~= updates@);
        let len: usize = self.pending_updates.len() - start;
        self.pending.push(Pending { range, start, len });
        proof {
            lemma_message_added(roomy.pending@, stored, range, updates@);
            assert(self.pending@ =~= roomy.pending@.push(Pending { range, start, len }));
            lemma_chain_extended(roomy@.pending, Message { range, updates: updates@ });
        }
        DeltaOutcome::Buffered
    }

    /// Goes live at `last`, unless the book is crossed.
    fn settle(&mut self, last: u64) -> (r: Result<(), SyncError>)
        requires
            old(self).book.wf(),
            old(self).pending@.len() == 0,
            old(self).pending_updates@.len() == 0,
            old(self).config.buffered_messages > 0,
            old(self).config.buffered_updates > 0,
        ensures
            final(self).wf(),
            final(self)@ == old(self)@.settled(last).0,
            match r {
                Ok(_) => old(self)@.settled(last).1 is None,
                Err(error) => old(self)@.settled(last).1 == Some(error),
            },
    {
        self.state = State::Live { last };
        if let (Some(bid), Some(ask)) = (self.book.best_bid(), self.book.best_ask()) {
            if bid.price.get() >= ask.price.get() {
                self.invalidate();
                return Err(SyncError::Crossed { bid: bid.price, ask: ask.price });
            }
        }
        proof {
            self.book.lemma_wf();
            assert(self@.pending.len() == 0);
        }
        Ok(())
    }

    /// Handles one delta message.
    ///
    /// # Errors
    /// [`SyncError::Gap`], [`SyncError::Crossed`] or [`SyncError::Book`]; each invalidates the
    /// book, and the caller must stop quoting the instrument and request a snapshot.
    pub fn on_delta(&mut self, range: SeqRange, updates: &[LevelUpdate]) -> (r: Result<
        DeltaOutcome,
        SyncError,
    >)
        requires
            old(self).wf(),
        ensures
            final(self).wf(),
            (final(self)@, r) == old(self)@.on_delta(range, updates@),
    {
        let last: u64 = match self.state {
            State::AwaitingSnapshot => {
                return Ok(self.buffer(range, updates));
            },
            State::Live { last } => last,
        };
        if range.last() <= last {
            self.stats.stale_deltas = self.stats.stale_deltas.saturating_add(1);
            return Ok(DeltaOutcome::Stale);
        }
        if !range.continues(last) {
            self.invalidate();
            self.buffer(range, updates);
            return Err(SyncError::Gap { expected: last.saturating_add(1), got: range });
        }
        match apply_all(&mut self.book, updates) {
            Ok(_) => {},
            Err(error) => {
                self.invalidate();
                return Err(SyncError::Book(error));
            },
        }
        assert(self@.pending.len() == 0);
        assert(self.pending@.len() == 0);
        match self.settle(range.last()) {
            Ok(_) => Ok(DeltaOutcome::Applied),
            Err(error) => Err(error),
        }
    }

    /// Loads a snapshot taken at sequence number `seq` and replays buffered deltas after it.
    ///
    /// While live, a snapshot older than the last applied delta is stale and ignored (returns
    /// `Ok(false)`); the live book is newer. Returns `Ok(true)` when the snapshot was used.
    ///
    /// # Errors
    /// [`SyncError::SnapshotTooOld`] (buffer kept, fetch a newer snapshot), or
    /// [`SyncError::Book`] / [`SyncError::Crossed`] for bad data (book invalidated).
    pub fn on_snapshot(&mut self, seq: u64, bids: &[Level], asks: &[Level]) -> (r: Result<
        bool,
        SyncError,
    >)
        requires
            old(self).wf(),
        ensures
            final(self).wf(),
            (final(self)@, r) == old(self)@.on_snapshot(seq, bids@, asks@),
    {
        if let State::Live { last } = self.state {
            if seq < last {
                return Ok(false);
            }
        }
        match self.book.load(bids, asks) {
            Ok(_) => {},
            Err(error) => {
                self.invalidate();
                return Err(SyncError::Book(error));
            },
        }
        let cursor: u64 = match replay_all(
            &mut self.book,
            seq,
            &self.pending,
            &self.pending_updates,
        ) {
            Ok(last) => last,
            Err(ReplayError::TooOld { first }) => {
                self.book.clear();
                self.state = State::AwaitingSnapshot;
                proof {
                    self.book.lemma_wf();
                }
                return Err(SyncError::SnapshotTooOld { snapshot: seq, first_buffered: first });
            },
            Err(ReplayError::Invalid { error }) => {
                self.invalidate();
                return Err(SyncError::Book(error));
            },
        };
        self.pending.clear();
        self.pending_updates.clear();
        assert(self@.pending =~= Seq::<Message>::empty());
        match self.settle(cursor) {
            Ok(_) => Ok(true),
            Err(error) => Err(error),
        }
    }
}

} // verus!

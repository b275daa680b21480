//! Latest top of book per instrument, and the lines that show it.

use crate::book::book::Book;
use crate::book::ladder::Level;
use crate::ids::InstrumentId;
use crate::journal::health::JournalHealth;
use crate::md::metrics::MetricsState;
use crate::md::session::{MdReport, MdStatus};
use crate::time::WallTime;
use crate::units::{Price, Qty, Side};
use std::collections::BTreeMap;
use vstd::prelude::*;
use vstd::std_specs::btree;
use vstd::std_specs::iter::IteratorSpec;

verus! {

broadcast use btree::group_btree_axioms;

/// The top of one book.
#[derive(Clone, Copy, Debug)]
pub struct Top {
    /// Best bid.
    pub bid: Option<(Price, Qty)>,
    /// Best ask.
    pub ask: Option<(Price, Qty)>,
    /// Levels on each side.
    pub depth: (usize, usize),
    /// Updates seen.
    pub updates: u64,
    /// When the latest one happened.
    pub event_time: WallTime,
}

impl Top {
    /// A book that was never updated.
    pub open spec fn none() -> Top {
        Top { bid: None, ask: None, depth: (0, 0), updates: 0, event_time: WallTime(0) }
    }
}

impl Default for Top {
    fn default() -> (r: Self)
        ensures
            r == Top::none(),
    {
        Top { bid: None, ask: None, depth: (0, 0), updates: 0, event_time: WallTime::default() }
    }
}

/// Latest top of book per instrument, whether each is live, and what the metrics show.
#[derive(Debug)]
pub struct Board {
    /// Tops by instrument ID.
    pub tops: BTreeMap<u32, Top>,
    /// Whether a book is live, by instrument ID.
    pub live: BTreeMap<u32, bool>,
    /// What the metrics show.
    pub metrics: MetricsState,
}

/// What a board holds.
#[verifier::ext_equal]
pub struct BoardView {
    pub tops: Map<u32, Top>,
    pub live: Map<u32, bool>,
    pub metrics: MetricsState,
}

impl View for Board {
    type V = BoardView;

    open spec fn view(&self) -> BoardView {
        BoardView { tops: self.tops@, live: self.live@, metrics: self.metrics }
    }
}

/// A level as the board keeps it.
pub open spec fn top_level(level: Option<Level>) -> Option<(Price, Qty)> {
    match level {
        Some(level) => Some((level.price, level.qty)),
        None => None,
    }
}

impl BoardView {
    /// The top of an instrument's book.
    pub open spec fn top(self, id: u32) -> Top {
        if self.tops.contains_key(id) {
            self.tops[id]
        } else {
            Top::none()
        }
    }

    /// Whether an instrument's book is live.
    pub open spec fn is_live(self, id: u32) -> bool {
        self.live.contains_key(id) && self.live[id]
    }

    /// With whether an instrument's book is live.
    pub open spec fn with_live(self, id: InstrumentId, live: bool) -> BoardView {
        BoardView { live: self.live.insert(id.0, live), ..self }
    }

    /// With whether the connection is up.
    pub open spec fn with_connection(self, connected: bool) -> BoardView {
        BoardView { metrics: MetricsState { connected, ..self.metrics }, ..self }
    }

    /// After a change of status. A lost connection takes every book down.
    pub open spec fn after(self, status: MdStatus) -> BoardView {
        match status {
            MdStatus::InstrumentLive(id) => self.with_live(id, true),
            MdStatus::InstrumentDown { instrument, .. } => self.with_live(instrument, false),
            MdStatus::SnapshotFailed { .. } => self,
            MdStatus::Disconnected { .. } => BoardView {
                live: self.live.map_values(|live: bool| false),
                ..self
            }.with_connection(false),
            MdStatus::Connecting => self,
            MdStatus::Connected => self.with_connection(true),
        }
    }
}

impl Default for Board {
    fn default() -> (r: Self)
        ensures
            r@ == (BoardView {
                tops: Map::empty(),
                live: Map::empty(),
                metrics: MetricsState::initial(),
            }),
    {
        Board { tops: BTreeMap::new(), live: BTreeMap::new(), metrics: MetricsState::default() }
    }
}

/// The IDs that a map has entries for.
fn ids_of(map: &BTreeMap<u32, bool>) -> (r: Vec<u32>)
    ensures
        r@.to_set() == map@.dom(),
{
    let mut ids: Vec<u32> = Vec::new();
    for id in keys: map.keys()
        invariant
            keys.seq() == btree::spec_keys_iter(map).remaining(),
            ids@ == keys.seq().unref().take(keys.index()),
    {
        ids.push(*id);
        assert(ids@ =~= keys.seq().unref().take(keys.index() + 1));
    }
    assert(ids@ =~= btree::spec_keys_iter(map).remaining().unref());
    ids
}

impl Board {
    /// The top of an instrument's book.
    pub fn top(&self, id: u32) -> (r: Top)
        ensures
            r == self@.top(id),
    {
        match self.tops.get(&id) {
            Some(top) => *top,
            None => Top::default(),
        }
    }

    /// Whether an instrument's book is live.
    pub fn is_live(&self, id: u32) -> (r: bool)
        ensures
            r == self@.is_live(id),
    {
        match self.live.get(&id) {
            Some(live) => *live,
            None => false,
        }
    }

    /// Records the top of a book after an update.
    pub fn on_book(&mut self, instrument: InstrumentId, book: &Book, event_time: WallTime)
        requires
            book.wf(),
        ensures
            final(self)@ == (BoardView {
                tops: old(self)@.tops.insert(
                    instrument.0,
                    Top {
                        bid: top_level(book@.bids.best()),
                        ask: top_level(book@.asks.best()),
                        depth: (
                            book@.bids.levels.len() as usize,
                            book@.asks.levels.len() as usize,
                        ),
                        updates: old(self)@.top(instrument.0).updates.saturating_add(1),
                        event_time,
                    },
                ),
                ..old(self)@
            }),
    {
        let before: Top = self.top(instrument.get());
        let bid: Option<(Price, Qty)> = match book.best_bid() {
            Some(level) => Some((level.price, level.qty)),
            None => None,
        };
        let ask: Option<(Price, Qty)> = match book.best_ask() {
            Some(level) => Some((level.price, level.qty)),
            None => None,
        };
        let depth: (usize, usize) = (book.side(Side::Buy).len(), book.side(Side::Sell).len());
        let top: Top = Top {
            bid,
            ask,
            depth,
            updates: before.updates.saturating_add(1),
            event_time,
        };
        let _replaced: Option<Top> = self.tops.insert(instrument.get(), top);
        assert(self.live@ == old(self).live@);
    }

    /// Takes every book down.
    fn all_down(&mut self)
        ensures
            final(self)@ == (BoardView {
                live: old(self)@.live.map_values(|live: bool| false),
                ..old(self)@
            }),
    {
        let ids: Vec<u32> = ids_of(&self.live);
        let mut i: usize = 0;
        while i < ids.len()
            invariant
                i <= ids.len(),
                ids@.to_set() == old(self)@.live.dom(),
                self.tops@ == old(self)@.tops,
                self.metrics == old(self)@.metrics,
                self.live@.dom() == old(self)@.live.dom(),
                forall|k: int| 0 <= k < i ==> !self.live@[#[trigger] ids@[k]],
            decreases ids.len() - i,
        {
            assert(ids@.to_set().contains(ids@[i as int]));
            let ghost before = self.live@;
            let _replaced: Option<bool> = self.live.insert(ids[i], false);
            assert(self.live@.dom() =~= before.dom());
            i = i + 1;
        }
        assert(self.live@ =~= old(self)@.live.map_values(|live: bool| false)) by {
            assert forall|id: u32| #[trigger] self.live@.contains_key(id) implies !self.live@[id] by {
                assert(ids@.to_set().contains(id));
                let k = choose|k: int| 0 <= k < ids@.len() && ids@[k] == id;
                assert(!self.live@[ids@[k]]);
            }
        }
    }

    /// Takes note of a change of status.
    pub fn on_status(&mut self, status: &MdStatus)
        ensures
            final(self)@ == old(self)@.after(*status),
    {
        match status {
            MdStatus::InstrumentLive(id) => {
                let _replaced: Option<bool> = self.live.insert(id.get(), true);
            },
            MdStatus::InstrumentDown { instrument, .. } => {
                let _replaced: Option<bool> = self.live.insert(instrument.get(), false);
            },
            MdStatus::SnapshotFailed { .. } => {},
            MdStatus::Disconnected { .. } => {
                self.all_down();
                self.metrics.connected = false;
            },
            MdStatus::Connecting => {},
            MdStatus::Connected => {
                self.metrics.connected = true;
            },
        }
    }

    /// Takes note of a periodic report that arrived at `now`.
    pub fn on_report(&mut self, report: &MdReport, now: WallTime)
        ensures
            final(self)@ == (BoardView {
                metrics: MetricsState { report: Some((*report, now)), ..old(self)@.metrics },
                ..old(self)@
            }),
    {
        self.metrics.report = Some((*report, now));
    }

    /// Takes note of the journal's health. What it dropped is kept when its state changes.
    pub fn on_journal(&mut self, health: JournalHealth)
        ensures
            final(self)@ == (BoardView {
                metrics: MetricsState {
                    journal: Some(health),
                    journal_dropped: match health {
                        JournalHealth::Degraded { dropped } => dropped,
                        _ => old(self)@.metrics.journal_dropped,
                    },
                    ..old(self)@.metrics
                },
                ..old(self)@
            }),
    {
        self.metrics.journal = Some(health);
        if let JournalHealth::Degraded { dropped } = health {
            self.metrics.journal_dropped = dropped;
        }
    }

    /// Adds the instruments that are live now to those that ever were.
    pub fn note_live(&self, ever_live: &mut BTreeMap<u32, bool>)
        ensures
            final(ever_live)@ == old(ever_live)@.union_prefer_right(
                Map::new(|id: u32| self@.is_live(id), |id: u32| true),
            ),
    {
        let ids: Vec<u32> = ids_of(&self.live);
        let ghost added = Map::new(|id: u32| self@.is_live(id), |id: u32| true);
        let mut i: usize = 0;
        while i < ids.len()
            invariant
                i <= ids.len(),
                ids@.to_set() == self.live@.dom(),
                forall|id: u32| #[trigger]
                    ever_live@.contains_key(id) <==> old(ever_live)@.contains_key(id) || exists|
                        k: int,
                    |
                        0 <= k < i && #[trigger] ids@[k] == id && self.live@[id],
                forall|id: u32| #[trigger]
                    ever_live@.contains_key(id) ==> ever_live@[id] == if self@.is_live(id)
                        && exists|k: int| 0 <= k < i && #[trigger] ids@[k] == id {
                        true
                    } else {
                        old(ever_live)@[id]
                    },
            decreases ids.len() - i,
        {
            let id: u32 = ids[i];
            assert(ids@.to_set().contains(id));
            let ghost before = ever_live@;
            if self.is_live(id) {
                let _replaced: Option<bool> = ever_live.insert(id, true);
            }
            assert forall|other: u32| #[trigger] ever_live@.contains_key(other) <==> old(
                ever_live,
            )@.contains_key(other) || exists|k: int|
                0 <= k < i + 1 && #[trigger] ids@[k] == other && self.live@[other] by {
                assert(before.contains_key(other) <==> old(ever_live)@.contains_key(other)
                    || exists|k: int|
                    0 <= k < i && #[trigger] ids@[k] == other && self.live@[other]);
                if other == id {
                    assert(ids@[i as int] == other);
                }
            }
            i = i + 1;
        }
        assert(ever_live@ =~= old(ever_live)@.union_prefer_right(added)) by {
            assert forall|id: u32| self@.is_live(id) implies exists|k: int|
                0 <= k < ids@.len() && #[trigger] ids@[k] == id by {
                assert(ids@.to_set().contains(id));
            }
        }
    }
}

/// No book counts as live while the connection is lost: losing it takes every one down.
pub proof fn law_a_lost_connection_leaves_no_book_live(board: BoardView, status: MdStatus, id: u32)
    requires
        status is Disconnected,
    ensures
        !board.after(status).is_live(id),
        !board.after(status).metrics.connected,
        board.after(status).tops == board.tops,
{
}

/// A change of status is about what it names. A book that went live or down is so from then on,
/// and no other book is touched by that. The connection is up once it is made, whatever the books
/// are. A failed snapshot and the wait for a connection change nothing, and no status changes what
/// the books showed last.
pub proof fn law_a_status_changes_what_it_names(board: BoardView, status: MdStatus, id: u32)
    ensures
        ({
            let after = board.after(status);
            &&& after.tops == board.tops
            &&& after.metrics.started == board.metrics.started
            &&& after.metrics.report == board.metrics.report
            &&& after.metrics.journal == board.metrics.journal
            &&& after.metrics.journal_dropped == board.metrics.journal_dropped
            &&& match status {
                MdStatus::InstrumentLive(of) => after.metrics == board.metrics && after.is_live(id)
                    == (id == of.0 || board.is_live(id)),
                MdStatus::InstrumentDown { instrument, .. } => after.metrics == board.metrics
                    && after.is_live(id) == (id != instrument.0 && board.is_live(id)),
                MdStatus::Connected => after.metrics.connected && after.is_live(id)
                    == board.is_live(id),
                MdStatus::Disconnected { .. } => !after.metrics.connected && !after.is_live(id),
                MdStatus::SnapshotFailed { .. } => after == board,
                MdStatus::Connecting => after == board,
            }
        }),
{
}

/// An instrument that no status or book was seen of is down, with an empty top.
pub proof fn law_unseen_books_are_down_and_empty(board: BoardView, id: u32)
    ensures
        !board.live.contains_key(id) ==> !board.is_live(id),
        !board.tops.contains_key(id) ==> {
            &&& board.top(id).bid is None
            &&& board.top(id).ask is None
            &&& board.top(id).depth == (0usize, 0usize)
            &&& board.top(id).updates == 0
            &&& board.top(id).event_time.0 == 0
        },
        board.tops.contains_key(id) ==> board.top(id) == board.tops[id],
{
}

/// The board keeps a level's own price and quantity.
pub proof fn law_levels_are_kept_as_they_are(level: Level)
    ensures
        top_level(None) is None,
        top_level(Some(level)) == Some((level.price, level.qty)),
{
}

} // verus!

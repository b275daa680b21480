//! The lines that show the board and changes of status.

use crate::fixed;
use crate::ids::InstrumentId;
use crate::instrument::{Instrument, InstrumentTable, Symbol};
use crate::md::board::{Board, BoardView, Top};
use crate::md::lines;
use crate::md::session::{MdReport, MdStatus};
use crate::text;
use crate::units::{Price, Qty};
use std::collections::BTreeMap;
use vstd::prelude::*;

verus! {

broadcast use vstd::std_specs::btree::group_btree_axioms;

/// How an instrument is named: by its symbol, or by its ID if there is none for it.
pub open spec fn name_of(symbols: Seq<Symbol>, id: InstrumentId) -> Seq<char> {
    if id.0 < symbols.len() {
        text::chars_of(symbols[id.0 as int]@)
    } else {
        "#"@ + text::number_text(id.0 as nat, 1)
    }
}

/// How an instrument is named.
pub fn instrument_name(symbols: &[Symbol], id: InstrumentId) -> (r: String)
    ensures
        r@ == name_of(symbols@, id),
{
    let index: usize = id.get() as usize;
    if index < symbols.len() {
        return symbols[index].to_string();
    }
    let mut out: String = String::new();
    out.append("#");
    text::push_number(&mut out, id.get() as u64, 1);
    assert(out@ =~= name_of(symbols@, id));
    out
}

/// The line for a change of status.
pub open spec fn status_line(symbols: Seq<Symbol>, status: MdStatus) -> Seq<char> {
    "[status] "@ + match status {
        MdStatus::InstrumentLive(id) => name_of(symbols, id) + " live"@,
        MdStatus::InstrumentDown { instrument, reason } => name_of(symbols, instrument)
            + " DOWN: "@ + reason@,
        MdStatus::SnapshotFailed { instrument, reason } => name_of(symbols, instrument)
            + " snapshot failed: "@ + reason@,
        MdStatus::Disconnected { reason } => "disconnected: "@ + reason@,
        MdStatus::Connecting => "connecting"@,
        MdStatus::Connected => "connected"@,
    }
}

/// The line for a change of status.
pub fn status_text(symbols: &[Symbol], status: &MdStatus) -> (r: String)
    ensures
        r@ == status_line(symbols@, *status),
{
    let mut out: String = String::new();
    out.append("[status] ");
    match status {
        MdStatus::InstrumentLive(id) => {
            out.append(instrument_name(symbols, *id).as_str());
            out.append(" live");
        },
        MdStatus::InstrumentDown { instrument, reason } => {
            out.append(instrument_name(symbols, *instrument).as_str());
            out.append(" DOWN: ");
            out.append(reason.as_str());
        },
        MdStatus::SnapshotFailed { instrument, reason } => {
            out.append(instrument_name(symbols, *instrument).as_str());
            out.append(" snapshot failed: ");
            out.append(reason.as_str());
        },
        MdStatus::Disconnected { reason } => {
            out.append("disconnected: ");
            out.append(reason.as_str());
        },
        MdStatus::Connecting => {
            out.append("connecting");
        },
        MdStatus::Connected => {
            out.append("connected");
        },
    }
    assert(out@ =~= status_line(symbols@, *status));
    out
}

/// Turns what a session reports into lines. Messages are shown per report.
#[derive(Debug)]
pub struct Recorder {
    /// Symbols by instrument ID.
    pub symbols: Vec<Symbol>,
    /// Messages counted at the previous report.
    pub reported_messages: u64,
}

impl Recorder {
    /// A recorder of a session that has not reported yet.
    pub fn new(symbols: Vec<Symbol>) -> (r: Self)
        ensures
            r.symbols@ == symbols@,
            r.reported_messages == 0,
    {
        Recorder { symbols, reported_messages: 0 }
    }

    /// The line for a change of status.
    pub fn on_status(&self, status: &MdStatus) -> (r: String)
        ensures
            r@ == status_line(self.symbols@, *status),
    {
        status_text(self.symbols.as_slice(), status)
    }

    /// The line for a report, with the messages since the one before.
    pub fn on_report(&mut self, report: &MdReport) -> (r: String)
        ensures
            final(self).symbols == old(self).symbols,
            final(self).reported_messages == report.stats.messages,
            r@ == lines::report_line(
                *report,
                report.stats.messages.saturating_sub(old(self).reported_messages),
            ),
    {
        let messages: u64 = report.stats.messages.saturating_sub(self.reported_messages);
        self.reported_messages = report.stats.messages;
        lines::report_text(report, messages)
    }
}

/// How a level is shown: quantity and price in decimal units.
pub open spec fn side_line(instrument: Instrument, level: Option<(Price, Qty)>) -> Seq<char> {
    match level {
        Some((price, qty)) => text::chars_of(
            fixed::dec_text(instrument.lot@.of_units(qty.0 as int)),
        ) + " @ "@ + text::chars_of(fixed::dec_text(instrument.tick@.of_units(price.0 as int))),
        None => "-"@,
    }
}

/// How a level is shown.
fn side_text(instrument: &Instrument, level: Option<(Price, Qty)>) -> (r: String)
    ensures
        r@ == side_line(*instrument, level),
{
    let mut out: String = String::new();
    match level {
        Some((price, qty)) => {
            out.append(qty.to_dec(instrument.lot).to_string().as_str());
            out.append(" @ ");
            out.append(price.to_dec(instrument.tick).to_string().as_str());
        },
        None => {
            out.append("-");
        },
    }
    assert(out@ =~= side_line(*instrument, level));
    out
}

/// The spread in ticks, or 0 where there is none.
pub open spec fn spread_of(top: Top) -> int {
    match (top.bid, top.ask) {
        (Some((bid, _)), Some((ask, _))) => if i64::MIN <= ask.0 - bid.0 <= i64::MAX {
            ask.0 - bid.0
        } else {
            0
        },
        _ => 0,
    }
}

/// The spread in ticks, or 0 where there is none.
fn spread(top: &Top) -> (r: i64)
    ensures
        r == spread_of(*top),
{
    match (top.bid, top.ask) {
        (Some((bid, _)), Some((ask, _))) => match ask.checked_sub(bid) {
            Some(difference) => difference.get(),
            None => 0,
        },
        _ => 0,
    }
}

/// One board line: best bid and ask in decimal units, spread, depth and the given rate text.
pub open spec fn line_of(
    instrument: Instrument,
    top: Top,
    live: bool,
    rate: Seq<char>,
) -> Seq<char> {
    text::padded(text::chars_of(instrument.symbol@), 10) + " "@ + text::padded(
        if live {
            "LIVE"@
        } else {
            "down"@
        },
        5,
    ) + " bid "@ + text::padded(side_line(instrument, top.bid), 28) + " ask "@ + text::padded(
        side_line(instrument, top.ask),
        28,
    ) + " spread "@ + text::aligned(text::signed_text(spread_of(top)), 4) + " ticks  depth "@
        + text::number_text(top.depth.0 as nat, 1) + "/"@ + text::number_text(
        top.depth.1 as nat,
        1,
    ) + "  "@ + rate
}

/// One board line: best bid and ask in decimal units, spread, depth and the given rate text.
pub fn board_line(instrument: &Instrument, top: &Top, live: bool, rate: &str) -> (r: String)
    ensures
        r@ == line_of(*instrument, *top, live, rate@),
{
    let mut out: String = String::new();
    text::push_padded(&mut out, instrument.symbol.as_str(), 10);
    out.append(" ");
    text::push_padded(
        &mut out,
        if live {
            "LIVE"
        } else {
            "down"
        },
        5,
    );
    out.append(" bid ");
    text::push_padded(&mut out, side_text(instrument, top.bid).as_str(), 28);
    out.append(" ask ");
    text::push_padded(&mut out, side_text(instrument, top.ask).as_str(), 28);
    out.append(" spread ");
    text::push_aligned(&mut out, text::signed(spread(top)).as_str(), 4);
    out.append(" ticks  depth ");
    text::push_number(&mut out, top.depth.0 as u64, 1);
    out.append("/");
    text::push_number(&mut out, top.depth.1 as u64, 1);
    out.append("  ");
    out.append(rate);
    assert(out@ =~= line_of(*instrument, *top, live, rate@));
    out
}

/// Updates of an instrument since the board was last printed.
pub open spec fn rate_of(board: BoardView, previous: Map<u32, u64>, id: u32) -> u64 {
    let before = if previous.contains_key(id) {
        previous[id]
    } else {
        0
    };
    board.top(id).updates.saturating_sub(before)
}

/// The board line of an instrument, with its updates since the board was last printed.
pub open spec fn rate_line(
    board: BoardView,
    previous: Map<u32, u64>,
    instrument: Instrument,
) -> Seq<char> {
    let id = instrument.id.0;
    line_of(
        instrument,
        board.top(id),
        board.is_live(id),
        text::aligned(text::number_text(rate_of(board, previous, id) as nat, 1), 3) + " upd/s"@,
    )
}

/// The board line of an instrument, with all of its updates.
pub open spec fn total_line(board: BoardView, instrument: Instrument) -> Seq<char> {
    let id = instrument.id.0;
    line_of(
        instrument,
        board.top(id),
        board.is_live(id),
        text::number_text(board.top(id).updates as nat, 1) + " updates"@,
    )
}

/// The update counts of some instruments, in addition to others.
pub open spec fn with_updates(
    previous: Map<u32, u64>,
    board: BoardView,
    instruments: Seq<Instrument>,
) -> Map<u32, u64>
    decreases instruments.len(),
{
    if instruments.len() == 0 {
        previous
    } else {
        let last = instruments.last().id.0;
        with_updates(previous, board, instruments.drop_last()).insert(
            last,
            board.top(last).updates,
        )
    }
}

/// The board line of an instrument, with its updates since the board was last printed.
fn rate_text(board: &Board, previous: u64, instrument: &Instrument) -> (r: String)
    ensures
        ({
            let id = instrument.id.0;
            let rate = board@.top(id).updates.saturating_sub(previous);
            r@ == line_of(
                *instrument,
                board@.top(id),
                board@.is_live(id),
                text::aligned(text::number_text(rate as nat, 1), 3) + " upd/s"@,
            )
        }),
{
    let id: u32 = instrument.id.get();
    let top: Top = board.top(id);
    let rate: u64 = top.updates.saturating_sub(previous);
    let mut shown: String = String::new();
    text::push_aligned(&mut shown, text::unsigned(rate).as_str(), 3);
    shown.append(" upd/s");
    assert(shown@ =~= text::aligned(text::number_text(rate as nat, 1), 3) + " upd/s"@);
    board_line(instrument, &top, board.is_live(id), shown.as_str())
}

/// The board, one line per instrument, with updates since it was last printed. The counts in
/// `previous` become the ones shown.
pub fn board_lines(
    board: &Board,
    instruments: &InstrumentTable,
    previous: &mut BTreeMap<u32, u64>,
) -> (r: Vec<String>)
    ensures
        r@.len() == instruments@.len(),
        forall|i: int|
            0 <= i < r@.len() ==> (#[trigger] r@[i])@ == rate_line(
                board@,
                with_updates(old(previous)@, board@, instruments@.take(i)),
                instruments@[i],
            ),
        final(previous)@ == with_updates(old(previous)@, board@, instruments@),
{
    let all: Vec<Instrument> = instruments.iter();
    let mut shown: Vec<String> = Vec::new();
    let mut i: usize = 0;
    assert(all@.take(0) =~= Seq::<Instrument>::empty());
    while i < all.len()
        invariant
            i <= all.len(),
            all@ == instruments@,
            shown@.len() == i,
            previous@ == with_updates(old(previous)@, board@, all@.take(i as int)),
            forall|k: int|
                0 <= k < i ==> (#[trigger] shown@[k])@ == rate_line(
                    board@,
                    with_updates(old(previous)@, board@, instruments@.take(k)),
                    instruments@[k],
                ),
        decreases all.len() - i,
    {
        let instrument: Instrument = all[i];
        let id: u32 = instrument.id.get();
        let before: u64 = match previous.get(&id) {
            Some(updates) => *updates,
            None => 0,
        };
        assert(before == if previous@.contains_key(id) {
            previous@[id]
        } else {
            0
        });
        shown.push(rate_text(board, before, &instrument));
        let _replaced: Option<u64> = previous.insert(id, board.top(id).updates);
        assert(all@.take(i + 1).drop_last() =~= all@.take(i as int));
        i = i + 1;
    }
    assert(all@.take(i as int) =~= all@);
    shown
}

/// The final board, one line per instrument, with all of its updates.
pub fn final_lines(board: &Board, instruments: &InstrumentTable) -> (r: Vec<String>)
    ensures
        r@.len() == instruments@.len(),
        forall|i: int|
            0 <= i < r@.len() ==> (#[trigger] r@[i])@ == total_line(board@, instruments@[i]),
{
    let all: Vec<Instrument> = instruments.iter();
    let mut shown: Vec<String> = Vec::new();
    let mut i: usize = 0;
    while i < all.len()
        invariant
            i <= all.len(),
            all@ == instruments@,
            shown@.len() == i,
            forall|k: int|
                0 <= k < i ==> (#[trigger] shown@[k])@ == total_line(board@, instruments@[k]),
        decreases all.len() - i,
    {
        let instrument: Instrument = all[i];
        let id: u32 = instrument.id.get();
        let top: Top = board.top(id);
        let mut updates: String = text::unsigned(top.updates);
        updates.append(" updates");
        shown.push(board_line(&instrument, &top, board.is_live(id), updates.as_str()));
        i = i + 1;
    }
    shown
}

/// The spread is what the best ask is above the best bid, in ticks. Without both, or where the
/// difference does not fit, it is shown as none.
pub proof fn law_the_spread_is_ask_less_bid(top: Top)
    ensures
        top.bid is None || top.ask is None ==> spread_of(top) == 0,
        top.bid is Some && top.ask is Some ==> {
            let ask = (top.ask->0).0;
            let bid = (top.bid->0).0;
            &&& -0x8000_0000_0000_0000 <= ask.0 - bid.0 <= 0x7fff_ffff_ffff_ffff ==> spread_of(top)
                + bid.0 == ask.0
            &&& !(-0x8000_0000_0000_0000 <= ask.0 - bid.0 <= 0x7fff_ffff_ffff_ffff) ==> spread_of(
                top,
            ) == 0
        },
{
}

/// What is remembered for the next printing is the updates of each instrument that was printed,
/// and nothing changes for the others.
pub proof fn law_printed_updates_are_remembered(
    previous: Map<u32, u64>,
    board: BoardView,
    instruments: Seq<Instrument>,
    id: u32,
)
    ensures
        ({
            let now = with_updates(previous, board, instruments);
            let printed = exists|k: int|
                0 <= k < instruments.len() && (#[trigger] instruments[k]).id.0 == id;
            &&& printed ==> now.contains_key(id) && now[id] == board.top(id).updates
            &&& !printed ==> now.contains_key(id) == previous.contains_key(id) && now[id]
                == previous[id]
        }),
    decreases instruments.len(),
{
    if instruments.len() > 0 {
        let head = instruments.drop_last();
        law_printed_updates_are_remembered(previous, board, head, id);
        if exists|k: int| 0 <= k < instruments.len() && (#[trigger] instruments[k]).id.0 == id {
            let k = choose|k: int|
                0 <= k < instruments.len() && (#[trigger] instruments[k]).id.0 == id;
            if k < head.len() {
                assert(head[k].id.0 == id);
            }
        } else {
            assert(instruments[instruments.len() - 1].id.0 != id);
            assert forall|k: int| 0 <= k < head.len() implies (#[trigger] head[k]).id.0 != id by {
                assert(instruments[k].id.0 != id);
            }
        }
    }
}

/// The rate of an instrument is its updates since the board was last printed: all of them where it
/// was never printed, and none where nothing was added.
pub proof fn law_rates_count_from_the_last_printing(
    previous: Map<u32, u64>,
    board: BoardView,
    later: BoardView,
    instruments: Seq<Instrument>,
    i: int,
)
    requires
        0 <= i < instruments.len(),
    ensures
        ({
            let id = instruments[i].id.0;
            let printed = with_updates(previous, board, instruments);
            &&& board.top(id).updates <= later.top(id).updates ==> board.top(id).updates + rate_of(
                later,
                printed,
                id,
            ) == later.top(id).updates
            &&& board.top(id).updates > later.top(id).updates ==> rate_of(later, printed, id) == 0
            &&& !previous.contains_key(id) ==> rate_of(board, previous, id) == board.top(
                id,
            ).updates
        }),
{
    law_printed_updates_are_remembered(previous, board, instruments, instruments[i].id.0);
}

/// Instruments are shown by their symbols, and those without one by their number.
pub proof fn law_instruments_are_shown_by_symbol(symbols: Seq<Symbol>, id: InstrumentId)
    ensures
        id.0 < symbols.len() ==> name_of(symbols, id) == text::chars_of(symbols[id.0 as int]@),
        id.0 >= symbols.len() ==> name_of(symbols, id) == "#"@ + text::chars_of(
            text::digits(id.0 as nat, 1),
        ),
{
}

} // verus!

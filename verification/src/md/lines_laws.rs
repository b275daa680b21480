//! Which figure stands behind which word in the lines that are printed.

use crate::fixed;
use crate::instrument::Instrument;
use crate::journal::health::JournalHealth;
use crate::journal::writer::JournalStats;
use crate::md::board::{BoardView, Top};
use crate::md::lines;
use crate::md::session::{MdReport, MdStats, MdStatus, ReplayReport};
use crate::md::show;
use crate::telemetry::histogram::LatencySummary;
use crate::text;
use crate::time;
use std::time::Duration;
use vstd::prelude::*;

verus! {

broadcast use {text::lemma_holds_its_end, text::lemma_holds_more, text::lemma_holds_itself};

/// A number in decimal, as short as it can be.
pub open spec fn figure(n: nat) -> Seq<char> {
    text::chars_of(text::digits(n, 1))
}

/// Percentiles are shown whenever there are samples, each behind its name.
pub proof fn law_latency_lines_show_each_percentile(latency: LatencySummary)
    ensures
        ({
            let line = lines::latency_line(latency);
            &&& latency.count == 0 ==> line == "no samples"@
            &&& latency.count > 0 ==> {
                &&& text::holds(line, "p50 "@ + lines::micros_text(latency.p50))
                &&& text::holds(line, " p99 "@ + lines::micros_text(latency.p99))
                &&& text::holds(line, " p99.9 "@ + lines::micros_text(latency.p999))
                &&& text::holds(line, " max "@ + lines::micros_text(latency.max))
            }
        }),
{
}

/// A report shows its interval in whole seconds, the messages it is given, the latency of the
/// interval, and what came of the verifications.
pub proof fn law_report_lines_show_the_interval(report: MdReport, messages: u64)
    ensures
        ({
            let line = lines::report_line(report, messages);
            let seconds = time::span_nanos(report.interval) / 1_000_000_000;
            &&& text::holds(line, "[stats] "@ + figure(seconds))
            &&& text::holds(line, "s: "@ + figure(messages as nat))
            &&& text::holds(line, " msgs, decode+apply "@ + lines::latency_line(report.latency))
            &&& text::holds(line, "; verified "@ + figure(report.stats.verifications_passed as nat))
            &&& text::holds(line, " ok, "@ + figure(report.stats.verification_mismatches as nat))
            &&& text::holds(
                line,
                " mismatched, "@ + figure(report.stats.verifications_abandoned as nat),
            )
        }),
{
}

/// The summary of a session shows every count behind the word that comes before it.
pub proof fn law_summary_lines_show_every_count(stats: MdStats, latency: LatencySummary)
    ensures
        ({
            let summary = lines::summary_line(stats);
            let total = lines::total_latency_line(latency);
            let verification = lines::verification_line(stats);
            &&& text::holds(summary, "summary: "@ + figure(stats.messages as nat))
            &&& text::holds(summary, " messages, "@ + figure(stats.deltas_applied as nat))
            &&& text::holds(summary, " deltas applied, "@ + figure(stats.book_invalidations as nat))
            &&& text::holds(summary, " book invalidations, "@ + figure(stats.connections as nat))
            &&& text::holds(summary, " connections, "@ + figure(stats.snapshots_applied as nat))
            &&& text::holds(summary, "/"@ + figure(stats.snapshots_requested as nat))
            &&& text::holds(total, "latency: decode+apply over "@ + figure(latency.count as nat))
            &&& text::holds(total, " messages: "@ + lines::latency_line(latency))
            &&& text::holds(
                verification,
                "verification: "@ + figure(stats.verifications_passed as nat),
            )
            &&& text::holds(
                verification,
                " passed, "@ + figure(stats.verification_mismatches as nat),
            )
            &&& text::holds(
                verification,
                " mismatched, "@ + figure(stats.verifications_abandoned as nat),
            )
        }),
{
}

/// The lines on the journal show how healthy it is and what it counted.
pub proof fn law_journal_lines_show_every_count(health: JournalHealth, stats: JournalStats)
    ensures
        ({
            let journal = lines::journal_line(stats);
            &&& text::holds(journal, "journal: "@ + figure(stats.records as nat))
            &&& text::holds(journal, " records, "@ + figure(stats.bytes as nat))
            &&& text::holds(journal, " bytes, "@ + figure(stats.segments as nat))
            &&& text::holds(journal, " segment(s), "@ + figure(stats.dropped as nat))
            &&& match health {
                JournalHealth::Healthy => lines::health_line(health) == "journal health: "@
                    + "Ok"@,
                JournalHealth::Failed => lines::health_line(health) == "journal health: "@
                    + "Failed"@,
                JournalHealth::Degraded { dropped } => text::holds(
                    lines::health_line(health),
                    "Degraded { dropped: "@ + figure(dropped as nat),
                ),
            }
        }),
{
    if let JournalHealth::Degraded { dropped } = health {
        let shown = "Degraded { dropped: "@ + figure(dropped as nat);
        let line = lines::health_line(health);
        let start = "journal health: "@;
        assert(start + (shown + " }"@) =~= start + "Degraded { dropped: "@ + figure(dropped as nat)
            + " }"@);
    }
}

/// The line on a replay shows every count, and says so where the last record was torn.
pub proof fn law_replay_lines_show_every_count(report: ReplayReport)
    ensures
        ({
            let line = lines::replay_line(report);
            &&& text::holds(line, "replayed "@ + figure(report.sessions as nat))
            &&& text::holds(line, " session(s): "@ + figure(report.messages as nat))
            &&& text::holds(line, " messages, "@ + figure(report.snapshots as nat))
            &&& text::holds(line, " snapshots, "@ + figure(report.verifications as nat))
            &&& text::holds(line, " verification snapshots, "@ + figure(report.resets as nat))
            &&& text::holds(line, " resets, "@ + figure(report.dropped as nat))
            &&& report.torn_tail ==> text::holds(
                line,
                " records missing"@ + ", torn final record (unclean shutdown)"@,
            )
        }),
{
}

/// The line on an instrument's rules starts with its symbol and shows its increments and its
/// smallest order exactly.
pub proof fn law_rules_lines_show_every_rule(instrument: Instrument)
    ensures
        ({
            let line = lines::rules_line(instrument);
            &&& text::holds(
                line,
                text::chars_of(instrument.symbol@) + ": tick "@ + text::chars_of(
                    fixed::dec_text(instrument.tick@),
                ),
            )
            &&& text::holds(line, " lot "@ + text::chars_of(fixed::dec_text(instrument.lot@)))
            &&& text::holds(
                line,
                " min notional "@ + text::chars_of(fixed::dec_text(instrument.min_notional@)),
            )
        }),
{
}

/// The line above the board shows the whole seconds that have passed.
pub proof fn law_clock_lines_show_the_seconds(elapsed: Duration)
    ensures
        text::holds(
            lines::clock_line(elapsed),
            "--- "@ + text::aligned(figure(time::span_nanos(elapsed) / 1_000_000_000), 4),
        ),
{
}

/// A level is shown as its quantity in lots and its price in ticks, both in decimal units, and the
/// want of one as a dash.
pub proof fn law_levels_are_shown_in_decimal_units(
    instrument: Instrument,
    price: crate::units::Price,
    qty: crate::units::Qty,
)
    ensures
        show::side_line(instrument, None) == "-"@,
        ({
            let line = show::side_line(instrument, Some((price, qty)));
            let quantity = text::chars_of(
                fixed::dec_text(
                    fixed::Decimal {
                        mantissa: qty.0 * instrument.lot@.mantissa,
                        scale: instrument.lot@.scale,
                    },
                ),
            );
            let at = text::chars_of(
                fixed::dec_text(
                    fixed::Decimal {
                        mantissa: price.0 * instrument.tick@.mantissa,
                        scale: instrument.tick@.scale,
                    },
                ),
            );
            &&& text::holds(line, quantity + " @ "@)
            &&& text::holds(line, " @ "@ + at)
            &&& line.len() == quantity.len() + 3 + at.len()
        }),
{
    reveal_strlit(" @ ");
}

/// A line of the board shows the symbol, whether the book is live, the best bid and the best ask,
/// the spread, and the number of levels on each side.
pub proof fn law_board_lines_show_the_top(
    instrument: Instrument,
    top: Top,
    live: bool,
    rate: Seq<char>,
)
    ensures
        ({
            let line = show::line_of(instrument, top, live, rate);
            let symbol = text::padded(text::chars_of(instrument.symbol@), 10);
            &&& line.take(symbol.len() as int) == symbol
            &&& live ==> text::holds(line, " "@ + text::padded("LIVE"@, 5))
            &&& !live ==> text::holds(line, " "@ + text::padded("down"@, 5))
            &&& text::holds(
                line,
                " bid "@ + text::padded(show::side_line(instrument, top.bid), 28),
            )
            &&& text::holds(
                line,
                " ask "@ + text::padded(show::side_line(instrument, top.ask), 28),
            )
            &&& text::holds(
                line,
                " spread "@ + text::aligned(text::signed_text(show::spread_of(top)), 4),
            )
            &&& text::holds(line, " ticks  depth "@ + figure(top.depth.0 as nat))
            &&& text::holds(line, "/"@ + figure(top.depth.1 as nat))
            &&& text::holds(line, "  "@ + rate)
        }),
{
    let line = show::line_of(instrument, top, live, rate);
    let symbol = text::padded(text::chars_of(instrument.symbol@), 10);
    assert(line.take(symbol.len() as int) =~= symbol);
}

/// The board shows each instrument by the top of its own book, with its updates since the last
/// printing; the final board shows all of its updates.
pub proof fn law_boards_show_each_instrument_by_its_own_book(
    board: BoardView,
    previous: Map<u32, u64>,
    instrument: Instrument,
)
    ensures
        ({
            let id = instrument.id.0;
            let line = show::rate_line(board, previous, instrument);
            let last = show::total_line(board, instrument);
            let rate = show::rate_of(board, previous, id) as nat;
            let updates = board.top(id).updates as nat;
            &&& exists|shown: Seq<char>|
                line == #[trigger] show::line_of(
                    instrument,
                    board.top(id),
                    board.is_live(id),
                    shown,
                ) && text::holds(shown, figure(rate) + " upd/s"@)
            &&& last == show::line_of(
                instrument,
                board.top(id),
                board.is_live(id),
                figure(updates) + " updates"@,
            )
        }),
{
    let id = instrument.id.0;
    let rate = figure(show::rate_of(board, previous, id) as nat);
    let shown = text::aligned(rate, 3) + " upd/s"@;
    assert(show::rate_line(board, previous, instrument) == show::line_of(
        instrument,
        board.top(id),
        board.is_live(id),
        shown,
    ));
    assert(text::spaces(3 - rate.len()) + rate + " upd/s"@ == shown);
    assert(text::holds(shown, rate + " upd/s"@));
}

/// A change of status is told of the instrument that it is about, with the reason where there is
/// one.
pub proof fn law_status_lines_name_what_changed(
    symbols: Seq<crate::instrument::Symbol>,
    status: MdStatus,
)
    ensures
        ({
            let line = show::status_line(symbols, status);
            match status {
                MdStatus::InstrumentLive(id) => text::holds(
                    line,
                    show::name_of(symbols, id) + " live"@,
                ),
                MdStatus::InstrumentDown { instrument, reason } => text::holds(
                    line,
                    show::name_of(symbols, instrument) + " DOWN: "@,
                ) && text::holds(line, " DOWN: "@ + reason@),
                MdStatus::SnapshotFailed { instrument, reason } => text::holds(
                    line,
                    show::name_of(symbols, instrument) + " snapshot failed: "@,
                ) && text::holds(line, " snapshot failed: "@ + reason@),
                MdStatus::Disconnected { reason } => text::holds(
                    line,
                    "disconnected: "@ + reason@,
                ),
                MdStatus::Connecting => text::holds(line, "[status] "@ + "connecting"@),
                MdStatus::Connected => text::holds(line, "[status] "@ + "connected"@),
            }
        }),
{
    let line = show::status_line(symbols, status);
    let start = "[status] "@;
    match status {
        MdStatus::InstrumentLive(id) => {
            let name = show::name_of(symbols, id);
            assert(line =~= start + name + " live"@);
        },
        MdStatus::InstrumentDown { instrument, reason } => {
            let name = show::name_of(symbols, instrument);
            assert(line =~= start + name + " DOWN: "@ + reason@);
            assert(text::holds(start + name + " DOWN: "@ + reason@, name + " DOWN: "@));
            assert(text::holds(start + name + " DOWN: "@ + reason@, " DOWN: "@ + reason@));
        },
        MdStatus::SnapshotFailed { instrument, reason } => {
            let name = show::name_of(symbols, instrument);
            assert(line =~= start + name + " snapshot failed: "@ + reason@);
            assert(text::holds(
                start + name + " snapshot failed: "@ + reason@,
                name + " snapshot failed: "@,
            ));
            assert(text::holds(
                start + name + " snapshot failed: "@ + reason@,
                " snapshot failed: "@ + reason@,
            ));
        },
        MdStatus::Disconnected { reason } => {
            assert(line =~= start + "disconnected: "@ + reason@);
        },
        _ => {},
    }
}

} // verus!

//! The lines that the tool prints about its session and its journal.

use crate::fixed;
use crate::instrument::Instrument;
use crate::journal::health::JournalHealth;
use crate::journal::writer::JournalStats;
use crate::md::session::{MdReport, MdStats, ReplayReport};
use crate::telemetry::histogram::LatencySummary;
use crate::text;
use crate::time;
use std::time::Duration;
use vstd::prelude::*;

verus! {

/// A count in decimal.
pub open spec fn count_text(n: u64) -> Seq<char> {
    text::number_text(n as nat, 1)
}

/// Nanoseconds as microseconds with two decimals.
pub open spec fn micros_text(nanos: u64) -> Seq<char> {
    text::number_text(nanos as nat / 1_000, 1) + "."@ + text::number_text(
        nanos as nat % 1_000 / 10,
        2,
    ) + " µs"@
}

/// Nanoseconds as microseconds with two decimals, without floating point.
pub fn micros(nanos: u64) -> (r: String)
    ensures
        r@ == micros_text(nanos),
{
    let mut out: String = String::new();
    text::push_number(&mut out, nanos / 1_000, 1);
    out.append(".");
    text::push_number(&mut out, nanos % 1_000 / 10, 2);
    out.append(" µs");
    assert(out@ =~= micros_text(nanos));
    out
}

/// Microseconds are written with two decimals, cut off there: the digits of the hundredths, at
/// least three of them, with a point before the last two.
pub proof fn law_microseconds_are_written_to_the_hundredth(nanos: u64)
    ensures
        ({
            let digits = text::digits(nanos as nat / 10, 3);
            let point = digits.len() - 2;
            &&& point >= 1
            &&& micros_text(nanos) == text::chars_of(digits.take(point)) + "."@ + text::chars_of(
                digits.skip(point),
            ) + " µs"@
        }),
{
    let digits = text::digits(nanos as nat / 10, 3);
    let point = digits.len() - 2;
    text::lemma_digits_split(nanos as nat / 10, 1, 2);
    reveal_with_fuel(text::tens, 3);
    assert(nanos as nat / 10 / 100 == nanos as nat / 1_000);
    assert(nanos as nat / 10 % 100 == nanos as nat % 1_000 / 10);
    let front = text::digits(nanos as nat / 1_000, 1);
    let back = text::digits(nanos as nat % 1_000 / 10, 2);
    text::law_numbers_have_no_needless_zeros(nanos as nat / 1_000, 1);
    text::lemma_digits_fit(nanos as nat % 1_000 / 10, 2);
    assert(digits == front + back);
    assert(digits.take(point) =~= front);
    assert(digits.skip(point) =~= back);
}

/// Percentiles in one line.
pub open spec fn latency_line(latency: LatencySummary) -> Seq<char> {
    if latency.count == 0 {
        "no samples"@
    } else {
        "p50 "@ + micros_text(latency.p50) + " p99 "@ + micros_text(latency.p99) + " p99.9 "@
            + micros_text(latency.p999) + " max "@ + micros_text(latency.max)
    }
}

/// Percentiles in one line.
pub fn latency_text(latency: &LatencySummary) -> (r: String)
    ensures
        r@ == latency_line(*latency),
{
    let mut out: String = String::new();
    if latency.count == 0 {
        out.append("no samples");
    } else {
        out.append("p50 ");
        out.append(micros(latency.p50).as_str());
        out.append(" p99 ");
        out.append(micros(latency.p99).as_str());
        out.append(" p99.9 ");
        out.append(micros(latency.p999).as_str());
        out.append(" max ");
        out.append(micros(latency.max).as_str());
    }
    assert(out@ =~= latency_line(*latency));
    out
}

/// The line for a periodic report with this many messages since the one before.
pub open spec fn report_line(report: MdReport, messages: u64) -> Seq<char> {
    "[stats] "@ + text::number_text(time::span_nanos(report.interval) / 1_000_000_000, 1) + "s: "@
        + count_text(messages) + " msgs, decode+apply "@ + latency_line(report.latency)
        + "; verified "@ + count_text(report.stats.verifications_passed) + " ok, "@ + count_text(
        report.stats.verification_mismatches,
    ) + " mismatched, "@ + count_text(report.stats.verifications_abandoned) + " abandoned"@
}

/// The line for a periodic report with this many messages since the one before.
pub fn report_text(report: &MdReport, messages: u64) -> (r: String)
    ensures
        r@ == report_line(*report, messages),
{
    let mut out: String = String::new();
    out.append("[stats] ");
    text::push_number(&mut out, report.interval.as_secs(), 1);
    out.append("s: ");
    text::push_number(&mut out, messages, 1);
    out.append(" msgs, decode+apply ");
    out.append(latency_text(&report.latency).as_str());
    out.append("; verified ");
    text::push_number(&mut out, report.stats.verifications_passed, 1);
    out.append(" ok, ");
    text::push_number(&mut out, report.stats.verification_mismatches, 1);
    out.append(" mismatched, ");
    text::push_number(&mut out, report.stats.verifications_abandoned, 1);
    out.append(" abandoned");
    assert(out@ =~= report_line(*report, messages));
    out
}

/// The final line on what the session did.
pub open spec fn summary_line(stats: MdStats) -> Seq<char> {
    "summary: "@ + count_text(stats.messages) + " messages, "@ + count_text(stats.deltas_applied)
        + " deltas applied, "@ + count_text(stats.book_invalidations) + " book invalidations, "@
        + count_text(stats.connections) + " connections, "@ + count_text(stats.snapshots_applied)
        + "/"@ + count_text(stats.snapshots_requested) + " snapshots applied/requested"@
}

/// The final line on latency.
pub open spec fn total_latency_line(latency: LatencySummary) -> Seq<char> {
    "latency: decode+apply over "@ + count_text(latency.count) + " messages: "@ + latency_line(
        latency,
    )
}

/// The final line on verification.
pub open spec fn verification_line(stats: MdStats) -> Seq<char> {
    "verification: "@ + count_text(stats.verifications_passed) + " passed, "@ + count_text(
        stats.verification_mismatches,
    ) + " mismatched, "@ + count_text(stats.verifications_abandoned) + " abandoned"@
}

/// The final line on what the session did.
fn summary_text(stats: &MdStats) -> (r: String)
    ensures
        r@ == summary_line(*stats),
{
    let mut out: String = String::new();
    out.append("summary: ");
    text::push_number(&mut out, stats.messages, 1);
    out.append(" messages, ");
    text::push_number(&mut out, stats.deltas_applied, 1);
    out.append(" deltas applied, ");
    text::push_number(&mut out, stats.book_invalidations, 1);
    out.append(" book invalidations, ");
    text::push_number(&mut out, stats.connections, 1);
    out.append(" connections, ");
    text::push_number(&mut out, stats.snapshots_applied, 1);
    out.append("/");
    text::push_number(&mut out, stats.snapshots_requested, 1);
    out.append(" snapshots applied/requested");
    assert(out@ =~= summary_line(*stats));
    out
}

/// The final line on latency.
fn total_latency_text(latency: &LatencySummary) -> (r: String)
    ensures
        r@ == total_latency_line(*latency),
{
    let mut out: String = String::new();
    out.append("latency: decode+apply over ");
    text::push_number(&mut out, latency.count, 1);
    out.append(" messages: ");
    out.append(latency_text(latency).as_str());
    assert(out@ =~= total_latency_line(*latency));
    out
}

/// The final line on verification.
fn verification_text(stats: &MdStats) -> (r: String)
    ensures
        r@ == verification_line(*stats),
{
    let mut out: String = String::new();
    out.append("verification: ");
    text::push_number(&mut out, stats.verifications_passed, 1);
    out.append(" passed, ");
    text::push_number(&mut out, stats.verification_mismatches, 1);
    out.append(" mismatched, ");
    text::push_number(&mut out, stats.verifications_abandoned, 1);
    out.append(" abandoned");
    assert(out@ =~= verification_line(*stats));
    out
}

/// The final lines on a session: what it did, its latency and its verifications.
pub fn summary_lines(stats: &MdStats, latency: &LatencySummary) -> (r: Vec<String>)
    ensures
        r@.len() == 3,
        r@[0]@ == summary_line(*stats),
        r@[1]@ == total_latency_line(*latency),
        r@[2]@ == verification_line(*stats),
{
    let mut lines: Vec<String> = Vec::new();
    lines.push(summary_text(stats));
    lines.push(total_latency_text(latency));
    lines.push(verification_text(stats));
    lines
}

/// The line on the journal's health.
pub open spec fn health_line(health: JournalHealth) -> Seq<char> {
    "journal health: "@ + match health {
        JournalHealth::Healthy => "Ok"@,
        JournalHealth::Degraded { dropped } => "Degraded { dropped: "@ + count_text(dropped)
            + " }"@,
        JournalHealth::Failed => "Failed"@,
    }
}

/// The line on the journal's health.
pub fn health_text(health: JournalHealth) -> (r: String)
    ensures
        r@ == health_line(health),
{
    let mut out: String = String::new();
    out.append("journal health: ");
    match health {
        JournalHealth::Healthy => {
            out.append("Ok");
        },
        JournalHealth::Degraded { dropped } => {
            out.append("Degraded { dropped: ");
            text::push_number(&mut out, dropped, 1);
            out.append(" }");
        },
        JournalHealth::Failed => {
            out.append("Failed");
        },
    }
    assert(out@ =~= health_line(health));
    out
}

/// The line on a finished journal.
pub open spec fn journal_line(stats: JournalStats) -> Seq<char> {
    "journal: "@ + count_text(stats.records) + " records, "@ + count_text(stats.bytes)
        + " bytes, "@ + text::number_text(stats.segments as nat, 1) + " segment(s), "@ + count_text(
        stats.dropped,
    ) + " dropped"@
}

/// The line on a finished journal.
pub fn journal_text(stats: &JournalStats) -> (r: String)
    ensures
        r@ == journal_line(*stats),
{
    let mut out: String = String::new();
    out.append("journal: ");
    text::push_number(&mut out, stats.records, 1);
    out.append(" records, ");
    text::push_number(&mut out, stats.bytes, 1);
    out.append(" bytes, ");
    text::push_number(&mut out, stats.segments as u64, 1);
    out.append(" segment(s), ");
    text::push_number(&mut out, stats.dropped, 1);
    out.append(" dropped");
    assert(out@ =~= journal_line(*stats));
    out
}

/// The line on a replayed journal.
pub open spec fn replay_line(report: ReplayReport) -> Seq<char> {
    "replayed "@ + count_text(report.sessions) + " session(s): "@ + count_text(report.messages)
        + " messages, "@ + count_text(report.snapshots) + " snapshots, "@ + count_text(
        report.verifications,
    ) + " verification snapshots, "@ + count_text(report.resets) + " resets, "@ + count_text(
        report.dropped,
    ) + " records missing"@ + if report.torn_tail {
        ", torn final record (unclean shutdown)"@
    } else {
        Seq::empty()
    }
}

/// The line on a replayed journal.
pub fn replay_text(report: &ReplayReport) -> (r: String)
    ensures
        r@ == replay_line(*report),
{
    let mut out: String = String::new();
    out.append("replayed ");
    text::push_number(&mut out, report.sessions, 1);
    out.append(" session(s): ");
    text::push_number(&mut out, report.messages, 1);
    out.append(" messages, ");
    text::push_number(&mut out, report.snapshots, 1);
    out.append(" snapshots, ");
    text::push_number(&mut out, report.verifications, 1);
    out.append(" verification snapshots, ");
    text::push_number(&mut out, report.resets, 1);
    out.append(" resets, ");
    text::push_number(&mut out, report.dropped, 1);
    out.append(" records missing");
    if report.torn_tail {
        out.append(", torn final record (unclean shutdown)");
    }
    assert(out@ =~= replay_line(*report));
    out
}

/// The line on an instrument's rules.
pub open spec fn rules_line(instrument: Instrument) -> Seq<char> {
    text::chars_of(instrument.symbol@) + ": tick "@ + text::chars_of(
        fixed::dec_text(instrument.tick@),
    ) + " lot "@ + text::chars_of(fixed::dec_text(instrument.lot@)) + " min notional "@
        + text::chars_of(fixed::dec_text(instrument.min_notional@))
}

/// The line on an instrument's rules.
pub fn rules_text(instrument: &Instrument) -> (r: String)
    ensures
        r@ == rules_line(*instrument),
{
    let mut out: String = String::new();
    out.append(instrument.symbol.as_str());
    out.append(": tick ");
    out.append(instrument.tick.to_string().as_str());
    out.append(" lot ");
    out.append(instrument.lot.to_string().as_str());
    out.append(" min notional ");
    out.append(instrument.min_notional.to_string().as_str());
    assert(out@ =~= rules_line(*instrument));
    out
}

/// The line above each printing of the board.
pub open spec fn clock_line(elapsed: Duration) -> Seq<char> {
    "--- "@ + text::aligned(text::number_text(time::span_nanos(elapsed) / 1_000_000_000, 1), 4)
        + "s"@
}

/// The line above each printing of the board.
pub fn clock_text(elapsed: Duration) -> (r: String)
    ensures
        r@ == clock_line(elapsed),
{
    let mut out: String = String::new();
    out.append("--- ");
    text::push_aligned(&mut out, text::unsigned(elapsed.as_secs()).as_str(), 4);
    out.append("s");
    assert(out@ =~= clock_line(elapsed));
    out
}

} // verus!

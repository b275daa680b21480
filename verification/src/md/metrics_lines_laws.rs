//! The lines of the tool's metrics: every one is valid, and stands where it may.

use crate::instrument::Instrument;
use crate::journal::health::JournalHealth;
use crate::md::metrics::{self, MetricsState};
use crate::md::metrics_laws;
use crate::md::session::{MdReport, MdStats};
use crate::telemetry::exposition::{self, ExpositionView, Label, MetricType, Value};
use crate::telemetry::exposition_laws::{self, Line};
use crate::telemetry::histogram::LatencySummary;
use crate::text;
use crate::time::WallTime;
use vstd::prelude::*;

verus! {

/// The place of a metric family among all of them, told by the length of its name; two names
/// have the same length.
spec fn place(name: Seq<char>) -> nat {
    if name.len() == 24 {
        if name[6] == 's' {
            2
        } else {
            4
        }
    } else if name.len() == 16 {
        1
    } else if name.len() == 18 {
        3
    } else if name.len() == 23 {
        5
    } else if name.len() == 29 {
        6
    } else if name.len() == 33 {
        7
    } else if name.len() == 26 {
        8
    } else if name.len() == 34 {
        9
    } else if name.len() == 32 {
        10
    } else if name.len() == 28 {
        11
    } else if name.len() == 30 {
        12
    } else if name.len() == 38 {
        13
    } else if name.len() == 19 {
        14
    } else if name.len() == 35 {
        15
    } else {
        0
    }
}

/// The places of the metrics of the process and the connection.
proof fn lemma_first_places()
    ensures
        place("bowst_build_info"@) == 1,
        place("bowst_start_time_seconds"@) == 2,
        place("bowst_md_connected"@) == 3,
        place("bowst_md_instrument_live"@) == 4,
{
    reveal_strlit("bowst_build_info");
    reveal_strlit("bowst_start_time_seconds");
    reveal_strlit("bowst_md_connected");
    reveal_strlit("bowst_md_instrument_live");
}

/// The places of the counters.
proof fn lemma_counter_places()
    ensures
        place("bowst_md_messages_total"@) == 5,
        place("bowst_md_deltas_applied_total"@) == 6,
        place("bowst_md_book_invalidations_total"@) == 7,
        place("bowst_md_connections_total"@) == 8,
        place("bowst_md_snapshots_requested_total"@) == 9,
        place("bowst_md_snapshots_applied_total"@) == 10,
{
    reveal_strlit("bowst_md_messages_total");
    reveal_strlit("bowst_md_deltas_applied_total");
    reveal_strlit("bowst_md_book_invalidations_total");
    reveal_strlit("bowst_md_connections_total");
    reveal_strlit("bowst_md_snapshots_requested_total");
    reveal_strlit("bowst_md_snapshots_applied_total");
}

/// The places of the other metrics.
proof fn lemma_last_places()
    ensures
        place("bowst_md_verifications_total"@) == 11,
        place("bowst_md_apply_latency_seconds"@) == 12,
        place("bowst_md_last_report_timestamp_seconds"@) == 13,
        place("bowst_journal_state"@) == 14,
        place("bowst_journal_dropped_records_total"@) == 15,
{
    reveal_strlit("bowst_md_verifications_total");
    reveal_strlit("bowst_md_apply_latency_seconds");
    reveal_strlit("bowst_md_last_report_timestamp_seconds");
    reveal_strlit("bowst_journal_state");
    reveal_strlit("bowst_journal_dropped_records_total");
}

/// Whether all these lines are still there.
spec fn keeps(before: Seq<Line>, after: Seq<Line>) -> bool {
    forall|line: Line| before.contains(line) ==> #[trigger] after.contains(line)
}

/// A sample's line.
pub open spec fn sample(name: Seq<char>, labels: Seq<Label>, value: Value) -> Line {
    Line::Sample { name, labels, value }
}

/// Whether a metric is declared to be of a type.
pub open spec fn typed(lines: Seq<Line>, name: Seq<char>, kind: MetricType) -> bool {
    lines.contains(Line::Type { name, kind })
}

/// The label that identifies the venue on every market-data metric.
pub open spec fn venue() -> Label {
    ("venue"@, "binance"@)
}

/// One for true, zero for false.
pub open spec fn bit(b: bool) -> Value {
    if b {
        Value::Int(1)
    } else {
        Value::Int(0)
    }
}

/// The line of an instrument's book.
pub open spec fn live_line(instrument: Instrument, live: bool) -> Line {
    sample(
        "bowst_md_instrument_live"@,
        seq![venue(), ("symbol"@, text::chars_of(instrument.symbol@))],
        bit(live),
    )
}

/// Whether only families up to a place are declared.
spec fn upto(lines: Seq<Line>, last: nat) -> bool {
    forall|family: Seq<char>| #[trigger]
        exposition_laws::declared(lines, family) ==> place(family) <= last
}

/// With the next family.
proof fn lemma_next_family(
    e: ExpositionView,
    lines: Seq<Line>,
    name: Seq<char>,
    kind: MetricType,
    help: Seq<char>,
) -> (r: Seq<Line>)
    requires
        exposition_laws::laid_out(e, lines),
        exposition::is_metric_name(name),
        place(name) > 0,
        upto(lines, (place(name) - 1) as nat),
    ensures
        exposition_laws::laid_out(e.family(name, kind, help), r),
        upto(r, place(name)),
        exposition_laws::admits(r, name),
        kind == MetricType::Summary ==> exposition_laws::admits(r, name + "_sum"@)
            && exposition_laws::admits(r, name + "_count"@),
        keeps(lines, r),
        r.contains(Line::Type { name, kind }),
{
    exposition_laws::lemma_add_family(e, lines, name, kind, help)
}

/// With the next family, of one sample.
proof fn lemma_next_metric(
    e: ExpositionView,
    lines: Seq<Line>,
    name: Seq<char>,
    kind: MetricType,
    help: Seq<char>,
    labels: Seq<Label>,
    value: Value,
) -> (r: Seq<Line>)
    requires
        exposition_laws::laid_out(e, lines),
        exposition::is_valid_sample(name, labels),
        place(name) > 0,
        upto(lines, (place(name) - 1) as nat),
    ensures
        exposition_laws::laid_out(e.metric(name, kind, help, labels, value), r),
        upto(r, place(name)),
        keeps(lines, r),
        r.contains(Line::Type { name, kind }),
        r.contains(sample(name, labels, value)),
{
    let family = lemma_next_family(e, lines, name, kind, help);
    exposition_laws::lemma_add_sample(e.family(name, kind, help), family, name, labels, value)
}

/// The metrics of the process.
proof fn lemma_process(
    e: ExpositionView,
    lines: Seq<Line>,
    state: MetricsState,
    version: Seq<char>,
) -> (r: Seq<Line>)
    requires
        exposition_laws::laid_out(e, lines),
        upto(lines, 0),
    ensures
        exposition_laws::laid_out(e.process(state, version), r),
        upto(r, 2),
        keeps(lines, r),
        typed(r, "bowst_build_info"@, MetricType::Gauge),
        typed(r, "bowst_start_time_seconds"@, MetricType::Gauge),
        r.contains(sample("bowst_build_info"@, seq![("version"@, version)], Value::Int(1))),
        r.contains(
            sample("bowst_start_time_seconds"@, Seq::empty(), Value::Nanos(state.started.0)),
        ),
{
    lemma_first_places();
    metrics_laws::lemma_process_names();
    metrics_laws::lemma_label_names();
    let labels = seq![("version"@, version)];
    let help = "Always 1; labels identify the build."@;
    let first = lemma_next_metric(
        e,
        lines,
        "bowst_build_info"@,
        MetricType::Gauge,
        help,
        labels,
        Value::Int(1),
    );
    lemma_next_metric(
        e.metric("bowst_build_info"@, MetricType::Gauge, help, labels, Value::Int(1)),
        first,
        "bowst_start_time_seconds"@,
        MetricType::Gauge,
        "Unix time the process started."@,
        Seq::empty(),
        Value::Nanos(state.started.0),
    )
}

/// The status of the first `n` instruments' books.
proof fn lemma_instruments(
    e: ExpositionView,
    lines: Seq<Line>,
    instruments: Seq<Instrument>,
    live: Seq<bool>,
    n: nat,
) -> (r: Seq<Line>)
    requires
        exposition_laws::laid_out(e, lines),
        exposition_laws::admits(lines, "bowst_md_instrument_live"@),
        upto(lines, 4),
    ensures
        exposition_laws::laid_out(e.instruments(instruments, live, n), r),
        exposition_laws::admits(r, "bowst_md_instrument_live"@),
        upto(r, 4),
        keeps(lines, r),
        forall|i: int|
            0 <= i < n ==> r.contains(live_line(#[trigger] instruments[i], live[i])),
    decreases n,
{
    metrics_laws::lemma_connection_names();
    metrics_laws::lemma_label_names();
    if n == 0 {
        lines
    } else {
        let before = lemma_instruments(e, lines, instruments, live, (n - 1) as nat);
        exposition_laws::lemma_add_sample(
            e.instruments(instruments, live, (n - 1) as nat),
            before,
            "bowst_md_instrument_live"@,
            seq![
                ("venue"@, metrics::VENUE@),
                ("symbol"@, text::chars_of(instruments[n - 1].symbol@)),
            ],
            metrics::flag(live[n - 1]),
        )
    }
}

/// The metrics of the connection and of each book.
proof fn lemma_connection(
    e: ExpositionView,
    lines: Seq<Line>,
    state: MetricsState,
    instruments: Seq<Instrument>,
    live: Seq<bool>,
) -> (r: Seq<Line>)
    requires
        exposition_laws::laid_out(e, lines),
        upto(lines, 2),
    ensures
        exposition_laws::laid_out(e.connection(state, instruments, live), r),
        upto(r, 4),
        keeps(lines, r),
        typed(r, "bowst_md_connected"@, MetricType::Gauge),
        typed(r, "bowst_md_instrument_live"@, MetricType::Gauge),
        r.contains(sample("bowst_md_connected"@, seq![venue()], bit(state.connected))),
        forall|i: int|
            0 <= i < instruments.len() ==> r.contains(
                live_line(#[trigger] instruments[i], live[i]),
            ),
{
    lemma_first_places();
    metrics_laws::lemma_connection_names();
    metrics_laws::lemma_label_names();
    let help = "1 while the market-data WebSocket is connected."@;
    let about = "1 while the instrument's book is live and may be used; 0 while it is down."@;
    let connected = e.metric(
        "bowst_md_connected"@,
        MetricType::Gauge,
        help,
        metrics::venue_label(),
        metrics::flag(state.connected),
    );
    let first = lemma_next_metric(
        e,
        lines,
        "bowst_md_connected"@,
        MetricType::Gauge,
        help,
        metrics::venue_label(),
        metrics::flag(state.connected),
    );
    let family = lemma_next_family(
        connected,
        first,
        "bowst_md_instrument_live"@,
        MetricType::Gauge,
        about,
    );
    lemma_instruments(
        connected.family("bowst_md_instrument_live"@, MetricType::Gauge, about),
        family,
        instruments,
        live,
        instruments.len(),
    )
}

/// With the next counter.
proof fn lemma_next_counter(
    e: ExpositionView,
    lines: Seq<Line>,
    name: Seq<char>,
    help: Seq<char>,
    value: u64,
) -> (r: Seq<Line>)
    requires
        exposition_laws::laid_out(e, lines),
        exposition::is_metric_name(name),
        place(name) > 0,
        upto(lines, (place(name) - 1) as nat),
    ensures
        exposition_laws::laid_out(e.counter(name, help, value), r),
        upto(r, place(name)),
        keeps(lines, r),
        typed(r, name, MetricType::Counter),
        r.contains(Line::Type { name, kind: MetricType::Counter }),
        r.contains(sample(name, seq![venue()], Value::Int(value))),
{
    metrics_laws::lemma_label_names();
    lemma_next_metric(
        e,
        lines,
        name,
        MetricType::Counter,
        help,
        metrics::venue_label(),
        Value::Int(value),
    )
}

/// The counters of the session.
proof fn lemma_counters(e: ExpositionView, lines: Seq<Line>, stats: MdStats) -> (r: Seq<Line>)
    requires
        exposition_laws::laid_out(e, lines),
        upto(lines, 4),
    ensures
        exposition_laws::laid_out(e.counters(stats), r),
        upto(r, 10),
        keeps(lines, r),
        typed(r, "bowst_md_messages_total"@, MetricType::Counter),
        typed(r, "bowst_md_deltas_applied_total"@, MetricType::Counter),
        typed(r, "bowst_md_book_invalidations_total"@, MetricType::Counter),
        typed(r, "bowst_md_connections_total"@, MetricType::Counter),
        typed(r, "bowst_md_snapshots_requested_total"@, MetricType::Counter),
        typed(r, "bowst_md_snapshots_applied_total"@, MetricType::Counter),
        r.contains(
            sample("bowst_md_messages_total"@, seq![venue()], Value::Int(stats.messages)),
        ),
        r.contains(
            sample("bowst_md_deltas_applied_total"@, seq![venue()], Value::Int(stats.deltas_applied)),
        ),
        r.contains(
            sample("bowst_md_book_invalidations_total"@, seq![venue()], Value::Int(stats.book_invalidations)),
        ),
        r.contains(
            sample("bowst_md_connections_total"@, seq![venue()], Value::Int(stats.connections)),
        ),
        r.contains(
            sample("bowst_md_snapshots_requested_total"@, seq![venue()], Value::Int(stats.snapshots_requested)),
        ),
        r.contains(
            sample("bowst_md_snapshots_applied_total"@, seq![venue()], Value::Int(stats.snapshots_applied)),
        ),
{
    lemma_counter_places();
    metrics_laws::lemma_message_names();
    metrics_laws::lemma_counter_names();
    let lines1 = lemma_next_counter(
        e,
        lines,
        "bowst_md_messages_total"@,
        "Market-data messages received."@,
        stats.messages,
    );
    let e1 = e.counter(
        "bowst_md_messages_total"@,
        "Market-data messages received."@,
        stats.messages,
    );
    let lines2 = lemma_next_counter(
        e1,
        lines1,
        "bowst_md_deltas_applied_total"@,
        "Depth updates applied to live books."@,
        stats.deltas_applied,
    );
    let e2 = e1.counter(
        "bowst_md_deltas_applied_total"@,
        "Depth updates applied to live books."@,
        stats.deltas_applied,
    );
    let lines3 = lemma_next_counter(
        e2,
        lines2,
        "bowst_md_book_invalidations_total"@,
        "Books taken down by a gap, invalid data, a crossed book or a verification mismatch."@,
        stats.book_invalidations,
    );
    let e3 = e2.counter(
        "bowst_md_book_invalidations_total"@,
        "Books taken down by a gap, invalid data, a crossed book or a verification mismatch."@,
        stats.book_invalidations,
    );
    let lines4 = lemma_next_counter(
        e3,
        lines3,
        "bowst_md_connections_total"@,
        "WebSocket connections opened."@,
        stats.connections,
    );
    let e4 = e3.counter(
        "bowst_md_connections_total"@,
        "WebSocket connections opened."@,
        stats.connections,
    );
    let lines5 = lemma_next_counter(
        e4,
        lines4,
        "bowst_md_snapshots_requested_total"@,
        "REST depth snapshots requested (resyncs and verifications)."@,
        stats.snapshots_requested,
    );
    let e5 = e4.counter(
        "bowst_md_snapshots_requested_total"@,
        "REST depth snapshots requested (resyncs and verifications)."@,
        stats.snapshots_requested,
    );
    lemma_next_counter(
        e5,
        lines5,
        "bowst_md_snapshots_applied_total"@,
        "Snapshots that brought a book live."@,
        stats.snapshots_applied,
    )
}

/// One result of verifications.
proof fn lemma_verified(
    e: ExpositionView,
    lines: Seq<Line>,
    result: Seq<char>,
    value: u64,
) -> (r: Seq<Line>)
    requires
        exposition_laws::laid_out(e, lines),
        exposition_laws::admits(lines, "bowst_md_verifications_total"@),
        upto(lines, 11),
    ensures
        exposition_laws::laid_out(e.verified(result, value), r),
        exposition_laws::admits(r, "bowst_md_verifications_total"@),
        upto(r, 11),
        keeps(lines, r),
        r.contains(
            sample(
                "bowst_md_verifications_total"@,
                seq![venue(), ("result"@, result)],
                Value::Int(value),
            ),
        ),
{
    metrics_laws::lemma_verification_names();
    metrics_laws::lemma_label_names();
    exposition_laws::lemma_add_sample(
        e,
        lines,
        "bowst_md_verifications_total"@,
        seq![("venue"@, metrics::VENUE@), ("result"@, result)],
        Value::Int(value),
    )
}

/// The results of verifications.
proof fn lemma_verifications(e: ExpositionView, lines: Seq<Line>, stats: MdStats) -> (r: Seq<Line>)
    requires
        exposition_laws::laid_out(e, lines),
        upto(lines, 10),
    ensures
        exposition_laws::laid_out(e.verifications(stats), r),
        upto(r, 11),
        keeps(lines, r),
        typed(r, "bowst_md_verifications_total"@, MetricType::Counter),
        r.contains(
            sample(
                "bowst_md_verifications_total"@,
                seq![venue(), ("result"@, "passed"@)],
                Value::Int(stats.verifications_passed),
            ),
        ),
        r.contains(
            sample(
                "bowst_md_verifications_total"@,
                seq![venue(), ("result"@, "mismatch"@)],
                Value::Int(stats.verification_mismatches),
            ),
        ),
        r.contains(
            sample(
                "bowst_md_verifications_total"@,
                seq![venue(), ("result"@, "abandoned"@)],
                Value::Int(stats.verifications_abandoned),
            ),
        ),
{
    lemma_last_places();
    metrics_laws::lemma_verification_names();
    let help = "Book verifications against fresh snapshots, by result."@;
    let family = lemma_next_family(
        e,
        lines,
        "bowst_md_verifications_total"@,
        MetricType::Counter,
        help,
    );
    let e1 = e.family("bowst_md_verifications_total"@, MetricType::Counter, help);
    let passed = lemma_verified(e1, family, "passed"@, stats.verifications_passed);
    let e2 = e1.verified("passed"@, stats.verifications_passed);
    let mismatch = lemma_verified(e2, passed, "mismatch"@, stats.verification_mismatches);
    let e3 = e2.verified("mismatch"@, stats.verification_mismatches);
    lemma_verified(e3, mismatch, "abandoned"@, stats.verifications_abandoned)
}

/// One quantile of a summary.
proof fn lemma_quantile(
    e: ExpositionView,
    lines: Seq<Line>,
    name: Seq<char>,
    labels: Seq<Label>,
    quantile: Seq<char>,
    nanos: u64,
) -> (r: Seq<Line>)
    requires
        exposition_laws::laid_out(e, lines),
        exposition::is_valid_sample(name, labels),
        exposition_laws::admits(lines, name),
    ensures
        exposition_laws::laid_out(e.quantile(name, labels, quantile, nanos), r),
        forall|family: Seq<char>| #[trigger]
            exposition_laws::declared(r, family) ==> exposition_laws::declared(lines, family),
        forall|sample: Seq<char>|
            exposition_laws::admits(lines, sample) ==> #[trigger] exposition_laws::admits(
                r,
                sample,
            ),
        keeps(lines, r),
        r.contains(
            sample(name, labels.push(("quantile"@, quantile)), Value::Nanos(nanos)),
        ),
{
    metrics_laws::lemma_label_names();
    let all = labels.push(("quantile"@, quantile));
    assert forall|i: int| 0 <= i < all.len() implies exposition::is_label_name(
        (#[trigger] all[i]).0,
    ) by {
        if i < labels.len() {
            assert(all[i] == labels[i]);
        }
    }
    exposition_laws::lemma_add_sample(e, lines, name, all, Value::Nanos(nanos))
}

/// The samples of a summary.
proof fn lemma_summary(
    e: ExpositionView,
    lines: Seq<Line>,
    name: Seq<char>,
    labels: Seq<Label>,
    window: LatencySummary,
    total: LatencySummary,
) -> (r: Seq<Line>)
    requires
        exposition_laws::laid_out(e, lines),
        exposition::is_valid_sample(name, labels),
        exposition_laws::admits(lines, name),
        exposition_laws::admits(lines, name + "_sum"@),
        exposition_laws::admits(lines, name + "_count"@),
    ensures
        exposition_laws::laid_out(e.summary(name, labels, window, total), r),
        forall|family: Seq<char>| #[trigger]
            exposition_laws::declared(r, family) ==> exposition_laws::declared(lines, family),
        keeps(lines, r),
        r.contains(
            sample(name, labels.push(("quantile"@, "0.5"@)), Value::Nanos(window.p50)),
        ),
        r.contains(
            sample(name, labels.push(("quantile"@, "0.9"@)), Value::Nanos(window.p90)),
        ),
        r.contains(
            sample(name, labels.push(("quantile"@, "0.99"@)), Value::Nanos(window.p99)),
        ),
        r.contains(
            sample(name, labels.push(("quantile"@, "0.999"@)), Value::Nanos(window.p999)),
        ),
        r.contains(sample(name + "_sum"@, labels, Value::Nanos(total.sum))),
        r.contains(sample(name + "_count"@, labels, Value::Int(total.count))),
{
    metrics_laws::lemma_suffixed_names(name);
    let lines1 = lemma_quantile(e, lines, name, labels, "0.5"@, window.p50);
    let e1 = e.quantile(name, labels, "0.5"@, window.p50);
    let lines2 = lemma_quantile(e1, lines1, name, labels, "0.9"@, window.p90);
    let e2 = e1.quantile(name, labels, "0.9"@, window.p90);
    let lines3 = lemma_quantile(e2, lines2, name, labels, "0.99"@, window.p99);
    let e3 = e2.quantile(name, labels, "0.99"@, window.p99);
    let lines4 = lemma_quantile(e3, lines3, name, labels, "0.999"@, window.p999);
    let e4 = e3.quantile(name, labels, "0.999"@, window.p999);
    let lines5 = exposition_laws::lemma_add_sample(
        e4,
        lines4,
        name + "_sum"@,
        labels,
        Value::Nanos(total.sum),
    );
    let e5 = e4.sample(name + "_sum"@, labels, Value::Nanos(total.sum));
    exposition_laws::lemma_add_sample(
        e5,
        lines5,
        name + "_count"@,
        labels,
        Value::Int(total.count),
    )
}

/// Whether the latency of the session is reported: the quantiles of the last interval, the sum
/// and the count of the whole run.
pub open spec fn reports_latency(lines: Seq<Line>, report: MdReport) -> bool {
    let name = "bowst_md_apply_latency_seconds"@;
    let interval = report.latency;
    let run = report.latency_total;
    &&& typed(lines, name, MetricType::Summary)
    &&& lines.contains(
        sample(name, seq![venue(), ("quantile"@, "0.5"@)], Value::Nanos(interval.p50)),
    )
    &&& lines.contains(
        sample(name, seq![venue(), ("quantile"@, "0.9"@)], Value::Nanos(interval.p90)),
    )
    &&& lines.contains(
        sample(name, seq![venue(), ("quantile"@, "0.99"@)], Value::Nanos(interval.p99)),
    )
    &&& lines.contains(
        sample(name, seq![venue(), ("quantile"@, "0.999"@)], Value::Nanos(interval.p999)),
    )
    &&& lines.contains(sample(name + "_sum"@, seq![venue()], Value::Nanos(run.sum)))
    &&& lines.contains(sample(name + "_count"@, seq![venue()], Value::Int(run.count)))
}

/// Whether the counters of the session are reported, each under the name of what it counts.
pub open spec fn reports_counters(lines: Seq<Line>, stats: MdStats) -> bool {
    &&& typed(lines, "bowst_md_messages_total"@, MetricType::Counter)
    &&& typed(lines, "bowst_md_deltas_applied_total"@, MetricType::Counter)
    &&& typed(lines, "bowst_md_book_invalidations_total"@, MetricType::Counter)
    &&& typed(lines, "bowst_md_connections_total"@, MetricType::Counter)
    &&& typed(lines, "bowst_md_snapshots_requested_total"@, MetricType::Counter)
    &&& typed(lines, "bowst_md_snapshots_applied_total"@, MetricType::Counter)
    &&& typed(lines, "bowst_md_verifications_total"@, MetricType::Counter)
    &&& lines.contains(
        sample("bowst_md_messages_total"@, seq![venue()], Value::Int(stats.messages)),
    )
    &&& lines.contains(
        sample("bowst_md_deltas_applied_total"@, seq![venue()], Value::Int(stats.deltas_applied)),
    )
    &&& lines.contains(
        sample("bowst_md_book_invalidations_total"@, seq![venue()], Value::Int(stats.book_invalidations)),
    )
    &&& lines.contains(
        sample("bowst_md_connections_total"@, seq![venue()], Value::Int(stats.connections)),
    )
    &&& lines.contains(
        sample("bowst_md_snapshots_requested_total"@, seq![venue()], Value::Int(stats.snapshots_requested)),
    )
    &&& lines.contains(
        sample("bowst_md_snapshots_applied_total"@, seq![venue()], Value::Int(stats.snapshots_applied)),
    )
    &&& lines.contains(
        sample(
            "bowst_md_verifications_total"@,
            seq![venue(), ("result"@, "passed"@)],
            Value::Int(stats.verifications_passed),
        ),
    )
    &&& lines.contains(
        sample(
            "bowst_md_verifications_total"@,
            seq![venue(), ("result"@, "mismatch"@)],
            Value::Int(stats.verification_mismatches),
        ),
    )
    &&& lines.contains(
        sample(
            "bowst_md_verifications_total"@,
            seq![venue(), ("result"@, "abandoned"@)],
            Value::Int(stats.verifications_abandoned),
        ),
    )
}

/// The latency of the session.
proof fn lemma_latency(
    e: ExpositionView,
    lines: Seq<Line>,
    report: Option<(MdReport, WallTime)>,
) -> (r: Seq<Line>)
    requires
        exposition_laws::laid_out(e, lines),
        upto(lines, 11),
    ensures
        exposition_laws::laid_out(e.latency(report), r),
        upto(r, 12),
        keeps(lines, r),
        report matches Some((report, _)) ==> reports_latency(r, report),
{
    lemma_last_places();
    metrics_laws::lemma_latency_names();
    metrics_laws::lemma_label_names();
    match report {
        Some((report, _)) => {
            let name = "bowst_md_apply_latency_seconds"@;
            let help = "Time to decode one message and apply it to its book. Quantiles cover the last report interval; sum and count cover the whole run."@;
            let family = lemma_next_family(e, lines, name, MetricType::Summary, help);
            let r = lemma_summary(
                e.family(name, MetricType::Summary, help),
                family,
                name,
                metrics::venue_label(),
                report.latency,
                report.latency_total,
            );
            assert forall|quantile: Seq<char>| metrics::venue_label().push(
                ("quantile"@, quantile),
            ) == #[trigger] seq![venue(), ("quantile"@, quantile)] by {
                assert(metrics::venue_label().push(("quantile"@, quantile)) =~= seq![
                    venue(),
                    ("quantile"@, quantile),
                ]);
            }
            r
        },
        None => lines,
    }
}

/// The metrics of the session.
proof fn lemma_session(e: ExpositionView, lines: Seq<Line>, state: MetricsState) -> (r: Seq<Line>)
    requires
        exposition_laws::laid_out(e, lines),
        upto(lines, 4),
    ensures
        exposition_laws::laid_out(e.session(state), r),
        upto(r, 13),
        keeps(lines, r),
        typed(r, "bowst_md_last_report_timestamp_seconds"@, MetricType::Gauge),
        state.report matches Some((report, _)) ==> reports_counters(r, report.stats)
            && reports_latency(r, report),
        state.report is None ==> reports_counters(r, MdStats::none()),
        r.contains(
            sample(
                "bowst_md_last_report_timestamp_seconds"@,
                seq![venue()],
                Value::Nanos(
                    match state.report {
                        Some((_, at)) => at.0,
                        None => 0,
                    },
                ),
            ),
        ),
{
    let (stats, at) = match state.report {
        Some((report, at)) => (report.stats, at.0),
        None => (MdStats::none(), 0u64),
    };
    lemma_last_places();
    metrics_laws::lemma_latency_names();
    metrics_laws::lemma_label_names();
    let counters = lemma_counters(e, lines, stats);
    let verifications = lemma_verifications(e.counters(stats), counters, stats);
    let latency = lemma_latency(
        e.counters(stats).verifications(stats),
        verifications,
        state.report,
    );
    lemma_next_metric(
        e.counters(stats).verifications(stats).latency(state.report),
        latency,
        "bowst_md_last_report_timestamp_seconds"@,
        MetricType::Gauge,
        "Unix time of the latest session report (every 10 s); stops advancing if the market-data thread stalls."@,
        metrics::venue_label(),
        Value::Nanos(at),
    )
}

/// One state of the journal.
proof fn lemma_journal_state(
    e: ExpositionView,
    lines: Seq<Line>,
    name: Seq<char>,
    current: bool,
) -> (r: Seq<Line>)
    requires
        exposition_laws::laid_out(e, lines),
        exposition_laws::admits(lines, "bowst_journal_state"@),
        upto(lines, 14),
    ensures
        exposition_laws::laid_out(e.journal_state(name, current), r),
        exposition_laws::admits(r, "bowst_journal_state"@),
        upto(r, 14),
        keeps(lines, r),
        r.contains(sample("bowst_journal_state"@, seq![("state"@, name)], bit(current))),
{
    metrics_laws::lemma_journal_names();
    metrics_laws::lemma_label_names();
    exposition_laws::lemma_add_sample(
        e,
        lines,
        "bowst_journal_state"@,
        seq![("state"@, name)],
        metrics::flag(current),
    )
}

/// Whether the journal is reported: its state among the three, and what it dropped.
pub open spec fn reports_journal(lines: Seq<Line>, health: JournalHealth, dropped: u64) -> bool {
    let name = "bowst_journal_state"@;
    &&& typed(lines, name, MetricType::Gauge)
    &&& typed(lines, "bowst_journal_dropped_records_total"@, MetricType::Counter)
    &&& lines.contains(sample(name, seq![("state"@, "ok"@)], bit(health is Healthy)))
    &&& lines.contains(sample(name, seq![("state"@, "degraded"@)], bit(health is Degraded)))
    &&& lines.contains(sample(name, seq![("state"@, "failed"@)], bit(health is Failed)))
    &&& lines.contains(
        sample("bowst_journal_dropped_records_total"@, Seq::empty(), Value::Int(dropped)),
    )
}

/// The metrics of the journal.
proof fn lemma_journal(e: ExpositionView, lines: Seq<Line>, state: MetricsState) -> (r: Seq<Line>)
    requires
        exposition_laws::laid_out(e, lines),
        upto(lines, 13),
    ensures
        exposition_laws::laid_out(e.journal(state), r),
        keeps(lines, r),
        state.journal matches Some(health) ==> reports_journal(
            r,
            health,
            state.journal_dropped,
        ),
{
    lemma_last_places();
    metrics_laws::lemma_journal_names();
    match state.journal {
        Some(health) => {
            let help = "1 for the journal's current state: ok, degraded (records dropped) or failed (not persisting)."@;
            let family = lemma_next_family(
                e,
                lines,
                "bowst_journal_state"@,
                MetricType::Gauge,
                help,
            );
            let e1 = e.family("bowst_journal_state"@, MetricType::Gauge, help);
            let healthy = lemma_journal_state(e1, family, "ok"@, health is Healthy);
            let e2 = e1.journal_state("ok"@, health is Healthy);
            let degraded = lemma_journal_state(e2, healthy, "degraded"@, health is Degraded);
            let e3 = e2.journal_state("degraded"@, health is Degraded);
            let failed = lemma_journal_state(e3, degraded, "failed"@, health is Failed);
            lemma_next_metric(
                e3.journal_state("failed"@, health is Failed),
                failed,
                "bowst_journal_dropped_records_total"@,
                MetricType::Counter,
                "Records the journal could not accept."@,
                Seq::empty(),
                Value::Int(state.journal_dropped),
            )
        },
        None => lines,
    }
}

/// Whether text is these lines, one after the other, each where it may stand.
pub open spec fn is_lines(chars: Seq<char>, lines: Seq<Line>) -> bool {
    &&& exposition_laws::well_formed(lines)
    &&& chars == exposition_laws::lines_text(lines)
    &&& text::pieces(chars, '\n') == lines.map_values(
        |line: Line| exposition_laws::line_text(line),
    ).push(Seq::empty())
}

/// Whether these lines report everything: the build, the start, the connection, each book, the
/// session's counters and latency, when it last reported, and the journal.
pub open spec fn reports_all(
    lines: Seq<Line>,
    state: MetricsState,
    instruments: Seq<Instrument>,
    live: Seq<bool>,
    version: Seq<char>,
) -> bool {
    &&& typed(lines, "bowst_build_info"@, MetricType::Gauge)
    &&& typed(lines, "bowst_start_time_seconds"@, MetricType::Gauge)
    &&& typed(lines, "bowst_md_connected"@, MetricType::Gauge)
    &&& typed(lines, "bowst_md_instrument_live"@, MetricType::Gauge)
    &&& typed(lines, "bowst_md_last_report_timestamp_seconds"@, MetricType::Gauge)
    &&& lines.contains(sample("bowst_build_info"@, seq![("version"@, version)], Value::Int(1)))
    &&& lines.contains(
        sample("bowst_start_time_seconds"@, Seq::empty(), Value::Nanos(state.started.0)),
    )
    &&& lines.contains(sample("bowst_md_connected"@, seq![venue()], bit(state.connected)))
    &&& forall|i: int|
        0 <= i < instruments.len() ==> lines.contains(
            live_line(#[trigger] instruments[i], live[i]),
        )
    &&& lines.contains(
        sample(
            "bowst_md_last_report_timestamp_seconds"@,
            seq![venue()],
            Value::Nanos(
                match state.report {
                    Some((_, at)) => at.0,
                    None => 0,
                },
            ),
        ),
    )
    &&& match state.report {
        Some((report, _)) => reports_counters(lines, report.stats) && reports_latency(
            lines,
            report,
        ),
        None => reports_counters(lines, MdStats::none()),
    }
    &&& state.journal matches Some(health) ==> reports_journal(lines, health, state.journal_dropped)
}

/// The rendered text reports every figure under its own name, each on a line of its own: every
/// line is valid and stands where it may, and among the lines are all of these.
pub proof fn law_every_figure_is_reported(
    state: MetricsState,
    instruments: Seq<Instrument>,
    live: Seq<bool>,
    version: Seq<char>,
)
    ensures
        exists|lines: Seq<Line>| #[trigger]
            is_lines(ExpositionView::all(state, instruments, live, version).text, lines)
                && reports_all(lines, state, instruments, live, version),
{
    let none = Seq::<Line>::empty();
    let e = ExpositionView::empty();
    let process = lemma_process(e, none, state, version);
    let e1 = e.process(state, version);
    let connection = lemma_connection(e1, process, state, instruments, live);
    let e2 = e1.connection(state, instruments, live);
    let session = lemma_session(e2, connection, state);
    let lines = lemma_journal(e2.session(state), session, state);
    exposition_laws::law_text_is_its_lines(lines);
    assert(is_lines(ExpositionView::all(state, instruments, live, version).text, lines));
    assert(keeps(process, lines) && keeps(connection, lines) && keeps(session, lines));
}

/// Before its first report a session has counted nothing, and has no latency to show.
pub proof fn law_nothing_is_counted_before_the_first_report()
    ensures
        MdStats::none() == (MdStats {
            messages: 0,
            deltas_applied: 0,
            book_invalidations: 0,
            connections: 0,
            snapshots_requested: 0,
            snapshots_applied: 0,
            verifications_passed: 0,
            verification_mismatches: 0,
            verifications_abandoned: 0,
        }),
{
}

/// Every line of the rendered text is valid: help, a type or a sample with a numeric value, all
/// with valid names. Each family is declared once, right after its help, and no sample stands
/// before its family.
pub proof fn law_every_line_is_valid(
    state: MetricsState,
    instruments: Seq<Instrument>,
    live: Seq<bool>,
    version: Seq<char>,
)
    ensures
        exists|lines: Seq<Line>| #[trigger]
            is_lines(ExpositionView::all(state, instruments, live, version).text, lines),
{
    law_every_figure_is_reported(state, instruments, live, version);
}

} // verus!

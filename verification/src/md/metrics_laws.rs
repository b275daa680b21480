//! What the tool's metrics promise as a whole.

use crate::instrument::Instrument;
use crate::md::metrics::{self, MetricsState};
use crate::md::session::{MdReport, MdStats};
use crate::telemetry::exposition::{self, ExpositionView, Label, MetricType};
use crate::telemetry::histogram::LatencySummary;
use crate::time::WallTime;
use vstd::prelude::*;

verus! {

/// Whether a name may go on as it does from `from` on.
spec fn goes_on(name: Seq<char>, from: nat) -> bool
    decreases name.len() - from,
{
    from >= name.len() || (exposition::may_go_on(name[from as int], false) && goes_on(
        name,
        from + 1,
    ))
}

/// Checking a name one character after the other covers all of them.
proof fn lemma_goes_on(name: Seq<char>, from: nat)
    requires
        goes_on(name, from),
    ensures
        forall|i: int| from <= i < name.len() ==> exposition::may_go_on(#[trigger] name[i], false),
    decreases name.len() - from,
{
    if from < name.len() {
        lemma_goes_on(name, from + 1);
    }
}

/// A name that starts with a letter and goes on as names do is one of a metric and of a label.
proof fn lemma_name(name: Seq<char>)
    requires
        name.len() > 0,
        exposition::is_letter(name[0]),
        goes_on(name, 1),
    ensures
        exposition::is_metric_name(name),
        exposition::is_label_name(name),
{
    lemma_goes_on(name, 1);
}

/// The names of the process's metrics.
pub(crate) proof fn lemma_process_names()
    ensures
        exposition::is_metric_name("bowst_build_info"@),
        exposition::is_metric_name("bowst_start_time_seconds"@),
{
    reveal_with_fuel(goes_on, 26);
    reveal_strlit("bowst_build_info");
    lemma_name("bowst_build_info"@);
    reveal_strlit("bowst_start_time_seconds");
    lemma_name("bowst_start_time_seconds"@);
}

/// The names of the connection's metrics.
pub(crate) proof fn lemma_connection_names()
    ensures
        exposition::is_metric_name("bowst_md_connected"@),
        exposition::is_metric_name("bowst_md_instrument_live"@),
{
    reveal_with_fuel(goes_on, 26);
    reveal_strlit("bowst_md_connected");
    lemma_name("bowst_md_connected"@);
    reveal_strlit("bowst_md_instrument_live");
    lemma_name("bowst_md_instrument_live"@);
}

/// The names of the first counters.
pub(crate) proof fn lemma_message_names()
    ensures
        exposition::is_metric_name("bowst_md_messages_total"@),
        exposition::is_metric_name("bowst_md_deltas_applied_total"@),
        exposition::is_metric_name("bowst_md_book_invalidations_total"@),
{
    reveal_with_fuel(goes_on, 35);
    reveal_strlit("bowst_md_messages_total");
    lemma_name("bowst_md_messages_total"@);
    reveal_strlit("bowst_md_deltas_applied_total");
    lemma_name("bowst_md_deltas_applied_total"@);
    reveal_strlit("bowst_md_book_invalidations_total");
    lemma_name("bowst_md_book_invalidations_total"@);
}

/// The names of the other counters.
pub(crate) proof fn lemma_counter_names()
    ensures
        exposition::is_metric_name("bowst_md_connections_total"@),
        exposition::is_metric_name("bowst_md_snapshots_requested_total"@),
        exposition::is_metric_name("bowst_md_snapshots_applied_total"@),
{
    reveal_with_fuel(goes_on, 36);
    reveal_strlit("bowst_md_connections_total");
    lemma_name("bowst_md_connections_total"@);
    reveal_strlit("bowst_md_snapshots_requested_total");
    lemma_name("bowst_md_snapshots_requested_total"@);
    reveal_strlit("bowst_md_snapshots_applied_total");
    lemma_name("bowst_md_snapshots_applied_total"@);
}

/// The name of the verification results.
pub(crate) proof fn lemma_verification_names()
    ensures
        exposition::is_metric_name("bowst_md_verifications_total"@),
{
    reveal_with_fuel(goes_on, 30);
    reveal_strlit("bowst_md_verifications_total");
    lemma_name("bowst_md_verifications_total"@);
}

/// The names of what a report gives.
pub(crate) proof fn lemma_latency_names()
    ensures
        exposition::is_metric_name("bowst_md_apply_latency_seconds"@),
        exposition::is_metric_name("bowst_md_last_report_timestamp_seconds"@),
{
    reveal_with_fuel(goes_on, 40);
    reveal_strlit("bowst_md_apply_latency_seconds");
    lemma_name("bowst_md_apply_latency_seconds"@);
    reveal_strlit("bowst_md_last_report_timestamp_seconds");
    lemma_name("bowst_md_last_report_timestamp_seconds"@);
}

/// The names of the journal's metrics.
pub(crate) proof fn lemma_journal_names()
    ensures
        exposition::is_metric_name("bowst_journal_state"@),
        exposition::is_metric_name("bowst_journal_dropped_records_total"@),
{
    reveal_with_fuel(goes_on, 37);
    reveal_strlit("bowst_journal_state");
    lemma_name("bowst_journal_state"@);
    reveal_strlit("bowst_journal_dropped_records_total");
    lemma_name("bowst_journal_dropped_records_total"@);
}

/// The names of labels.
pub(crate) proof fn lemma_label_names()
    ensures
        exposition::is_label_name("version"@),
        exposition::is_label_name("venue"@),
        exposition::is_label_name("symbol"@),
        exposition::is_label_name("result"@),
        exposition::is_label_name("quantile"@),
        exposition::is_label_name("state"@),
{
    reveal_with_fuel(goes_on, 10);
    reveal_strlit("version");
    lemma_name("version"@);
    reveal_strlit("venue");
    lemma_name("venue"@);
    reveal_strlit("symbol");
    lemma_name("symbol"@);
    reveal_strlit("result");
    lemma_name("result"@);
    reveal_strlit("quantile");
    lemma_name("quantile"@);
    reveal_strlit("state");
    lemma_name("state"@);
}

/// A metric's name can go on with what marks a sum or a count.
pub(crate) proof fn lemma_suffixed_names(name: Seq<char>)
    requires
        exposition::is_metric_name(name),
    ensures
        exposition::is_metric_name(name + "_sum"@),
        exposition::is_metric_name(name + "_count"@),
{
    reveal_strlit("_sum");
    reveal_strlit("_count");
    assert forall|i: int| 1 <= i < (name + "_sum"@).len() implies exposition::may_go_on(
        #[trigger] (name + "_sum"@)[i],
        true,
    ) by {
        if i >= name.len() {
            assert((name + "_sum"@)[i] == "_sum"@[i - name.len()]);
        }
    }
    assert forall|i: int| 1 <= i < (name + "_count"@).len() implies exposition::may_go_on(
        #[trigger] (name + "_count"@)[i],
        true,
    ) by {
        if i >= name.len() {
            assert((name + "_count"@)[i] == "_count"@[i - name.len()]);
        }
    }
}

/// A summary with a valid name and valid labels is written whole.
proof fn lemma_summary(
    e: ExpositionView,
    name: Seq<char>,
    labels: Seq<Label>,
    window: LatencySummary,
    total: LatencySummary,
)
    requires
        exposition::is_valid_sample(name, labels),
    ensures
        e.summary(name, labels, window, total).rejected == e.rejected,
{
    lemma_label_names();
    lemma_suffixed_names(name);
    assert forall|quantile: Seq<char>| exposition::is_valid_sample(
        name,
        #[trigger] labels.push(("quantile"@, quantile)),
    ) by {
        let all = labels.push(("quantile"@, quantile));
        assert forall|i: int| 0 <= i < all.len() implies exposition::is_label_name(
            (#[trigger] all[i]).0,
        ) by {
            if i < labels.len() {
                assert(all[i] == labels[i]);
            }
        }
    }
}

/// The status of every book is written.
proof fn lemma_instruments(
    e: ExpositionView,
    instruments: Seq<Instrument>,
    live: Seq<bool>,
    n: nat,
)
    ensures
        e.instruments(instruments, live, n).rejected == e.rejected,
    decreases n,
{
    lemma_connection_names();
    lemma_label_names();
    if n > 0 {
        lemma_instruments(e, instruments, live, (n - 1) as nat);
    }
}

/// The counters are all written.
proof fn lemma_counters(e: ExpositionView, stats: MdStats)
    ensures
        e.counters(stats).rejected == e.rejected,
{
    lemma_message_names();
    lemma_counter_names();
    lemma_label_names();
}

/// The metrics of the process are written.
proof fn lemma_process(e: ExpositionView, state: MetricsState, version: Seq<char>)
    ensures
        e.process(state, version).rejected == e.rejected,
{
    lemma_process_names();
    lemma_label_names();
}

/// The metrics of the connection are written.
proof fn lemma_connection(
    e: ExpositionView,
    state: MetricsState,
    instruments: Seq<Instrument>,
    live: Seq<bool>,
)
    ensures
        e.connection(state, instruments, live).rejected == e.rejected,
{
    lemma_connection_names();
    lemma_label_names();
    let header = e.metric(
        "bowst_md_connected"@,
        MetricType::Gauge,
        "1 while the market-data WebSocket is connected."@,
        metrics::venue_label(),
        metrics::flag(state.connected),
    ).family(
        "bowst_md_instrument_live"@,
        MetricType::Gauge,
        "1 while the instrument's book is live and may be used; 0 while it is down."@,
    );
    lemma_instruments(header, instruments, live, instruments.len());
}

/// The results of verifications are written.
proof fn lemma_verifications(e: ExpositionView, stats: MdStats)
    ensures
        e.verifications(stats).rejected == e.rejected,
{
    lemma_verification_names();
    lemma_label_names();
}

/// The latency is written.
proof fn lemma_latency(e: ExpositionView, report: Option<(MdReport, WallTime)>)
    ensures
        e.latency(report).rejected == e.rejected,
{
    lemma_latency_names();
    lemma_label_names();
    if let Some((report, _)) = report {
        let family = e.family(
            "bowst_md_apply_latency_seconds"@,
            MetricType::Summary,
            "Time to decode one message and apply it to its book. Quantiles cover the last report interval; sum and count cover the whole run."@,
        );
        lemma_summary(
            family,
            "bowst_md_apply_latency_seconds"@,
            metrics::venue_label(),
            report.latency,
            report.latency_total,
        );
    }
}

/// The metrics of the session are written.
proof fn lemma_session(e: ExpositionView, state: MetricsState)
    ensures
        e.session(state).rejected == e.rejected,
{
    let stats = match state.report {
        Some((report, _)) => report.stats,
        None => MdStats::none(),
    };
    lemma_counters(e, stats);
    lemma_verifications(e.counters(stats), stats);
    lemma_latency(e.counters(stats).verifications(stats), state.report);
    lemma_latency_names();
    lemma_label_names();
}

/// The metrics of the journal are written.
proof fn lemma_journal(e: ExpositionView, state: MetricsState)
    ensures
        e.journal(state).rejected == e.rejected,
{
    lemma_journal_names();
    lemma_label_names();
}

/// No metric is ever left out: every name is valid, whatever the state, the instruments and the
/// build.
pub proof fn law_no_metric_is_left_out(
    state: MetricsState,
    instruments: Seq<Instrument>,
    live: Seq<bool>,
    version: Seq<char>,
)
    ensures
        ExpositionView::all(state, instruments, live, version).rejected == 0,
{
    let process = ExpositionView::empty().process(state, version);
    let connection = process.connection(state, instruments, live);
    lemma_process(ExpositionView::empty(), state, version);
    lemma_connection(process, state, instruments, live);
    lemma_session(connection, state);
    lemma_journal(connection.session(state), state);
}

} // verus!

//! Prometheus metrics for the market-data tool: what the session and the journal are doing,
//! rendered on each scrape from state the tool already keeps.

use crate::instrument::{Instrument, InstrumentTable};
use crate::journal::health::JournalHealth;
use crate::md::session::{MdReport, MdStats};
use crate::telemetry::exposition::{self, Exposition, ExpositionView, Label, MetricType, Value};
use crate::text;
use crate::time::WallTime;
use vstd::prelude::*;

verus! {

/// Label value identifying the venue on every market-data metric.
pub const VENUE: &'static str = "binance";

/// Session state the metrics are rendered from, updated by the market-data handler and the
/// watch loop.
#[derive(Clone, Copy, Debug)]
pub struct MetricsState {
    /// When the process started.
    pub started: WallTime,
    /// Whether the WebSocket is connected.
    pub connected: bool,
    /// The latest periodic report and when it arrived.
    pub report: Option<(MdReport, WallTime)>,
    /// Journal health, when journaling.
    pub journal: Option<JournalHealth>,
    /// Records the journal dropped, as last reported.
    pub journal_dropped: u64,
}

impl MetricsState {
    /// Nothing has happened yet.
    pub open spec fn initial() -> MetricsState {
        MetricsState {
            started: WallTime(0),
            connected: false,
            report: None,
            journal: None,
            journal_dropped: 0,
        }
    }
}

impl Default for MetricsState {
    fn default() -> (r: Self)
        ensures
            r == MetricsState::initial(),
    {
        MetricsState {
            started: WallTime::default(),
            connected: false,
            report: None,
            journal: None,
            journal_dropped: 0,
        }
    }
}

/// 1 for true, 0 for false.
pub open spec fn flag(b: bool) -> Value {
    Value::Int(
        if b {
            1
        } else {
            0
        },
    )
}

/// The label that identifies the venue.
pub open spec fn venue_label() -> Seq<Label> {
    seq![("venue"@, VENUE@)]
}

impl ExpositionView {
    /// With a family of one sample.
    pub open spec fn metric(
        self,
        name: Seq<char>,
        kind: MetricType,
        help: Seq<char>,
        labels: Seq<Label>,
        value: Value,
    ) -> ExpositionView {
        self.family(name, kind, help).sample(name, labels, value)
    }

    /// With the metrics of the process.
    pub open spec fn process(self, state: MetricsState, version: Seq<char>) -> ExpositionView {
        self.metric(
            "bowst_build_info"@,
            MetricType::Gauge,
            "Always 1; labels identify the build."@,
            seq![("version"@, version)],
            Value::Int(1),
        ).metric(
            "bowst_start_time_seconds"@,
            MetricType::Gauge,
            "Unix time the process started."@,
            Seq::empty(),
            Value::Nanos(state.started.0),
        )
    }

    /// With the status of the first `n` instruments' books.
    pub open spec fn instruments(
        self,
        instruments: Seq<Instrument>,
        live: Seq<bool>,
        n: nat,
    ) -> ExpositionView
        decreases n,
    {
        if n == 0 {
            self
        } else {
            self.instruments(instruments, live, (n - 1) as nat).sample(
                "bowst_md_instrument_live"@,
                seq![
                    ("venue"@, VENUE@),
                    ("symbol"@, text::chars_of(instruments[n - 1].symbol@)),
                ],
                flag(live[n - 1]),
            )
        }
    }

    /// With the metrics of the connection and of each book.
    pub open spec fn connection(
        self,
        state: MetricsState,
        instruments: Seq<Instrument>,
        live: Seq<bool>,
    ) -> ExpositionView {
        self.metric(
            "bowst_md_connected"@,
            MetricType::Gauge,
            "1 while the market-data WebSocket is connected."@,
            venue_label(),
            flag(state.connected),
        ).family(
            "bowst_md_instrument_live"@,
            MetricType::Gauge,
            "1 while the instrument's book is live and may be used; 0 while it is down."@,
        ).instruments(instruments, live, instruments.len())
    }

    /// With a counter of the session.
    pub open spec fn counter(self, name: Seq<char>, help: Seq<char>, value: u64) -> ExpositionView {
        self.metric(name, MetricType::Counter, help, venue_label(), Value::Int(value))
    }

    /// With the counters of the session.
    pub open spec fn counters(self, stats: MdStats) -> ExpositionView {
        self.counter(
            "bowst_md_messages_total"@,
            "Market-data messages received."@,
            stats.messages,
        ).counter(
            "bowst_md_deltas_applied_total"@,
            "Depth updates applied to live books."@,
            stats.deltas_applied,
        ).counter(
            "bowst_md_book_invalidations_total"@,
            "Books taken down by a gap, invalid data, a crossed book or a verification mismatch."@,
            stats.book_invalidations,
        ).counter(
            "bowst_md_connections_total"@,
            "WebSocket connections opened."@,
            stats.connections,
        ).counter(
            "bowst_md_snapshots_requested_total"@,
            "REST depth snapshots requested (resyncs and verifications)."@,
            stats.snapshots_requested,
        ).counter(
            "bowst_md_snapshots_applied_total"@,
            "Snapshots that brought a book live."@,
            stats.snapshots_applied,
        )
    }

    /// With one result of verifications.
    pub open spec fn verified(self, result: Seq<char>, value: u64) -> ExpositionView {
        self.sample(
            "bowst_md_verifications_total"@,
            seq![("venue"@, VENUE@), ("result"@, result)],
            Value::Int(value),
        )
    }

    /// With the results of verifications.
    pub open spec fn verifications(self, stats: MdStats) -> ExpositionView {
        self.family(
            "bowst_md_verifications_total"@,
            MetricType::Counter,
            "Book verifications against fresh snapshots, by result."@,
        ).verified("passed"@, stats.verifications_passed).verified(
            "mismatch"@,
            stats.verification_mismatches,
        ).verified("abandoned"@, stats.verifications_abandoned)
    }

    /// With the latency of the session, once it has reported.
    pub open spec fn latency(self, report: Option<(MdReport, WallTime)>) -> ExpositionView {
        match report {
            Some((report, _)) => self.family(
                "bowst_md_apply_latency_seconds"@,
                MetricType::Summary,
                "Time to decode one message and apply it to its book. Quantiles cover the last report interval; sum and count cover the whole run."@,
            ).summary(
                "bowst_md_apply_latency_seconds"@,
                venue_label(),
                report.latency,
                report.latency_total,
            ),
            None => self,
        }
    }

    /// With the metrics of the session. Before its first report the counters are zero.
    pub open spec fn session(self, state: MetricsState) -> ExpositionView {
        let (stats, at) = match state.report {
            Some((report, at)) => (report.stats, at.0),
            None => (MdStats::none(), 0u64),
        };
        self.counters(stats).verifications(stats).latency(state.report).metric(
            "bowst_md_last_report_timestamp_seconds"@,
            MetricType::Gauge,
            "Unix time of the latest session report (every 10 s); stops advancing if the market-data thread stalls."@,
            venue_label(),
            Value::Nanos(at),
        )
    }

    /// With whether the journal is in a state.
    pub open spec fn journal_state(self, name: Seq<char>, current: bool) -> ExpositionView {
        self.sample("bowst_journal_state"@, seq![("state"@, name)], flag(current))
    }

    /// With the metrics of the journal, when there is one.
    pub open spec fn journal(self, state: MetricsState) -> ExpositionView {
        match state.journal {
            Some(health) => self.family(
                "bowst_journal_state"@,
                MetricType::Gauge,
                "1 for the journal's current state: ok, degraded (records dropped) or failed (not persisting)."@,
            ).journal_state("ok"@, health is Healthy).journal_state(
                "degraded"@,
                health is Degraded,
            ).journal_state("failed"@, health is Failed).metric(
                "bowst_journal_dropped_records_total"@,
                MetricType::Counter,
                "Records the journal could not accept."@,
                Seq::empty(),
                Value::Int(state.journal_dropped),
            ),
            None => self,
        }
    }

    /// Every metric.
    pub open spec fn all(
        state: MetricsState,
        instruments: Seq<Instrument>,
        live: Seq<bool>,
        version: Seq<char>,
    ) -> ExpositionView {
        ExpositionView::empty().process(state, version).connection(
            state,
            instruments,
            live,
        ).session(state).journal(state)
    }
}

/// Writes a family of one sample.
fn metric(
    e: &mut Exposition,
    name: &str,
    kind: MetricType,
    help: &str,
    labels: &[(&str, &str)],
    value: Value,
)
    ensures
        final(e)@ == old(e)@.metric(name@, kind, help@, exposition::label_views(labels@), value),
{
    e.family(name, kind, help);
    e.sample(name, labels, value);
}

fn process(e: &mut Exposition, state: &MetricsState, version: &str)
    ensures
        final(e)@ == old(e)@.process(*state, version@),
{
    let build: [(&str, &str); 1] = [("version", version)];
    let none: [(&str, &str); 0] = [];
    assert(exposition::label_views(build@) =~= seq![("version"@, version@)]);
    assert(exposition::label_views(none@) =~= Seq::<Label>::empty());
    metric(
        e,
        "bowst_build_info",
        MetricType::Gauge,
        "Always 1; labels identify the build.",
        build.as_slice(),
        Value::Int(1),
    );
    metric(
        e,
        "bowst_start_time_seconds",
        MetricType::Gauge,
        "Unix time the process started.",
        none.as_slice(),
        Value::Nanos(state.started.as_nanos()),
    );
}

/// 1 for true, 0 for false.
fn flag_value(b: bool) -> (r: Value)
    ensures
        r == flag(b),
{
    Value::Int(
        if b {
            1
        } else {
            0
        },
    )
}

/// Whether `live` can give these answers for the instruments.
pub open spec fn answers<F: Fn(u32) -> bool>(
    live: F,
    instruments: Seq<Instrument>,
    given: Seq<bool>,
) -> bool {
    &&& given.len() == instruments.len()
    &&& forall|i: int|
        0 <= i < given.len() ==> call_ensures(live, (instruments[i].id.0,), #[trigger] given[i])
}

/// Asks for the status of every instrument's book.
fn ask_all<F: Fn(u32) -> bool>(instruments: &[Instrument], live: F) -> (r: Vec<bool>)
    requires
        forall|id: u32| call_requires(live, (id,)),
    ensures
        answers(live, instruments@, r@),
{
    let mut given: Vec<bool> = Vec::new();
    let mut i: usize = 0;
    while i < instruments.len()
        invariant
            i <= instruments.len(),
            given@.len() == i,
            forall|id: u32| call_requires(live, (id,)),
            forall|k: int|
                0 <= k < i ==> call_ensures(live, (instruments@[k].id.0,), #[trigger] given@[k]),
        decreases instruments.len() - i,
    {
        let status: bool = live(instruments[i].id.get());
        given.push(status);
        i = i + 1;
    }
    given
}

fn connection(e: &mut Exposition, state: &MetricsState, instruments: &[Instrument], live: &[bool])
    requires
        live@.len() == instruments@.len(),
    ensures
        final(e)@ == old(e)@.connection(*state, instruments@, live@),
{
    let venue: [(&str, &str); 1] = [("venue", VENUE)];
    assert(exposition::label_views(venue@) =~= venue_label());
    metric(
        e,
        "bowst_md_connected",
        MetricType::Gauge,
        "1 while the market-data WebSocket is connected.",
        venue.as_slice(),
        flag_value(state.connected),
    );
    e.family(
        "bowst_md_instrument_live",
        MetricType::Gauge,
        "1 while the instrument's book is live and may be used; 0 while it is down.",
    );
    let ghost before = e@;
    let mut i: usize = 0;
    while i < instruments.len()
        invariant
            i <= instruments.len(),
            live@.len() == instruments@.len(),
            e@ == before.instruments(instruments@, live@, i as nat),
        decreases instruments.len() - i,
    {
        let instrument: Instrument = instruments[i];
        let labels: [(&str, &str); 2] = [("venue", VENUE), ("symbol", instrument.symbol.as_str())];
        assert(exposition::label_views(labels@) =~= seq![
            ("venue"@, VENUE@),
            ("symbol"@, text::chars_of(instrument.symbol@)),
        ]);
        e.sample("bowst_md_instrument_live", labels.as_slice(), flag_value(live[i]));
        i = i + 1;
    }
}

/// Writes a counter of the session.
fn counter(e: &mut Exposition, name: &str, help: &str, value: u64)
    ensures
        final(e)@ == old(e)@.counter(name@, help@, value),
{
    let venue: [(&str, &str); 1] = [("venue", VENUE)];
    assert(exposition::label_views(venue@) =~= venue_label());
    metric(e, name, MetricType::Counter, help, venue.as_slice(), Value::Int(value));
}

fn counters(e: &mut Exposition, stats: &MdStats)
    ensures
        final(e)@ == old(e)@.counters(*stats),
{
    counter(e, "bowst_md_messages_total", "Market-data messages received.", stats.messages);
    counter(
        e,
        "bowst_md_deltas_applied_total",
        "Depth updates applied to live books.",
        stats.deltas_applied,
    );
    counter(
        e,
        "bowst_md_book_invalidations_total",
        "Books taken down by a gap, invalid data, a crossed book or a verification mismatch.",
        stats.book_invalidations,
    );
    counter(e, "bowst_md_connections_total", "WebSocket connections opened.", stats.connections);
    counter(
        e,
        "bowst_md_snapshots_requested_total",
        "REST depth snapshots requested (resyncs and verifications).",
        stats.snapshots_requested,
    );
    counter(
        e,
        "bowst_md_snapshots_applied_total",
        "Snapshots that brought a book live.",
        stats.snapshots_applied,
    );
}

/// Writes one result of verifications.
fn verified(e: &mut Exposition, result: &str, value: u64)
    ensures
        final(e)@ == old(e)@.verified(result@, value),
{
    let labels: [(&str, &str); 2] = [("venue", VENUE), ("result", result)];
    assert(exposition::label_views(labels@) =~= seq![("venue"@, VENUE@), ("result"@, result@)]);
    e.sample("bowst_md_verifications_total", labels.as_slice(), Value::Int(value));
}

fn session(e: &mut Exposition, state: &MetricsState)
    ensures
        final(e)@ == old(e)@.session(*state),
{
    let venue: [(&str, &str); 1] = [("venue", VENUE)];
    assert(exposition::label_views(venue@) =~= venue_label());
    let (stats, at): (MdStats, u64) = match state.report {
        Some((report, at)) => (report.stats, at.as_nanos()),
        None => (MdStats::default(), 0),
    };
    counters(e, &stats);
    e.family(
        "bowst_md_verifications_total",
        MetricType::Counter,
        "Book verifications against fresh snapshots, by result.",
    );
    verified(e, "passed", stats.verifications_passed);
    verified(e, "mismatch", stats.verification_mismatches);
    verified(e, "abandoned", stats.verifications_abandoned);
    if let Some((report, _)) = state.report {
        e.family(
            "bowst_md_apply_latency_seconds",
            MetricType::Summary,
            "Time to decode one message and apply it to its book. Quantiles cover the last report interval; sum and count cover the whole run.",
        );
        e.summary(
            "bowst_md_apply_latency_seconds",
            venue.as_slice(),
            &report.latency,
            &report.latency_total,
        );
    }
    metric(
        e,
        "bowst_md_last_report_timestamp_seconds",
        MetricType::Gauge,
        "Unix time of the latest session report (every 10 s); stops advancing if the market-data thread stalls.",
        venue.as_slice(),
        Value::Nanos(at),
    );
}

/// Writes whether the journal is in a state.
fn journal_state(e: &mut Exposition, name: &str, current: bool)
    ensures
        final(e)@ == old(e)@.journal_state(name@, current),
{
    let labels: [(&str, &str); 1] = [("state", name)];
    assert(exposition::label_views(labels@) =~= seq![("state"@, name@)]);
    e.sample("bowst_journal_state", labels.as_slice(), flag_value(current));
}

fn journal(e: &mut Exposition, state: &MetricsState)
    ensures
        final(e)@ == old(e)@.journal(*state),
{
    if let Some(health) = state.journal {
        let none: [(&str, &str); 0] = [];
        assert(exposition::label_views(none@) =~= Seq::<Label>::empty());
        e.family(
            "bowst_journal_state",
            MetricType::Gauge,
            "1 for the journal's current state: ok, degraded (records dropped) or failed (not persisting).",
        );
        journal_state(e, "ok", matches!(health, JournalHealth::Healthy));
        journal_state(e, "degraded", matches!(health, JournalHealth::Degraded { .. }));
        journal_state(e, "failed", matches!(health, JournalHealth::Failed));
        metric(
            e,
            "bowst_journal_dropped_records_total",
            MetricType::Counter,
            "Records the journal could not accept.",
            none.as_slice(),
            Value::Int(state.journal_dropped),
        );
    }
}

/// Renders every metric. `live` gives each instrument's book status by instrument ID, and
/// `version` identifies the build.
pub fn render<F: Fn(u32) -> bool>(
    state: &MetricsState,
    instruments: &InstrumentTable,
    live: F,
    version: &str,
) -> (r: String)
    requires
        forall|id: u32| call_requires(live, (id,)),
    ensures
        exists|given: Seq<bool>|
            #[trigger] answers(live, instruments@, given) && r@ == ExpositionView::all(
                *state,
                instruments@,
                given,
                version@,
            ).text,
{
    let all: Vec<Instrument> = instruments.iter();
    let given: Vec<bool> = ask_all(all.as_slice(), live);
    assert(answers(live, instruments@, given@));
    let mut e: Exposition = Exposition::new();
    process(&mut e, state, version);
    connection(&mut e, state, all.as_slice(), given.as_slice());
    session(&mut e, state);
    journal(&mut e, state);
    e.finish()
}

} // verus!

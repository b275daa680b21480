//! The tool's metrics.

use bowst::fixed::{Dec, Increment};
use bowst::ids::{InstrumentId, VenueId};
use bowst::instrument::{Instrument, InstrumentTable, Symbol};
use bowst::journal::health::JournalHealth;
use bowst::md::metrics::{render, MetricsState};
use bowst::md::session::{MdReport, MdStats};
use bowst::telemetry::histogram::LatencySummary;
use bowst::time::WallTime;
use std::time::Duration;

fn instruments() -> InstrumentTable {
    InstrumentTable::new(
        ["BTCUSDT", "ETHUSDT"]
            .iter()
            .enumerate()
            .map(|(i, s)| Instrument {
                id: InstrumentId::new(u32::try_from(i).unwrap()),
                venue: VenueId::Binance,
                symbol: Symbol::new(s).unwrap(),
                tick: Increment::parse("0.01").unwrap(),
                lot: Increment::parse("0.0001").unwrap(),
                min_notional: Dec::parse("5").unwrap(),
            })
            .collect(),
    )
    .unwrap()
}

fn state() -> MetricsState {
    let latency = LatencySummary {
        count: 100,
        sum: 500_000,
        min: 900,
        p50: 1_300,
        p90: 4_500,
        p99: 18_000,
        p999: 50_000,
        max: 60_000,
    };
    MetricsState {
        started: WallTime::from_nanos(1_700_000_000_000_000_000),
        connected: true,
        report: Some((
            MdReport {
                interval: Duration::from_secs(10),
                stats: MdStats {
                    messages: 2_144,
                    deltas_applied: 2_092,
                    book_invalidations: 1,
                    connections: 1,
                    snapshots_requested: 4,
                    snapshots_applied: 3,
                    verifications_passed: 1,
                    verification_mismatches: 0,
                    verifications_abandoned: 0,
                },
                latency,
                latency_total: LatencySummary {
                    count: 2_144,
                    sum: 9_000_000,
                    ..latency
                },
            },
            WallTime::from_nanos(1_700_000_075_500_000_000),
        )),
        journal: Some(JournalHealth::Healthy),
        journal_dropped: 0,
    }
}

#[test]
fn renders_every_metric() {
    let text = render(&state(), &instruments(), |id: u32| id == 0, "0.1.0");
    for line in [
        "bowst_md_connected{venue=\"binance\"} 1",
        "bowst_md_instrument_live{venue=\"binance\",symbol=\"BTCUSDT\"} 1",
        "bowst_md_instrument_live{venue=\"binance\",symbol=\"ETHUSDT\"} 0",
        "bowst_md_messages_total{venue=\"binance\"} 2144",
        "bowst_md_book_invalidations_total{venue=\"binance\"} 1",
        "bowst_md_verifications_total{venue=\"binance\",result=\"passed\"} 1",
        "bowst_md_verifications_total{venue=\"binance\",result=\"mismatch\"} 0",
        "bowst_md_apply_latency_seconds{venue=\"binance\",quantile=\"0.99\"} 0.000018000",
        "bowst_md_apply_latency_seconds_sum{venue=\"binance\"} 0.009000000",
        "bowst_md_apply_latency_seconds_count{venue=\"binance\"} 2144",
        "bowst_md_last_report_timestamp_seconds{venue=\"binance\"} 1700000075.500000000",
        "bowst_start_time_seconds 1700000000.000000000",
        "bowst_journal_state{state=\"ok\"} 1",
        "bowst_journal_state{state=\"failed\"} 0",
        "bowst_journal_dropped_records_total 0",
        "# TYPE bowst_md_apply_latency_seconds summary",
        "# TYPE bowst_md_messages_total counter",
    ] {
        assert!(
            text.lines().any(|l| l == line),
            "missing {line:?} in\n{text}"
        );
    }
}

#[test]
fn every_line_is_valid_exposition_text() {
    let text = render(&state(), &instruments(), |_: u32| true, "0.1.0");
    let mut families = std::collections::BTreeSet::new();
    for line in text.lines() {
        if let Some(rest) = line.strip_prefix("# TYPE ") {
            let name = rest.split(' ').next().unwrap();
            assert!(
                families.insert(name.to_owned()),
                "family {name} declared twice"
            );
            continue;
        }
        if line.starts_with("# HELP ") {
            continue;
        }
        // `name{labels} value` or `name value`, with a numeric value and a declared family.
        let (series, value) = line.rsplit_once(' ').unwrap();
        assert!(
            value.parse::<u64>().is_ok()
                || value
                    .split_once('.')
                    .is_some_and(|(a, b)| a.parse::<u64>().is_ok() && b.len() == 9),
            "bad value in {line:?}"
        );
        let name = series.split('{').next().unwrap();
        let family = ["_sum", "_count"]
            .iter()
            .find_map(|suffix| {
                name.strip_suffix(suffix)
                    .filter(|base| families.contains(*base))
            })
            .unwrap_or(name);
        assert!(families.contains(family), "sample {name} before its family");
    }
}

#[test]
fn before_the_first_report_counters_are_zero_and_latency_is_absent() {
    let mut state = state();
    state.report = None;
    state.journal = None;
    let text = render(&state, &instruments(), |_: u32| false, "0.1.0");
    assert!(text.contains("bowst_md_messages_total{venue=\"binance\"} 0\n"));
    assert!(
        text.contains(
            "bowst_md_last_report_timestamp_seconds{venue=\"binance\"} 0.000000000\n"
        )
    );
    assert!(!text.contains("bowst_md_apply_latency_seconds"));
    assert!(!text.contains("bowst_journal"));
}

#[test]
fn journal_state_follows_health() {
    let mut state = state();
    state.journal = Some(JournalHealth::Degraded { dropped: 7 });
    state.journal_dropped = 7;
    let text = render(&state, &instruments(), |_: u32| true, "0.1.0");
    assert!(text.contains("bowst_journal_state{state=\"degraded\"} 1\n"));
    assert!(text.contains("bowst_journal_state{state=\"ok\"} 0\n"));
    assert!(text.contains("bowst_journal_dropped_records_total 7\n"));
}

//! Metrics text.

use bowst::telemetry::exposition::{Exposition, MetricType, Value};
use bowst::telemetry::histogram::LatencySummary;

#[test]
fn writes_families_and_samples() {
    let mut e = Exposition::new();
    e.family(
        "bowst_md_messages_total",
        MetricType::Counter,
        "Messages received.",
    );
    e.sample("bowst_md_messages_total", &[], Value::Int(42));
    e.family(
        "bowst_md_instrument_live",
        MetricType::Gauge,
        "1 while the book is live.",
    );
    e.sample(
        "bowst_md_instrument_live",
        &[("venue", "binance"), ("symbol", "BTCUSDT")],
        Value::Int(1),
    );
    assert_eq!(e.rejected(), 0);
    assert_eq!(
        e.finish(),
        "# HELP bowst_md_messages_total Messages received.\n\
         # TYPE bowst_md_messages_total counter\n\
         bowst_md_messages_total 42\n\
         # HELP bowst_md_instrument_live 1 while the book is live.\n\
         # TYPE bowst_md_instrument_live gauge\n\
         bowst_md_instrument_live{venue=\"binance\",symbol=\"BTCUSDT\"} 1\n"
    );
}

#[test]
fn durations_are_exact_seconds() {
    let mut e = Exposition::new();
    for nanos in [0, 1, 1_234, 999_999_999, 1_000_000_000, 61_500_000_000] {
        e.sample("t", &[], Value::Nanos(nanos));
    }
    assert_eq!(
        e.finish(),
        "t 0.000000000\nt 0.000000001\nt 0.000001234\nt 0.999999999\nt 1.000000000\nt 61.500000000\n"
    );
}

#[test]
fn summaries_use_window_quantiles_and_total_sum_and_count() {
    let window = LatencySummary {
        count: 3,
        sum: 6_000,
        min: 1_000,
        p50: 2_000,
        p90: 3_000,
        p99: 3_000,
        p999: 3_000,
        max: 3_000,
    };
    let total = LatencySummary {
        count: 10,
        sum: 25_000,
        ..window
    };
    let mut e = Exposition::new();
    e.summary("lat_seconds", &[("venue", "binance")], &window, &total);
    assert_eq!(
        e.finish(),
        "lat_seconds{venue=\"binance\",quantile=\"0.5\"} 0.000002000\n\
         lat_seconds{venue=\"binance\",quantile=\"0.9\"} 0.000003000\n\
         lat_seconds{venue=\"binance\",quantile=\"0.99\"} 0.000003000\n\
         lat_seconds{venue=\"binance\",quantile=\"0.999\"} 0.000003000\n\
         lat_seconds_sum{venue=\"binance\"} 0.000025000\n\
         lat_seconds_count{venue=\"binance\"} 10\n"
    );
}

#[test]
fn label_values_and_help_are_escaped() {
    let mut e = Exposition::new();
    e.family("m", MetricType::Gauge, "line one\nback\\slash");
    e.sample("m", &[("reason", "a \"quoted\"\nvalue\\")], Value::Int(1));
    assert_eq!(
        e.finish(),
        "# HELP m line one\\nback\\\\slash\n# TYPE m gauge\nm{reason=\"a \\\"quoted\\\"\\nvalue\\\\\"} 1\n"
    );
}

#[test]
fn invalid_names_are_left_out_and_counted() {
    let mut e = Exposition::new();
    e.family("9starts_with_digit", MetricType::Gauge, "x");
    e.sample("has-dash", &[], Value::Int(1));
    e.sample("ok", &[("__reserved", "x")], Value::Int(1));
    e.sample("ok", &[("bad-label", "x")], Value::Int(1));
    e.sample("ok", &[("fine_label", "x")], Value::Int(1));
    assert_eq!(e.rejected(), 4);
    assert_eq!(e.finish(), "ok{fine_label=\"x\"} 1\n");
}

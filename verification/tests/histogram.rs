//! The latency histogram.

use bowst::telemetry::buckets::{bucket_of, upper_bound, BUCKETS, SUB_BUCKETS};
use bowst::telemetry::histogram::{LatencyHistogram, LatencySummary};

#[test]
fn small_values_are_exact() {
    for v in 0..SUB_BUCKETS {
        assert_eq!(upper_bound(bucket_of(v)), v);
    }
}

#[test]
fn buckets_are_contiguous_and_cover_every_value() {
    // Each bucket starts right after the previous one ends, up to u64::MAX.
    let mut expected_low = 0_u64;
    for index in 0..BUCKETS {
        let high = upper_bound(index);
        assert_eq!(bucket_of(expected_low), index, "low end of bucket {index}");
        assert_eq!(bucket_of(high), index, "high end of bucket {index}");
        if high == u64::MAX {
            assert_eq!(index, BUCKETS - 1);
            return;
        }
        expected_low = high + 1;
    }
    panic!("buckets end before u64::MAX");
}

#[test]
fn empty_histogram_reports_zeros() {
    let h = LatencyHistogram::new();
    assert_eq!(h.summary(), LatencySummary::default());
}

#[test]
fn percentiles_of_a_known_distribution() {
    let mut h = LatencyHistogram::new();
    for v in 1..=1_000 {
        h.record(v);
    }
    let s = h.summary();
    assert_eq!((s.count, s.min, s.max), (1_000, 1, 1_000));
    // Exact rank values are 500, 900, 990 and 999; buckets overstate by at most ~3%.
    for (got, exact) in [(s.p50, 500), (s.p90, 900), (s.p99, 990), (s.p999, 999)] {
        assert!(
            got >= exact && got <= exact + exact / 32,
            "{got} vs {exact}"
        );
    }
}

#[test]
fn merge_and_reset() {
    let (mut a, mut b) = (LatencyHistogram::new(), LatencyHistogram::new());
    a.record(10);
    b.record(1_000_000);
    a.merge(&b);
    assert_eq!((a.count(), a.min(), a.max()), (2, 10, 1_000_000));
    a.reset();
    assert_eq!(a.summary(), LatencySummary::default());
}

#[test]
fn extreme_values_do_not_overflow() {
    let mut h = LatencyHistogram::new();
    h.record(u64::MAX);
    h.record(0);
    assert_eq!(h.value_at_ppm(1_000_000), u64::MAX);
    assert_eq!(h.value_at_ppm(0), 0);
    assert_eq!(h.value_at_ppm(u32::MAX), u64::MAX);
}

#[test]
fn summaries_are_in_order_whatever_the_order_of_recording() {
    let values = [5_000_u64, 17, 900_000, 17, 42, 1_000_000_007, 63, 64, 65];
    let (mut forth, mut back) = (LatencyHistogram::new(), LatencyHistogram::new());
    for value in values {
        forth.record(value);
    }
    for value in values.into_iter().rev() {
        back.record(value);
    }
    let s = forth.summary();
    assert_eq!(s, back.summary());
    assert_eq!((s.count, s.min, s.max), (9, 17, 1_000_000_007));
    assert!(s.min <= s.p50 && s.p50 <= s.p90 && s.p90 <= s.p99 && s.p99 <= s.p999);
    assert!(s.p999 <= s.max);
    assert_eq!(LatencyHistogram::new().summary(), LatencySummary::default());
}

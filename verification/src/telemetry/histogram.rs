//! A log-linear latency histogram.
//!
//! Reported percentiles are the upper bound of their bucket, capped at the largest value
//! recorded: they never understate a latency and overstate it by at most about 3%.
//!
//! Integer arithmetic only: percentiles are requested in parts per million (`990_000` is the
//! 99th percentile), so no floating point is involved.

use crate::telemetry::buckets::{self, BUCKETS};
use vstd::prelude::*;

verus! {

/// What a histogram holds.
#[verifier::ext_equal]
pub struct HistogramView {
    /// Values per bucket.
    pub counts: Seq<u64>,
    /// Values recorded.
    pub count: u64,
    /// Their sum.
    pub sum: u64,
    /// The largest of them.
    pub max: u64,
    /// The smallest of them.
    pub min: u64,
}

/// The larger of two values.
pub open spec fn larger(a: u64, b: u64) -> u64 {
    if a < b {
        b
    } else {
        a
    }
}

/// The smaller of two values.
pub open spec fn smaller(a: u64, b: u64) -> u64 {
    if b < a {
        b
    } else {
        a
    }
}

/// How many values the first `n` buckets hold.
pub open spec fn held(counts: Seq<u64>, n: nat) -> nat
    decreases n,
{
    if n == 0 {
        0
    } else {
        held(counts, (n - 1) as nat) + counts[n - 1] as nat
    }
}

/// The rank of the value at `ppm` parts per million of `count` values, counted from one and
/// rounded up so the result is never below the requested share. At least one.
pub open spec fn place(count: u64, ppm: u32) -> nat {
    let share = if ppm > 1_000_000 {
        1_000_000
    } else {
        ppm as int
    };
    let exact = (count * share + 999_999) / 1_000_000;
    if exact < 1 {
        1
    } else {
        exact as nat
    }
}

/// The first bucket from `from` on up to which at least `wanted` values are held.
pub open spec fn reaching(counts: Seq<u64>, from: nat, wanted: nat) -> nat
    decreases counts.len() - from,
{
    if from >= counts.len() || held(counts, from + 1) >= wanted {
        from
    } else {
        reaching(counts, from + 1, wanted)
    }
}

impl HistogramView {
    /// The histogram of no values.
    pub open spec fn empty() -> HistogramView {
        HistogramView {
            counts: Seq::new(BUCKETS as nat, |i: int| 0u64),
            count: 0,
            sum: 0,
            max: 0,
            min: u64::MAX,
        }
    }

    /// The histogram with one more value.
    pub open spec fn recorded(self, nanos: u64) -> HistogramView {
        let index = buckets::bucket(nanos as nat) as int;
        HistogramView {
            counts: self.counts.update(index, self.counts[index].saturating_add(1)),
            count: self.count.saturating_add(1),
            sum: self.sum.saturating_add(nanos),
            max: larger(self.max, nanos),
            min: smaller(self.min, nanos),
        }
    }

    /// The histogram with the values of another one too.
    pub open spec fn merged(self, other: HistogramView) -> HistogramView {
        HistogramView {
            counts: Seq::new(
                BUCKETS as nat,
                |i: int| self.counts[i].saturating_add(other.counts[i]),
            ),
            count: self.count.saturating_add(other.count),
            sum: self.sum.saturating_add(other.sum),
            max: larger(self.max, other.max),
            min: smaller(self.min, other.min),
        }
    }

    /// The value at `ppm` parts per million: the smallest bucket upper bound with at least that
    /// share of values at or below it, capped at the largest value. 0 if empty.
    pub open spec fn value_at(self, ppm: u32) -> u64 {
        let at = reaching(self.counts, 0, place(self.count, ppm));
        if self.count == 0 {
            0
        } else if at >= BUCKETS || buckets::upper(at) > self.max {
            self.max
        } else {
            buckets::upper(at) as u64
        }
    }

    /// The smallest value, or 0 if empty.
    pub open spec fn least(self) -> u64 {
        if self.count == 0 {
            0
        } else {
            self.min
        }
    }

    /// Standard percentiles and extremes.
    pub open spec fn summarized(self) -> LatencySummary {
        LatencySummary {
            count: self.count,
            sum: self.sum,
            min: self.least(),
            p50: self.value_at(500_000),
            p90: self.value_at(900_000),
            p99: self.value_at(990_000),
            p999: self.value_at(999_000),
            max: self.max,
        }
    }
}

/// Percentiles and extremes of a histogram, in nanoseconds.
#[derive(Clone, Copy, Debug, PartialEq, Eq, Structural)]
pub struct LatencySummary {
    /// Values recorded.
    pub count: u64,
    /// Sum of the values.
    pub sum: u64,
    /// Smallest value (exact).
    pub min: u64,
    /// Median.
    pub p50: u64,
    /// 90th percentile.
    pub p90: u64,
    /// 99th percentile.
    pub p99: u64,
    /// 99.9th percentile.
    pub p999: u64,
    /// Largest value (exact).
    pub max: u64,
}

impl Default for LatencySummary {
    fn default() -> (r: Self)
        ensures
            r == (LatencySummary {
                count: 0,
                sum: 0,
                min: 0,
                p50: 0,
                p90: 0,
                p99: 0,
                p999: 0,
                max: 0,
            }),
    {
        LatencySummary { count: 0, sum: 0, min: 0, p50: 0, p90: 0, p99: 0, p999: 0, max: 0 }
    }
}

/// Durations in nanoseconds, bucketed for percentiles. See the module docs.
#[derive(Debug)]
pub struct LatencyHistogram {
    counts: Vec<u64>,
    count: u64,
    sum: u64,
    max: u64,
    min: u64,
}

impl View for LatencyHistogram {
    type V = HistogramView;

    closed spec fn view(&self) -> HistogramView {
        HistogramView {
            counts: self.counts@,
            count: self.count,
            sum: self.sum,
            max: self.max,
            min: self.min,
        }
    }
}

impl Default for LatencyHistogram {
    fn default() -> (r: Self)
        ensures
            r@ == HistogramView::empty(),
    {
        LatencyHistogram::new()
    }
}

impl Clone for LatencyHistogram {
    fn clone(&self) -> (r: Self)
        ensures
            r@ == self@,
    {
        proof {
            use_type_invariant(self);
        }
        let counts: Vec<u64> = self.counts.clone();
        assert(counts@ =~= self.counts@);
        LatencyHistogram { counts, count: self.count, sum: self.sum, max: self.max, min: self.min }
    }
}

impl LatencyHistogram {
    /// Every bucket is there.
    #[verifier::type_invariant]
    spec fn has_buckets(self) -> bool {
        self.counts@.len() == BUCKETS
    }

    /// An empty histogram. Allocates its buckets (about 15 KiB) once, here.
    pub fn new() -> (r: Self)
        ensures
            r@ == HistogramView::empty(),
    {
        let counts: Vec<u64> = vec![0u64; BUCKETS];
        assert(counts@ =~= HistogramView::empty().counts);
        LatencyHistogram { counts, count: 0, sum: 0, max: 0, min: u64::MAX }
    }

    /// Records one value. Constant time, no allocation: safe on the hot path.
    pub fn record(&mut self, nanos: u64)
        ensures
            final(self)@ == old(self)@.recorded(nanos),
    {
        proof {
            use_type_invariant(&*self);
        }
        let index: usize = buckets::bucket_of(nanos);
        let seen: u64 = self.counts[index];
        self.counts[index] = seen.saturating_add(1);
        self.count = self.count.saturating_add(1);
        self.sum = self.sum.saturating_add(nanos);
        if nanos > self.max {
            self.max = nanos;
        }
        if nanos < self.min {
            self.min = nanos;
        }
    }

    /// Values recorded.
    pub fn count(&self) -> (r: u64)
        ensures
            r == self@.count,
    {
        self.count
    }

    /// Largest value recorded, or 0 if empty.
    pub fn max(&self) -> (r: u64)
        ensures
            r == self@.max,
    {
        self.max
    }

    /// Smallest value recorded, or 0 if empty.
    pub fn min(&self) -> (r: u64)
        ensures
            r == self@.least(),
    {
        if self.count == 0 {
            0
        } else {
            self.min
        }
    }

    /// The value at `ppm` parts per million (`500_000` is the median, `999_000` the 99.9th
    /// percentile): the smallest bucket upper bound with at least that share of values at or
    /// below it, capped at [`max`](Self::max). 0 if empty. `ppm` above one million is treated
    /// as one million.
    pub fn value_at_ppm(&self, ppm: u32) -> (r: u64)
        ensures
            r == self@.value_at(ppm),
    {
        proof {
            use_type_invariant(self);
        }
        if self.count == 0 {
            return 0;
        }
        let wanted: u64 = rank_for(self.count, ppm);
        let mut seen: u64 = 0;
        let mut index: usize = 0;
        while index < BUCKETS
            invariant
                self.count > 0,
                self.counts@.len() == BUCKETS,
                index <= BUCKETS,
                wanted == place(self.count, ppm),
                seen == if held(self.counts@, index as nat) > u64::MAX {
                    u64::MAX as nat
                } else {
                    held(self.counts@, index as nat)
                },
                reaching(self.counts@, 0, wanted as nat) == reaching(
                    self.counts@,
                    index as nat,
                    wanted as nat,
                ),
            decreases BUCKETS - index,
        {
            seen = seen.saturating_add(self.counts[index]);
            assert(held(self.counts@, (index + 1) as nat) == held(self.counts@, index as nat)
                + self.counts@[index as int]);
            if seen >= wanted {
                let bound: u64 = buckets::upper_bound(index);
                return if bound > self.max {
                    self.max
                } else {
                    bound
                };
            }
            index = index + 1;
        }
        self.max
    }

    /// Standard percentiles and extremes. Scans every bucket: not for the hot path.
    pub fn summary(&self) -> (r: LatencySummary)
        ensures
            r == self@.summarized(),
    {
        LatencySummary {
            count: self.count,
            sum: self.sum,
            min: self.min(),
            p50: self.value_at_ppm(500_000),
            p90: self.value_at_ppm(900_000),
            p99: self.value_at_ppm(990_000),
            p999: self.value_at_ppm(999_000),
            max: self.max,
        }
    }

    /// Adds every value recorded in `other`.
    pub fn merge(&mut self, other: &Self)
        ensures
            final(self)@ == old(self)@.merged(other@),
    {
        proof {
            use_type_invariant(&*self);
            use_type_invariant(other);
        }
        let mut i: usize = 0;
        while i < BUCKETS
            invariant
                i <= BUCKETS,
                self.counts@.len() == BUCKETS,
                old(self)@.counts.len() == BUCKETS,
                other.counts@.len() == BUCKETS,
                self.count == old(self)@.count,
                self.sum == old(self)@.sum,
                self.max == old(self)@.max,
                self.min == old(self)@.min,
                forall|k: int|
                    0 <= k < i ==> #[trigger] self.counts@[k] == old(self)@.counts[k].saturating_add(
                        other@.counts[k],
                    ),
                forall|k: int|
                    i <= k < BUCKETS ==> #[trigger] self.counts@[k] == old(self)@.counts[k],
            decreases BUCKETS - i,
        {
            let mine: u64 = self.counts[i];
            let theirs: u64 = other.counts[i];
            self.counts[i] = mine.saturating_add(theirs);
            i = i + 1;
        }
        self.count = self.count.saturating_add(other.count);
        self.sum = self.sum.saturating_add(other.sum);
        if other.max > self.max {
            self.max = other.max;
        }
        if other.min < self.min {
            self.min = other.min;
        }
        assert(self@ =~= old(self)@.merged(other@));
    }

    /// Forgets every value, keeping the allocation.
    pub fn reset(&mut self)
        ensures
            final(self)@ == HistogramView::empty(),
    {
        proof {
            use_type_invariant(&*self);
        }
        let mut i: usize = 0;
        while i < BUCKETS
            invariant
                i <= BUCKETS,
                self.counts@.len() == BUCKETS,
                forall|k: int| 0 <= k < i ==> #[trigger] self.counts@[k] == 0,
            decreases BUCKETS - i,
        {
            self.counts[i] = 0;
            i = i + 1;
        }
        self.count = 0;
        self.sum = 0;
        self.max = 0;
        self.min = u64::MAX;
        assert(self@ =~= HistogramView::empty());
    }
}

/// The 1-based rank of the value at `ppm` parts per million of `count` values, rounded up so
/// the result is never below the requested share. At least 1.
pub fn rank_for(count: u64, ppm: u32) -> (r: u64)
    ensures
        r == place(count, ppm),
{
    let share: u32 = if ppm > 1_000_000 {
        1_000_000
    } else {
        ppm
    };
    assert(count * share <= count * 1_000_000) by (nonlinear_arith)
        requires
            share <= 1_000_000,
    ;
    let scaled: u128 = count as u128 * share as u128;
    let exact: u128 = (scaled + 999_999) / 1_000_000;
    if exact < 1 {
        1
    } else {
        exact as u64
    }
}

} // verus!

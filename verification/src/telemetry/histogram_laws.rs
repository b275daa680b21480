//! What a histogram promises of the values recorded in it.

use crate::telemetry::buckets::{self, BUCKETS, SUB_BUCKETS};
use crate::telemetry::histogram::{self, HistogramView, LatencySummary};
use vstd::prelude::*;

verus! {

/// How many of these values are in a bucket.
pub open spec fn tally(values: Seq<u64>, index: nat) -> nat
    decreases values.len(),
{
    if values.len() == 0 {
        0
    } else {
        tally(values.drop_last(), index) + if buckets::bucket(values.last() as nat) == index {
            1nat
        } else {
            0
        }
    }
}

/// The sum of these values.
pub open spec fn total(values: Seq<u64>) -> nat
    decreases values.len(),
{
    if values.len() == 0 {
        0
    } else {
        total(values.drop_last()) + values.last() as nat
    }
}

/// How many of these values are at most `bound`.
pub open spec fn at_most(values: Seq<u64>, bound: int) -> nat
    decreases values.len(),
{
    if values.len() == 0 {
        0
    } else {
        at_most(values.drop_last(), bound) + if values.last() <= bound {
            1nat
        } else {
            0
        }
    }
}

/// Whether a histogram holds exactly these values, as far as a histogram can.
pub open spec fn summarizes(h: HistogramView, values: Seq<u64>) -> bool {
    &&& h.counts.len() == BUCKETS
    &&& forall|i: int| 0 <= i < BUCKETS ==> #[trigger] h.counts[i] == tally(values, i as nat)
    &&& h.count == values.len()
    &&& h.sum == if total(values) > u64::MAX {
        u64::MAX as nat
    } else {
        total(values)
    }
    &&& forall|k: int| 0 <= k < values.len() ==> h.min <= #[trigger] values[k] <= h.max
    &&& values.len() == 0 ==> h.max == 0 && h.min == u64::MAX
    &&& values.len() > 0 ==> values.contains(h.max) && values.contains(h.min)
}

/// A new histogram, and one that was reset, holds no values.
pub proof fn law_an_empty_histogram_holds_nothing()
    ensures
        summarizes(HistogramView::empty(), Seq::empty()),
{
}

/// No bucket holds more values than there are.
proof fn lemma_tally_bound(values: Seq<u64>, index: nat)
    ensures
        tally(values, index) <= values.len(),
    decreases values.len(),
{
    if values.len() > 0 {
        lemma_tally_bound(values.drop_last(), index);
    }
}

/// Recording a value adds that value.
pub proof fn law_recording_adds_the_value(h: HistogramView, values: Seq<u64>, nanos: u64)
    requires
        summarizes(h, values),
        values.len() < u64::MAX,
    ensures
        summarizes(h.recorded(nanos), values.push(nanos)),
{
    let now = h.recorded(nanos);
    let all = values.push(nanos);
    buckets::law_buckets_cover_every_value(nanos);
    assert(all.drop_last() =~= values);
    assert forall|i: int| 0 <= i < BUCKETS implies #[trigger] now.counts[i] == tally(
        all,
        i as nat,
    ) by {
        assert(h.counts[i] == tally(values, i as nat));
        lemma_tally_bound(values, i as nat);
    }
    assert forall|k: int| 0 <= k < all.len() implies now.min <= #[trigger] all[k] <= now.max by {
        if k < values.len() {
            assert(all[k] == values[k]);
        }
    }
    if values.len() > 0 {
        let top = choose|k: int| 0 <= k < values.len() && values[k] == h.max;
        let low = choose|k: int| 0 <= k < values.len() && values[k] == h.min;
        assert(all[top] == h.max && all[low] == h.min);
    }
    assert(all[values.len() as int] == nanos);
}

/// What two runs of values have together.
proof fn lemma_joined(a: Seq<u64>, b: Seq<u64>, index: nat)
    ensures
        tally(a + b, index) == tally(a, index) + tally(b, index),
        total(a + b) == total(a) + total(b),
    decreases b.len(),
{
    if b.len() == 0 {
        assert(a + b =~= a);
    } else {
        assert((a + b).drop_last() =~= a + b.drop_last());
        lemma_joined(a, b.drop_last(), index);
    }
}

/// Merging adds every value of the other histogram.
pub proof fn law_merging_adds_every_value(
    a: HistogramView,
    b: HistogramView,
    of_a: Seq<u64>,
    of_b: Seq<u64>,
)
    requires
        summarizes(a, of_a),
        summarizes(b, of_b),
        of_a.len() + of_b.len() <= u64::MAX,
    ensures
        summarizes(a.merged(b), of_a + of_b),
{
    let now = a.merged(b);
    let all = of_a + of_b;
    lemma_joined(of_a, of_b, 0);
    assert forall|i: int| 0 <= i < BUCKETS implies #[trigger] now.counts[i] == tally(
        all,
        i as nat,
    ) by {
        assert(a.counts[i] == tally(of_a, i as nat));
        assert(b.counts[i] == tally(of_b, i as nat));
        lemma_joined(of_a, of_b, i as nat);
        lemma_tally_bound(of_a, i as nat);
        lemma_tally_bound(of_b, i as nat);
    }
    assert forall|k: int| 0 <= k < all.len() implies now.min <= #[trigger] all[k] <= now.max by {
        if k < of_a.len() {
            assert(all[k] == of_a[k]);
        } else {
            assert(all[k] == of_b[k - of_a.len()]);
        }
    }
    if of_a.len() > 0 {
        let top = choose|k: int| 0 <= k < of_a.len() && of_a[k] == a.max;
        let low = choose|k: int| 0 <= k < of_a.len() && of_a[k] == a.min;
        assert(all[top] == a.max && all[low] == a.min);
    }
    if of_b.len() > 0 {
        let top = choose|k: int| 0 <= k < of_b.len() && of_b[k] == b.max;
        let low = choose|k: int| 0 <= k < of_b.len() && of_b[k] == b.min;
        assert(all[top + of_a.len()] == b.max && all[low + of_a.len()] == b.min);
    }
}

/// How many of these values are in the first `n` buckets.
spec fn tallies(values: Seq<u64>, n: nat) -> nat
    decreases n,
{
    if n == 0 {
        0
    } else {
        tallies(values, (n - 1) as nat) + tally(values, (n - 1) as nat)
    }
}

/// The first buckets hold what they hold of the values before the last, and the last if it is
/// there.
proof fn lemma_tallies_step(values: Seq<u64>, n: nat)
    requires
        values.len() > 0,
    ensures
        tallies(values, n) == tallies(values.drop_last(), n) + if buckets::bucket(
            values.last() as nat,
        ) < n {
            1nat
        } else {
            0
        },
    decreases n,
{
    if n > 0 {
        lemma_tallies_step(values, (n - 1) as nat);
    }
}

/// The values in the first buckets are those up to the upper bound of the last of them.
proof fn lemma_first_buckets(values: Seq<u64>, index: nat)
    ensures
        tallies(values, index + 1) == at_most(values, buckets::upper(index) as int),
    decreases values.len(),
{
    if values.len() == 0 {
        lemma_no_tallies(values, index + 1);
    } else {
        lemma_first_buckets(values.drop_last(), index);
        lemma_tallies_step(values, index + 1);
        let value = values.last() as nat;
        let own = buckets::bucket(value);
        buckets::law_buckets_tell_values_apart(value, own);
        if own < index {
            buckets::lemma_bounds_grow(own, index);
            buckets::law_buckets_are_contiguous(index);
        } else if index < own {
            buckets::lemma_bounds_grow(index, own);
        }
    }
}

/// No values, no tallies.
proof fn lemma_no_tallies(values: Seq<u64>, n: nat)
    requires
        values.len() == 0,
    ensures
        tallies(values, n) == 0,
    decreases n,
{
    if n > 0 {
        lemma_no_tallies(values, (n - 1) as nat);
    }
}

/// The first buckets of a histogram hold the values that belong there.
proof fn lemma_held(h: HistogramView, values: Seq<u64>, n: nat)
    requires
        summarizes(h, values),
        n <= BUCKETS,
    ensures
        histogram::held(h.counts, n) == tallies(values, n),
    decreases n,
{
    if n > 0 {
        lemma_held(h, values, (n - 1) as nat);
        assert(h.counts[n - 1] == tally(values, (n - 1) as nat));
    }
}

/// A larger bound lets no fewer values through, and the largest lets all through.
proof fn lemma_at_most(values: Seq<u64>, a: int, b: int)
    requires
        a <= b,
    ensures
        at_most(values, a) <= at_most(values, b) <= values.len(),
        b >= u64::MAX ==> at_most(values, b) == values.len(),
    decreases values.len(),
{
    if values.len() > 0 {
        lemma_at_most(values.drop_last(), a, b);
    }
}

/// Where the search for the bucket of a rank ends.
proof fn lemma_reaching(counts: Seq<u64>, from: nat, wanted: nat)
    requires
        from <= counts.len(),
        histogram::held(counts, from) < wanted,
    ensures
        ({
            let at = histogram::reaching(counts, from, wanted);
            &&& from <= at <= counts.len()
            &&& histogram::held(counts, at) < wanted
            &&& at < counts.len() ==> histogram::held(counts, at + 1) >= wanted
        }),
    decreases counts.len() - from,
{
    if from < counts.len() && histogram::held(counts, from + 1) < wanted {
        lemma_reaching(counts, from + 1, wanted);
    }
}

/// Whether `exact` is the value of this rank, counted from one: one of the values, with at least
/// that many at or below it and fewer below it.
pub open spec fn has_rank(values: Seq<u64>, wanted: nat, exact: u64) -> bool {
    &&& values.contains(exact)
    &&& at_most(values, exact as int) >= wanted
    &&& at_most(values, exact - 1) < wanted
}

/// Percentiles bracket the exact value: what is reported is at or above the value of the
/// requested rank, above it by at most a 32nd, and never above the largest value recorded.
pub proof fn law_percentiles_bracket_the_exact_value(
    h: HistogramView,
    values: Seq<u64>,
    ppm: u32,
    exact: u64,
)
    requires
        summarizes(h, values),
        has_rank(values, histogram::place(h.count, ppm), exact),
    ensures
        exact <= h.value_at(ppm),
        h.value_at(ppm) - exact <= exact / 32,
        h.value_at(ppm) <= h.max,
{
    let wanted = histogram::place(h.count, ppm);
    let at = histogram::reaching(h.counts, 0, wanted);
    let where_exact = choose|k: int| 0 <= k < values.len() && values[k] == exact;
    assert(values[where_exact] <= h.max);
    lemma_reaching(h.counts, 0, wanted);
    if at == BUCKETS {
        lemma_held(h, values, BUCKETS as nat);
        lemma_first_buckets(values, (BUCKETS - 1) as nat);
        buckets::law_buckets_cover_every_value(0);
        lemma_at_most(values, exact as int, u64::MAX as int);
    }
    assert(at < BUCKETS);
    let bound = buckets::upper(at);
    lemma_held(h, values, at + 1);
    lemma_first_buckets(values, at);
    if exact > bound {
        lemma_at_most(values, bound as int, exact - 1);
    }
    if at > 0 {
        lemma_held(h, values, at);
        lemma_first_buckets(values, (at - 1) as nat);
        let before = buckets::upper((at - 1) as nat);
        if exact <= before {
            lemma_at_most(values, exact as int, before as int);
        }
        buckets::law_buckets_are_contiguous((at - 1) as nat);
    }
    buckets::law_buckets_tell_values_apart(exact as nat, at);
    buckets::law_relative_error_is_bounded(exact as nat);
}

/// A rank is never above the number of values, so there is a value of that rank whenever there
/// are values at all.
pub proof fn law_ranks_are_within_the_values(count: u64, ppm: u32)
    requires
        count > 0,
    ensures
        1 <= histogram::place(count, ppm) <= count,
{
    let share = if ppm > 1_000_000 {
        1_000_000
    } else {
        ppm as int
    };
    assert(count * share <= count * 1_000_000) by (nonlinear_arith)
        requires
            0 <= share <= 1_000_000,
    ;
}

/// A later rank is reached no earlier.
proof fn lemma_reaching_grows(counts: Seq<u64>, from: nat, a: nat, b: nat)
    requires
        a <= b,
    ensures
        from <= histogram::reaching(counts, from, a) <= histogram::reaching(counts, from, b),
    decreases counts.len() - from,
{
    if from < counts.len() {
        lemma_reaching_grows(counts, from + 1, a, b);
    }
}

/// A larger share of the values has no smaller percentile.
pub proof fn law_percentiles_grow_with_their_share(h: HistogramView, a: u32, b: u32)
    requires
        a <= b,
    ensures
        h.value_at(a) <= h.value_at(b) <= h.max,
{
    let share = |ppm: u32|
        if ppm > 1_000_000 {
            1_000_000
        } else {
            ppm as int
        };
    assert(h.count * share(a) <= h.count * share(b)) by (nonlinear_arith)
        requires
            0 <= share(a) <= share(b),
            h.count >= 0,
    ;
    let (from, to) = (histogram::place(h.count, a), histogram::place(h.count, b));
    assert(from <= to);
    lemma_reaching_grows(h.counts, 0, from, to);
    let (low, high) = (
        histogram::reaching(h.counts, 0, from),
        histogram::reaching(h.counts, 0, to),
    );
    if low < high {
        buckets::lemma_bounds_grow(low, high);
        buckets::law_buckets_are_contiguous(high);
    }
}

/// Where some values are at most `bound`, one of them is.
proof fn lemma_some_at_most(values: Seq<u64>, bound: int) -> (k: int)
    requires
        at_most(values, bound) > 0,
    ensures
        0 <= k < values.len(),
        values[k] <= bound,
    decreases values.len(),
{
    if values.last() <= bound {
        values.len() - 1
    } else {
        lemma_some_at_most(values.drop_last(), bound)
    }
}

/// No percentile is below the smallest value.
proof fn lemma_percentiles_start_at_the_least(h: HistogramView, values: Seq<u64>, ppm: u32)
    requires
        summarizes(h, values),
        values.len() > 0,
    ensures
        h.min <= h.value_at(ppm),
{
    let wanted = histogram::place(h.count, ppm);
    law_ranks_are_within_the_values(h.count, ppm);
    let at = histogram::reaching(h.counts, 0, wanted);
    lemma_reaching(h.counts, 0, wanted);
    assert(h.min <= values[0] <= h.max);
    if at < BUCKETS {
        lemma_held(h, values, at + 1);
        lemma_first_buckets(values, at);
        let k = lemma_some_at_most(values, buckets::upper(at) as int);
        assert(h.min <= values[k]);
    }
}

/// A summary's percentiles stand in order between its extremes, which are the smallest and the
/// largest value; the summary of no values is all zero.
pub proof fn law_summaries_are_in_order(h: HistogramView, values: Seq<u64>)
    requires
        summarizes(h, values),
    ensures
        ({
            let s = h.summarized();
            &&& s.count == values.len()
            &&& s.min <= s.p50 <= s.p90 <= s.p99 <= s.p999 <= s.max
            &&& values.len() > 0 ==> values.contains(s.min) && values.contains(s.max)
            &&& forall|k: int| 0 <= k < values.len() ==> s.min <= #[trigger] values[k] <= s.max
            &&& values.len() == 0 ==> s == (LatencySummary {
                count: 0,
                sum: 0,
                min: 0,
                p50: 0,
                p90: 0,
                p99: 0,
                p999: 0,
                max: 0,
            })
        }),
{
    if values.len() > 0 {
        lemma_percentiles_start_at_the_least(h, values, 500_000);
        law_percentiles_grow_with_their_share(h, 500_000, 900_000);
        law_percentiles_grow_with_their_share(h, 900_000, 990_000);
        law_percentiles_grow_with_their_share(h, 990_000, 999_000);
    }
}

/// The histogram of these values, recorded in order.
pub open spec fn of_values(values: Seq<u64>) -> HistogramView
    decreases values.len(),
{
    if values.len() == 0 {
        HistogramView::empty()
    } else {
        of_values(values.drop_last()).recorded(values.last())
    }
}

/// Recording values one after the other holds exactly those values.
pub proof fn law_recorded_values_are_held(values: Seq<u64>)
    requires
        values.len() <= u64::MAX,
    ensures
        summarizes(of_values(values), values),
    decreases values.len(),
{
    if values.len() == 0 {
        assert(values =~= Seq::empty());
        law_an_empty_histogram_holds_nothing();
    } else {
        law_recorded_values_are_held(values.drop_last());
        law_recording_adds_the_value(
            of_values(values.drop_last()),
            values.drop_last(),
            values.last(),
        );
        assert(values.drop_last().push(values.last()) =~= values);
    }
}

/// A number cut off at the largest count.
spec fn capped(n: nat) -> nat {
    if n > u64::MAX {
        u64::MAX as nat
    } else {
        n
    }
}

/// What the histogram of some values holds, however many they are.
proof fn lemma_of_values(values: Seq<u64>)
    ensures
        ({
            let h = of_values(values);
            &&& h.counts.len() == BUCKETS
            &&& forall|i: int|
                0 <= i < BUCKETS ==> #[trigger] h.counts[i] == capped(tally(values, i as nat))
            &&& h.count == capped(values.len())
            &&& h.sum == capped(total(values))
            &&& forall|k: int| 0 <= k < values.len() ==> h.min <= #[trigger] values[k] <= h.max
            &&& values.len() == 0 ==> h.max == 0 && h.min == u64::MAX
            &&& values.len() > 0 ==> values.contains(h.max) && values.contains(h.min)
        }),
    decreases values.len(),
{
    if values.len() > 0 {
        let before = values.drop_last();
        let nanos = values.last();
        lemma_of_values(before);
        let (h, now) = (of_values(before), of_values(values));
        buckets::law_buckets_cover_every_value(nanos);
        assert forall|i: int| 0 <= i < BUCKETS implies #[trigger] now.counts[i] == capped(
            tally(values, i as nat),
        ) by {
            assert(h.counts[i] == capped(tally(before, i as nat)));
        }
        assert forall|k: int| 0 <= k < values.len() implies now.min <= #[trigger] values[k]
            <= now.max by {
            if k < before.len() {
                assert(before[k] == values[k]);
            }
        }
        if before.len() > 0 {
            let top = choose|k: int| 0 <= k < before.len() && before[k] == h.max;
            let low = choose|k: int| 0 <= k < before.len() && before[k] == h.min;
            assert(values[top] == h.max && values[low] == h.min);
        }
        assert(values[values.len() - 1] == nanos);
    }
}

/// Rearranged values have the same tallies and the same sum.
proof fn lemma_rearranged(a: Seq<u64>, b: Seq<u64>, index: nat)
    requires
        a.to_multiset() == b.to_multiset(),
    ensures
        a.len() == b.len(),
        tally(a, index) == tally(b, index),
        total(a) == total(b),
    decreases a.len(),
{
    a.to_multiset_ensures();
    b.to_multiset_ensures();
    assert(a.len() == b.len());
    if a.len() > 0 {
        let value = a.last();
        assert(a.contains(value));
        assert(b.to_multiset().count(value) > 0);
        let j = choose|j: int| 0 <= j < b.len() && b[j] == value;
        let (left, right) = (b.take(j), b.skip(j + 1));
        let rest = b.remove(j);
        let one = seq![value];
        assert(b =~= left + one + right);
        assert(rest =~= left + right);
        lemma_joined(left + one, right, index);
        lemma_joined(left, one, index);
        lemma_joined(left, right, index);
        assert(one.drop_last() =~= Seq::<u64>::empty());
        assert(tally(one, index) == tally(Seq::empty(), index) + if buckets::bucket(value as nat)
            == index {
            1nat
        } else {
            0
        });
        assert(total(one) == total(Seq::empty()) + value);
        assert(a.drop_last() =~= a.remove(a.len() - 1));
        assert(a.drop_last().to_multiset() == rest.to_multiset());
        lemma_rearranged(a.drop_last(), rest, index);
        assert(tally(b, index) == tally(rest, index) + tally(one, index));
    }
}

/// The order in which values are recorded does not matter.
pub proof fn law_order_of_recording_does_not_matter(a: Seq<u64>, b: Seq<u64>)
    requires
        a.to_multiset() == b.to_multiset(),
    ensures
        of_values(a) == of_values(b),
        of_values(a).summarized() == of_values(b).summarized(),
{
    broadcast use vstd::seq_lib::group_to_multiset_ensures;

    let (x, y) = (of_values(a), of_values(b));
    lemma_of_values(a);
    lemma_of_values(b);
    lemma_rearranged(a, b, 0);
    assert(x.counts =~= y.counts) by {
        assert forall|i: int| 0 <= i < BUCKETS implies x.counts[i] == y.counts[i] by {
            lemma_rearranged(a, b, i as nat);
        }
    }
    if a.len() > 0 {
        assert(a.to_multiset().count(x.max) > 0 && a.to_multiset().count(x.min) > 0);
        assert(b.to_multiset().count(y.max) > 0 && b.to_multiset().count(y.min) > 0);
        assert(b.contains(x.max) && b.contains(x.min));
        assert(a.contains(y.max) && a.contains(y.min));
    }
}

/// The share that a rank stands for: the rank is the smallest one, from one on, that reaches the
/// requested share of the count.
proof fn lemma_place_reaches_its_share(count: u64, ppm: u32)
    requires
        ppm <= 1_000_000,
    ensures
        histogram::place(count, ppm) * 1_000_000 >= ppm * count,
        histogram::place(count, ppm) >= 1,
        histogram::place(count, ppm) > 1 ==> (histogram::place(count, ppm) - 1) * 1_000_000 < ppm
            * count,
{
    assert(count * (ppm as int) == ppm * count) by (nonlinear_arith);
}

/// A percentile never understates: at least the requested share of the values is at or below it.
/// And it overstates as little as buckets allow: no smaller bucket bound has that share of the
/// values, or any value at all, at or below it, and it is never above the largest value.
pub proof fn law_percentiles_reach_their_share(h: HistogramView, values: Seq<u64>, ppm: u32)
    requires
        summarizes(h, values),
        values.len() > 0,
        ppm <= 1_000_000,
    ensures
        at_most(values, h.value_at(ppm) as int) * 1_000_000 >= ppm * values.len(),
        at_most(values, h.value_at(ppm) as int) >= 1,
        h.value_at(ppm) <= h.max,
        h.value_at(ppm) == h.max || exists|index: nat|
            index < BUCKETS && h.value_at(ppm) == #[trigger] buckets::upper(index),
        forall|index: nat|
            index < BUCKETS && #[trigger] buckets::upper(index) < h.value_at(ppm) ==> at_most(
                values,
                buckets::upper(index) as int,
            ) * 1_000_000 < ppm * values.len() || at_most(values, buckets::upper(index) as int)
                == 0,
{
    let wanted = histogram::place(h.count, ppm);
    lemma_place_reaches_its_share(h.count, ppm);
    law_ranks_are_within_the_values(h.count, ppm);
    let at = histogram::reaching(h.counts, 0, wanted);
    lemma_reaching(h.counts, 0, wanted);
    if at == BUCKETS {
        lemma_held(h, values, BUCKETS as nat);
        lemma_first_buckets(values, (BUCKETS - 1) as nat);
        buckets::law_buckets_cover_every_value(0);
        lemma_at_most(values, 0, u64::MAX as int);
    }
    assert(at < BUCKETS);
    lemma_held(h, values, at + 1);
    lemma_first_buckets(values, at);
    if buckets::upper(at) > h.max {
        lemma_all_at_most(values, h.max as int);
    }
    assert forall|index: nat|
        index < BUCKETS && #[trigger] buckets::upper(index) < h.value_at(ppm) implies at_most(
        values,
        buckets::upper(index) as int,
    ) * 1_000_000 < ppm * values.len() || at_most(values, buckets::upper(index) as int) == 0 by {
        if index >= at {
            if index > at {
                buckets::lemma_bounds_grow(at, index);
                buckets::law_buckets_are_contiguous(index);
            }
        } else {
            lemma_held(h, values, index + 1);
            lemma_first_buckets(values, index);
            lemma_held_grows(h.counts, index + 1, at);
        }
    }
}

/// More buckets hold no fewer values.
proof fn lemma_held_grows(counts: Seq<u64>, a: nat, b: nat)
    requires
        a <= b,
    ensures
        histogram::held(counts, a) <= histogram::held(counts, b),
    decreases b,
{
    if a < b {
        lemma_held_grows(counts, a, (b - 1) as nat);
    }
}

/// All values are at most a bound that none exceeds.
proof fn lemma_all_at_most(values: Seq<u64>, bound: int)
    requires
        forall|k: int| 0 <= k < values.len() ==> #[trigger] values[k] <= bound,
    ensures
        at_most(values, bound) == values.len(),
    decreases values.len(),
{
    if values.len() > 0 {
        let before = values.drop_last();
        assert forall|k: int| 0 <= k < before.len() implies #[trigger] before[k] <= bound by {
            assert(before[k] == values[k]);
        }
        assert(values[values.len() - 1] == values.last());
        lemma_all_at_most(before, bound);
    }
}

/// The whole share is the largest value, and more than the whole is the whole.
pub proof fn law_the_whole_share_is_the_largest_value(h: HistogramView, values: Seq<u64>, ppm: u32)
    requires
        summarizes(h, values),
        values.len() > 0,
        ppm >= 1_000_000,
    ensures
        h.value_at(ppm) == h.max,
{
    law_percentiles_reach_their_share(h, values, 1_000_000);
    assert(h.value_at(ppm) == h.value_at(1_000_000));
    let value = h.value_at(1_000_000);
    let k = choose|k: int| 0 <= k < values.len() && values[k] == h.max;
    if value < h.max {
        lemma_one_is_above(values, k, value as int);
    }
}

proof fn lemma_one_is_above(values: Seq<u64>, k: int, bound: int)
    requires
        0 <= k < values.len(),
        values[k] > bound,
    ensures
        at_most(values, bound) < values.len(),
    decreases values.len(),
{
    let before = values.drop_last();
    if k < before.len() {
        assert(before[k] == values[k]);
        lemma_one_is_above(before, k, bound);
    } else {
        lemma_at_most(before, bound, bound);
    }
}

/// The percentiles of a summary are those of its name.
pub proof fn law_summaries_report_the_shares_they_are_named_after(
    h: HistogramView,
    values: Seq<u64>,
)
    requires
        summarizes(h, values),
        values.len() > 0,
    ensures
        ({
            let s = h.summarized();
            let n = values.len();
            &&& at_most(values, s.p50 as int) * 100 >= 50 * n
            &&& at_most(values, s.p90 as int) * 100 >= 90 * n
            &&& at_most(values, s.p99 as int) * 100 >= 99 * n
            &&& at_most(values, s.p999 as int) * 1000 >= 999 * n
            &&& s.p50 == h.value_at(500_000) && s.p90 == h.value_at(900_000)
            &&& s.p99 == h.value_at(990_000) && s.p999 == h.value_at(999_000)
            &&& s.sum == if total(values) > u64::MAX {
                u64::MAX as nat
            } else {
                total(values)
            }
        }),
{
    law_percentiles_reach_their_share(h, values, 500_000);
    law_percentiles_reach_their_share(h, values, 900_000);
    law_percentiles_reach_their_share(h, values, 990_000);
    law_percentiles_reach_their_share(h, values, 999_000);
}

} // verus!

//! The buckets of a log-linear histogram.
//!
//! Values below [`SUB_BUCKETS`] have a bucket each. Above that, each power of two is split into
//! [`SUB_BUCKETS`] equal buckets, so a value is placed in a bucket at most `1 / SUB_BUCKETS`
//! (about 3%) wider than the value itself.

use vstd::arithmetic::power2;
use vstd::prelude::*;
use vstd::std_specs::bits;

verus! {

/// Sub-buckets per power of two, as a power of two.
pub const SUB_BITS: u32 = 5;

/// Sub-buckets per power of two. Also the number of values counted exactly.
pub const SUB_BUCKETS: u64 = 32;

/// Total buckets: one exact group, then one group per power of two from `2^5` to `2^63`.
pub const BUCKETS: usize = 1920;

/// The bucket of a value. Halving a value moves it down by one group.
pub open spec fn bucket(value: nat) -> nat
    decreases value,
{
    if value < 64 {
        value
    } else {
        32 + bucket(value / 2)
    }
}

/// The smallest value in a bucket.
pub open spec fn lower(index: nat) -> nat
    decreases index,
{
    if index < 64 {
        index
    } else {
        2 * lower((index - 32) as nat)
    }
}

/// The largest value in a bucket.
pub open spec fn upper(index: nat) -> nat
    decreases index,
{
    if index < 64 {
        index
    } else {
        2 * upper((index - 32) as nat) + 1
    }
}

/// A value lies in its bucket.
pub proof fn lemma_in_bucket(value: nat)
    ensures
        lower(bucket(value)) <= value <= upper(bucket(value)),
    decreases value,
{
    if value >= 64 {
        lemma_in_bucket(value / 2);
        lemma_bucket_grows(32, value / 2);
    }
}

/// Larger values are in no earlier bucket.
pub proof fn lemma_bucket_grows(a: nat, b: nat)
    requires
        a <= b,
    ensures
        bucket(a) <= bucket(b),
    decreases b,
{
    if b >= 64 {
        if a >= 64 {
            lemma_bucket_grows(a / 2, b / 2);
        } else {
            lemma_bucket_grows(32, b / 2);
        }
    }
}

/// Each bucket starts right after the one before it ends.
pub proof fn law_buckets_are_contiguous(index: nat)
    ensures
        upper(index) + 1 == lower(index + 1),
        lower(index) <= upper(index),
    decreases index,
{
    reveal_with_fuel(lower, 2);
    if index >= 64 {
        law_buckets_are_contiguous((index - 32) as nat);
    }
}

/// Later buckets hold larger values.
pub proof fn lemma_bounds_grow(a: nat, b: nat)
    requires
        a < b,
    ensures
        upper(a) < lower(b),
    decreases b,
{
    law_buckets_are_contiguous((b - 1) as nat);
    if a < b - 1 {
        lemma_bounds_grow(a, (b - 1) as nat);
        law_buckets_are_contiguous((b - 1) as nat);
    }
}

/// A value belongs to one bucket: the one whose bounds it lies between.
pub proof fn law_buckets_tell_values_apart(value: nat, index: nat)
    ensures
        bucket(value) == index <==> lower(index) <= value <= upper(index),
{
    lemma_in_bucket(value);
    let own = bucket(value);
    if own < index {
        lemma_bounds_grow(own, index);
    } else if index < own {
        lemma_bounds_grow(index, own);
    }
}

/// Small values are counted exactly.
pub proof fn law_small_values_are_exact(value: nat)
    requires
        value < 32,
    ensures
        bucket(value) == value,
        upper(value) == value,
{
}

/// Above the exact values a bucket is at most a 32nd as wide as its smallest value.
proof fn lemma_width(index: nat)
    requires
        index >= 32,
    ensures
        32 * (upper(index) - lower(index) + 1) <= lower(index),
    decreases index,
{
    if index >= 64 {
        lemma_width((index - 32) as nat);
    }
}

/// The upper bound of a value's bucket never understates the value, and overstates it by at
/// most a 32nd.
pub proof fn law_relative_error_is_bounded(value: nat)
    ensures
        value <= upper(bucket(value)),
        upper(bucket(value)) - value <= value / 32,
{
    lemma_in_bucket(value);
    if value >= 64 {
        lemma_bucket_grows(64, value);
        lemma_width(bucket(value));
    }
}

/// The buckets cover every value: the last one ends at the largest.
pub proof fn law_buckets_cover_every_value(value: u64)
    ensures
        bucket(value as nat) < BUCKETS,
        upper((BUCKETS - 1) as nat) == u64::MAX,
{
    lemma_top(58);
    power2::lemma2_to64_rest();
    law_buckets_tell_values_apart(u64::MAX as nat, 1919);
    lemma_bucket_grows(value as nat, u64::MAX as nat);
}

/// The last bucket of a group ends before a power of two.
proof fn lemma_top(group: nat)
    ensures
        upper(63 + 32 * group) == 64 * power2::pow2(group) - 1,
        lower(63 + 32 * group) == 63 * power2::pow2(group),
    decreases group,
{
    if group == 0 {
        power2::lemma2_to64();
    } else {
        lemma_top((group - 1) as nat);
        power2::lemma_pow2_unfold(group);
        assert(63 + 32 * group - 32 == 63 + 32 * (group - 1));
    }
}

/// How far a value is shifted to lie among the sub-buckets, and its bucket in terms of that.
proof fn lemma_shift(value: u64)
    requires
        value >= 32,
    ensures
        0 <= 58 - bits::u64_leading_zeros(value) <= 58,
        ({
            let shift = (58 - bits::u64_leading_zeros(value)) as nat;
            &&& 32 <= value as nat / power2::pow2(shift) < 64
            &&& bucket(value as nat) == 32 * shift + value as nat / power2::pow2(shift)
        }),
    decreases value,
{
    if value < 64 {
        reveal_with_fuel(bits::u64_leading_zeros, 8);
        power2::lemma2_to64();
        assert(bits::u64_leading_zeros(value) == 58);
        vstd::arithmetic::div_mod::lemma_div_basics(value as int);
    } else {
        let half = (value / 2) as u64;
        lemma_shift(half);
        reveal(bits::u64_leading_zeros);
        let shift = (58 - bits::u64_leading_zeros(half)) as nat;
        bits::axiom_u64_leading_zeros(value);
        power2::lemma_pow2_pos(shift);
        power2::lemma_pow2_unfold(shift + 1);
        vstd::arithmetic::div_mod::lemma_div_denominator(value as int, 2, power2::pow2(shift) as int);
        assert(58 - bits::u64_leading_zeros(value) == shift + 1);
        assert(value as nat / power2::pow2(shift + 1) == half as nat / power2::pow2(shift));
        assert(value as nat / 2 == half as nat);
    }
}

/// Bucket index of a value.
pub fn bucket_of(value: u64) -> (r: usize)
    ensures
        r == bucket(value as nat),
        r < BUCKETS,
{
    proof {
        law_buckets_cover_every_value(value);
    }
    if value < SUB_BUCKETS {
        return value as usize;
    }
    proof {
        lemma_shift(value);
    }
    let top: u32 = 63 - value.leading_zeros();
    let shift: u32 = top - SUB_BITS;
    proof {
        vstd::bits::lemma_u64_shr_is_div(value, shift as u64);
    }
    let group: u64 = shift as u64 + 1;
    let sub: u64 = (value >> shift) - SUB_BUCKETS;
    (group * SUB_BUCKETS + sub) as usize
}

/// The largest value of a bucket, in terms of its group and its place in it.
proof fn lemma_upper(group: nat, sub: nat)
    requires
        1 <= group,
        sub < 32,
    ensures
        lower(32 * group + sub) == (32 + sub) * power2::pow2((group - 1) as nat),
        upper(32 * group + sub) == (33 + sub) * power2::pow2((group - 1) as nat) - 1,
    decreases group,
{
    if group == 1 {
        power2::lemma2_to64();
    } else {
        lemma_upper((group - 1) as nat, sub);
        let p = power2::pow2((group - 2) as nat);
        power2::lemma_pow2_unfold((group - 1) as nat);
        assert(32 * group + sub - 32 == 32 * (group - 1) + sub);
        assert((32 + sub) * (2 * p) == 2 * ((32 + sub) * p)) by (nonlinear_arith);
        assert((33 + sub) * (2 * p) == 2 * ((33 + sub) * p)) by (nonlinear_arith);
    }
}

/// Largest value that falls in bucket `index`.
pub fn upper_bound(index: usize) -> (r: u64)
    ensures
        r == if index >= BUCKETS {
            u64::MAX as nat
        } else {
            upper(index as nat)
        },
{
    if index >= BUCKETS {
        return u64::MAX;
    }
    if (index as u64) < SUB_BUCKETS {
        return index as u64;
    }
    let group: u64 = index as u64 / SUB_BUCKETS;
    let sub: u64 = index as u64 % SUB_BUCKETS;
    let shift: u64 = group - 1;
    proof {
        let p = power2::pow2(shift as nat);
        lemma_upper(group as nat, sub as nat);
        law_buckets_cover_every_value(0);
        if index < BUCKETS - 1 {
            lemma_bounds_grow(index as nat, (BUCKETS - 1) as nat);
            law_buckets_are_contiguous((BUCKETS - 1) as nat);
        }
        law_buckets_are_contiguous(index as nat);
        power2::lemma_pow2_pos(shift as nat);
        assert((33 + sub) * p == (32 + sub) * p + p) by (nonlinear_arith);
        assert(1 * p <= (32 + sub) * p) by (nonlinear_arith)
            requires
                0 <= sub,
                0 < p,
        ;
        vstd::bits::lemma_u64_shl_is_mul((SUB_BUCKETS + sub) as u64, shift);
        vstd::bits::lemma_u64_shl_is_mul(1, shift);
    }
    let low: u64 = (SUB_BUCKETS + sub) << shift;
    let width: u64 = 1u64 << shift;
    low + (width - 1)
}

} // verus!

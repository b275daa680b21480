//! What parsing, arithmetic and rounding of decimals promise, number by number.

use crate::ascii;
use crate::fixed::{self, Dec, Decimal, FixedError, Rounding};
use crate::fixed_laws;
use crate::text;
use std::cmp::Ordering;
use vstd::prelude::*;
use vstd::std_specs::cmp::{PartialEqSpec, PartialOrdSpec};

verus! {

/// A value as a whole number of the finer of two decimal places.
pub open spec fn numerator(value: Decimal, increment: Decimal) -> int {
    if value.scale >= increment.scale {
        value.mantissa
    } else {
        value.mantissa * fixed::pow10((increment.scale - value.scale) as nat)
    }
}

/// An increment as a whole number of the finer of two decimal places.
pub open spec fn denominator(value: Decimal, increment: Decimal) -> int {
    if value.scale >= increment.scale {
        increment.mantissa * fixed::pow10((value.scale - increment.scale) as nat)
    } else {
        increment.mantissa
    }
}

/// An increment is a positive number that fits in 64 bits, with at most eighteen decimal places,
/// written as short as it can be.
pub proof fn law_increments_are_short_positive_numbers(d: Decimal)
    ensures
        d.is_increment() <==> {
            &&& 0 < d.mantissa <= 0x7fff_ffff_ffff_ffff
            &&& d.scale <= 18
            &&& d.scale > 0 ==> d.mantissa % 10 != 0
        },
{
}

/// A number of increments is an error only where it has to be. Where both numbers can be written
/// with the finer of their decimal places, rounding down gives the last whole number that is not
/// above the value, rounding up the first that is not below it, and asking for an exact one gives
/// it where there is one and says that there is none otherwise. A result that does not fit in 64
/// bits overflows.
pub proof fn law_rounding_goes_to_the_neighbour(value: Decimal, inc: Decimal, units: int)
    requires
        inc.is_increment(),
    ensures
        ({
            let num = numerator(value, inc);
            let den = denominator(value, inc);
            let fits = -0x8000_0000_0000_0000_0000_0000_0000_0000 <= num
                <= 0x7fff_ffff_ffff_ffff_ffff_ffff_ffff_ffff && den
                <= 0x7fff_ffff_ffff_ffff_ffff_ffff_ffff_ffff;
            let result = if -0x8000_0000_0000_0000 <= units <= 0x7fff_ffff_ffff_ffff {
                Ok::<int, FixedError>(units)
            } else {
                Err::<int, FixedError>(FixedError::Overflow)
            };
            &&& !fits ==> forall|rounding: Rounding| #[trigger]
                value.in_units(inc, rounding) == Err::<int, FixedError>(FixedError::Overflow)
            &&& fits && units * den <= num < (units + 1) * den ==> value.in_units(
                inc,
                Rounding::Down,
            ) == result
            &&& fits && (units - 1) * den < num <= units * den ==> value.in_units(
                inc,
                Rounding::Up,
            ) == result
            &&& fits && num == units * den ==> value.in_units(inc, Rounding::Exact) == result
            &&& fits && units * den < num < (units + 1) * den ==> value.in_units(
                inc,
                Rounding::Exact,
            ) == Err::<int, FixedError>(FixedError::NotMultiple)
        }),
{
    let num = numerator(value, inc);
    let den = denominator(value, inc);
    assert(fixed::pow10(0) == 1);
    fixed::lemma_pow10_add((value.scale - inc.scale) as nat, 0);
    let common = if value.scale > inc.scale {
        value.scale
    } else {
        inc.scale
    };
    assert(value.mantissa * 1 == value.mantissa && inc.mantissa * 1 == inc.mantissa);
    assert(num == value.mantissa_at(common));
    assert(den == inc.mantissa_at(common));
    assert(den > 0) by {
        if value.scale >= inc.scale {
            let p = fixed::pow10((value.scale - inc.scale) as nat) as int;
            assert(inc.mantissa * p > 0) by (nonlinear_arith)
                requires
                    inc.mantissa > 0,
                    p > 0,
            ;
        }
    }
    vstd::arithmetic::div_mod::lemma_fundamental_div_mod(num, den);
    let q = num / den;
    let r = num % den;
    if units * den <= num < (units + 1) * den {
        assert(units == q && num - units * den == r) by (nonlinear_arith)
            requires
                units * den <= num < (units + 1) * den,
                num == den * q + r,
                0 <= r < den,
        ;
    }
    if (units - 1) * den < num <= units * den {
        assert(if r == 0 {
            units == q
        } else {
            units == q + 1
        }) by (nonlinear_arith)
            requires
                (units - 1) * den < num <= units * den,
                num == den * q + r,
                0 <= r < den,
        ;
    }
    if num == units * den {
        assert(units == q && r == 0) by (nonlinear_arith)
            requires
                num == units * den,
                num == den * q + r,
                0 <= r < den,
        ;
    }
}

/// A product is exact, and it is refused only where no decimal holds it: where its digits do not
/// fit, or else where it has more than thirty-six decimal places.
pub proof fn law_products_are_exact(a: Decimal, b: Decimal)
    ensures
        ({
            let product = a.mantissa * b.mantissa;
            let fits = -0x8000_0000_0000_0000_0000_0000_0000_0000 <= product
                <= 0x7fff_ffff_ffff_ffff_ffff_ffff_ffff_ffff;
            &&& !fits ==> a.times(b) == Err::<Decimal, FixedError>(FixedError::Overflow)
            &&& fits && a.scale + b.scale > 36 ==> a.times(b) == Err::<Decimal, FixedError>(
                FixedError::ScaleTooLarge,
            )
            &&& fits && a.scale + b.scale <= 36 ==> {
                &&& a.times(b) is Ok
                &&& a.times(b)->Ok_0.mantissa == product
                &&& a.times(b)->Ok_0.scale == a.scale + b.scale
            }
            &&& a.times(b) == b.times(a)
        }),
{
    assert(a.mantissa * b.mantissa == b.mantissa * a.mantissa) by (nonlinear_arith);
}

/// Numbers compare as their mantissas do once both are written with the same number of decimal
/// places, whatever that number is.
pub proof fn law_order_is_that_of_the_values(a: Decimal, b: Decimal, scale: nat)
    requires
        a.scale <= scale,
        b.scale <= scale,
    ensures
        ({
            let x = a.mantissa * fixed::pow10((scale - a.scale) as nat);
            let y = b.mantissa * fixed::pow10((scale - b.scale) as nat);
            &&& a.less(b) <==> x < y
            &&& a.same(b) <==> x == y
        }),
{
    let (m, n) = (a.mantissa, b.mantissa);
    let p = fixed::pow10(a.scale) as int;
    let q = fixed::pow10(b.scale) as int;
    let u = fixed::pow10((scale - a.scale) as nat) as int;
    let v = fixed::pow10((scale - b.scale) as nat) as int;
    fixed::lemma_pow10_add(a.scale, (scale - a.scale) as nat);
    fixed::lemma_pow10_add(b.scale, (scale - b.scale) as nat);
    fixed::lemma_pow10_add((scale - a.scale) as nat, 0);
    let all = p * u;
    assert(all == q * v);
    assert(all > 0) by (nonlinear_arith)
        requires
            all == p * u,
            p > 0,
            u > 0,
    ;
    // Both comparisons, each scaled by a positive factor, meet in one.
    let (left, right) = ((m * q) * all, (n * p) * all);
    assert(left == (m * u) * (p * q)) by (nonlinear_arith)
        requires
            left == (m * q) * all,
            all == p * u,
    ;
    assert(right == (n * v) * (p * q)) by (nonlinear_arith)
        requires
            right == (n * p) * all,
            all == q * v,
    ;
    let k = p * q;
    assert(k > 0) by (nonlinear_arith)
        requires
            k == p * q,
            p > 0,
            q > 0,
    ;
    let (x, y) = (m * u, n * v);
    assert((x < y) == (left < right) && (x == y) == (left == right)) by (nonlinear_arith)
        requires
            left == x * k,
            right == y * k,
            k > 0,
    ;
    let (c, d) = (m * q, n * p);
    assert((c < d) == (left < right) && (c == d) == (left == right)) by (nonlinear_arith)
        requires
            left == c * all,
            right == d * all,
            all > 0,
    ;
}

/// Whether every byte is a digit.
pub open spec fn all_digits(bytes: Seq<u8>) -> bool {
    forall|i: int| 0 <= i < bytes.len() ==> 0x30 <= #[trigger] bytes[i] <= 0x39
}

/// Digits spell the same number by either name.
proof fn lemma_same_value(digits: Seq<u8>)
    requires
        all_digits(digits),
    ensures
        fixed::digits_value(digits) == text::decimal_value(digits),
    decreases digits.len(),
{
    if digits.len() > 0 {
        assert(digits[digits.len() - 1] == digits.last());
        assert forall|i: int| 0 <= i < digits.drop_last().len() implies 0x30
            <= #[trigger] digits.drop_last()[i] <= 0x39 by {
            assert(digits.drop_last()[i] == digits[i]);
        }
        lemma_same_value(digits.drop_last());
    }
}

/// The text of a number in parts: a minus sign or not, the digits before the point, and those
/// after it, with no point where there are none.
pub open spec fn written(negative: bool, whole: Seq<u8>, part: Seq<u8>) -> Seq<u8> {
    let sign = if negative {
        seq![0x2du8]
    } else {
        Seq::empty()
    };
    if part.len() == 0 {
        sign + whole
    } else {
        sign + whole + seq![0x2eu8] + part
    }
}

/// Digits with at most one point among them and a minus sign in front or not are a number, of
/// exactly those digits and with as many decimal places as follow the point, as long as there are
/// no more than eighteen of them and the digits fit.
pub proof fn law_plain_numbers_are_parsed(negative: bool, whole: Seq<u8>, part: Seq<u8>)
    requires
        all_digits(whole),
        all_digits(part),
        whole.len() > 0,
        part.len() <= 18,
        text::decimal_value(whole + part) <= 0x7fff_ffff_ffff_ffff_ffff_ffff_ffff_ffff,
    ensures
        ({
            let read = fixed::parse_text(written(negative, whole, part));
            &&& read is Ok
            &&& read->Ok_0.scale == part.len()
            &&& !negative ==> read->Ok_0.mantissa == text::decimal_value(whole + part)
            &&& negative ==> read->Ok_0.mantissa == -text::decimal_value(whole + part)
        }),
{
    let t = written(negative, whole, part);
    let all = whole + part;
    let sign: int = if negative {
        1
    } else {
        0
    };
    assert(all_digits(all)) by {
        assert forall|i: int| 0 <= i < all.len() implies 0x30 <= #[trigger] all[i] <= 0x39 by {
            if i < whole.len() {
                assert(all[i] == whole[i]);
            } else {
                assert(all[i] == part[i - whole.len()]);
            }
        }
    }
    lemma_same_value(all);
    assert(t[sign] == whole[0]);
    assert(fixed::sign_len(t) == sign);
    let body = t.subrange(sign, t.len() as int);
    if part.len() == 0 {
        assert(body =~= whole);
    } else {
        assert(body =~= whole + seq![ascii::POINT] + part);
    }
    fixed_laws::lemma_parsed_digits(t, sign, whole, part);
}

/// A byte before which nothing was refused was not refused itself.
proof fn lemma_each_accepted(t: Seq<u8>, n: int, i: int)
    requires
        fixed::first_fault(t, n) is None,
        fixed::sign_len(t) <= i < n,
    ensures
        fixed::byte_fault(t, i) is None,
    decreases n,
{
    if i < n - 1 {
        lemma_each_accepted(t, n - 1, i);
    }
}

/// Whatever is parsed is digits with at most one point among them, after a minus sign or not.
/// There are digits on both sides of the point, no more than eighteen behind it, and the sign of
/// the number is that of the text.
pub proof fn law_only_plain_numbers_are_parsed(t: Seq<u8>)
    requires
        fixed::parse_text(t) is Ok,
    ensures
        ({
            let d = fixed::parse_text(t)->Ok_0;
            let sign: int = if t[0] == 0x2d {
                1
            } else {
                0
            };
            &&& t.len() > sign
            &&& forall|i: int|
                sign <= i < t.len() ==> 0x30 <= #[trigger] t[i] <= 0x39 || t[i] == 0x2e
            &&& 0x30 <= t[sign] <= 0x39
            &&& 0x30 <= t[t.len() - 1] <= 0x39
            &&& forall|i: int, j: int|
                sign <= i < j < t.len() && #[trigger] t[i] == 0x2e ==> #[trigger] t[j] != 0x2e
            &&& d.scale <= 18
            &&& sign == 1 ==> d.mantissa <= 0
            &&& sign == 0 ==> d.mantissa >= 0
            &&& -0x7fff_ffff_ffff_ffff_ffff_ffff_ffff_ffff <= d.mantissa
                <= 0x7fff_ffff_ffff_ffff_ffff_ffff_ffff_ffff
        }),
{
    let sign = fixed::sign_len(t);
    let n = t.len() as int;
    assert forall|i: int| sign <= i < n implies 0x30 <= #[trigger] t[i] <= 0x39 || t[i] == 0x2e by {
        lemma_each_accepted(t, n, i);
    }
    lemma_each_accepted(t, n, sign);
    lemma_each_accepted(t, n, n - 1);
    assert forall|i: int, j: int|
        sign <= i < j < n && #[trigger] t[i] == 0x2e implies #[trigger] t[j] != 0x2e by {
        lemma_each_accepted(t, n, j);
        assert(t.subrange(sign, j)[i - sign] == 0x2e);
    }
    assert(t.subrange(sign, n).last() == t[n - 1]);
}

/// Text is refused for what is wrong with it. It is empty where there is nothing but a sign, a
/// character is named that is not a digit, and what is too long has too many digits.
pub proof fn law_refused_text_is_no_number(t: Seq<u8>)
    requires
        fixed::parse_text(t) is Err,
        t.len() <= usize::MAX,
    ensures
        ({
            let sign: int = if t.len() > 0 && t[0] == 0x2d {
                1
            } else {
                0
            };
            match fixed::parse_text(t)->Err_0 {
                FixedError::Empty => t.len() == sign,
                FixedError::InvalidChar(i) => {
                    &&& sign <= i < t.len()
                    &&& !(0x30 <= t[i as int] <= 0x39)
                    &&& t[i as int] == 0x2e ==> i == sign || i == t.len() - 1 || exists|k: int|
                        sign <= k < i && #[trigger] t[k] == 0x2e
                },
                FixedError::Overflow => fixed::digits_value(t)
                    > 0x7fff_ffff_ffff_ffff_ffff_ffff_ffff_ffff,
                FixedError::TooManyDecimals => fixed::decimals(t) > 18,
                _ => false,
            }
        }),
{
    let sign = fixed::sign_len(t);
    let n = t.len() as int;
    if fixed::first_fault(t, n) is Some {
        let i = fixed_laws::lemma_first_refused(t, n);
        let before = t.subrange(sign, i);
        let upto = t.subrange(sign, i + 1);
        assert(t.skip(sign).take(i + 1 - sign) =~= upto);
        fixed_laws::lemma_prefix_is_less(t.skip(sign), i + 1 - sign);
        assert(t.take(sign) + t.skip(sign) =~= t);
        fixed_laws::lemma_sign_is_no_digit(t);
        if before.contains(ascii::POINT) {
            let k = choose|k: int| 0 <= k < before.len() && before[k] == ascii::POINT;
            assert(t[sign + k] == 0x2e);
        }
    } else {
        assert(t.subrange(sign, n).len() > 0 ==> t.subrange(sign, n).last() == t[n - 1]);
    }
}

/// A number is written with a minus sign exactly when it is negative, all its decimal places, and
/// no zero in front of another digit.
pub proof fn law_numbers_are_written_plainly(d: Decimal)
    ensures
        ({
            let t = fixed::dec_text(d);
            let sign: int = if d.mantissa < 0 {
                1
            } else {
                0
            };
            let whole = t.len() - sign - if d.scale == 0 {
                0int
            } else {
                d.scale as int + 1
            };
            &&& whole >= 1
            &&& sign == 1 ==> t[0] == 0x2d
            &&& forall|i: int|
                sign <= i < t.len() && i != sign + whole ==> 0x30 <= #[trigger] t[i] <= 0x39
            &&& d.scale > 0 ==> t[sign + whole] == 0x2e
            &&& whole > 1 ==> t[sign] != 0x30
        }),
{
    let n = fixed::magnitude(d.mantissa);
    let all = text::digits(n, d.scale + 1);
    text::lemma_digits_spell(n, d.scale + 1);
    text::law_numbers_have_no_needless_zeros(n, d.scale + 1);
    let t = fixed::dec_text(d);
    let sign: int = if d.mantissa < 0 {
        1
    } else {
        0
    };
    let whole = all.len() - d.scale;
    assert forall|i: int| sign <= i < t.len() && i != sign + whole implies 0x30 <= #[trigger] t[i]
        <= 0x39 by {
        if i < sign + whole {
            assert(t[i] == all[i - sign]);
        } else {
            assert(t[i] == all[i - sign - 1]);
        }
    }
    assert(t[sign] == all[0]);
}

/// Decimals compare by value: `==` whatever their scales, and `<` as the numbers do.
pub proof fn law_decimals_compare_by_value(a: Dec, b: Dec)
    ensures
        a.eq_spec(&b) <==> a@.same(b@),
        a.partial_cmp_spec(&b) == Some(Ordering::Less) <==> a@.less(b@),
        a.partial_cmp_spec(&b) == Some(Ordering::Equal) <==> a@.same(b@),
        a.partial_cmp_spec(&b) == Some(Ordering::Greater) <==> b@.less(a@),
        a.partial_cmp_spec(&b) is Some,
{
    fixed_laws::law_values_are_totally_ordered(a@, b@, a@);
}

} // verus!

//! What decimals and increments promise as a whole.

use crate::ascii;
use crate::fixed::{self, Decimal, FixedError, Increment, Rounding};
use crate::text;
use vstd::prelude::*;

verus! {

/// Padded digits are digits, and spell the number.
proof fn lemma_digits_spell(n: nat, width: nat)
    ensures
        fixed::digits_value(text::digits(n, width)) == n,
        forall|i: int|
            0 <= i < text::digits(n, width).len() ==> fixed::is_digit(
                #[trigger] text::digits(n, width)[i],
            ),
        text::digits(n, width).len() >= width,
    decreases n, width,
{
    if !(n == 0 && width == 0) {
        let shorter: nat = if width == 0 {
            0
        } else {
            (width - 1) as nat
        };
        lemma_digits_spell(n / 10, shorter);
        let head = text::digits(n / 10, shorter);
        let whole = text::digits(n, width);
        assert(whole == head.push((ascii::ZERO + n % 10) as u8));
        assert(whole.drop_last() =~= head);
        assert(whole.last() == ascii::ZERO + n % 10);
    }
}

/// A prefix spells no more than the whole, and has no more decimals.
pub(crate) proof fn lemma_prefix_is_less(text: Seq<u8>, n: int)
    requires
        0 <= n <= text.len(),
    ensures
        fixed::digits_value(text.take(n)) <= fixed::digits_value(text),
        fixed::decimals(text.take(n)) <= fixed::decimals(text),
    decreases text.len(),
{
    if n == text.len() {
        assert(text.take(n) =~= text);
    } else {
        let head = text.drop_last();
        assert(head.take(n) =~= text.take(n));
        lemma_prefix_is_less(head, n);
    }
}

/// A point between digits changes nothing but the number of decimals.
proof fn lemma_point(a: Seq<u8>, b: Seq<u8>)
    requires
        !a.contains(ascii::POINT),
        forall|i: int| 0 <= i < a.len() ==> fixed::is_digit(#[trigger] a[i]),
        forall|i: int| 0 <= i < b.len() ==> fixed::is_digit(#[trigger] b[i]),
    ensures
        fixed::digits_value(a + seq![ascii::POINT] + b) == fixed::digits_value(a + b),
        fixed::decimals(a + seq![ascii::POINT] + b) == b.len(),
    decreases b.len(),
{
    let dotted = a + seq![ascii::POINT];
    if b.len() == 0 {
        assert(dotted + b =~= dotted);
        assert(a + b =~= a);
        assert(dotted.drop_last() =~= a);
        lemma_no_decimals(a);
    } else {
        let head = b.drop_last();
        assert((dotted + b).drop_last() =~= dotted + head);
        assert((a + b).drop_last() =~= a + head);
        assert((dotted + head)[a.len() as int] == ascii::POINT);
        assert(b[b.len() - 1] == b.last());
        lemma_point(a, head);
    }
}

/// Without a point there are no decimals.
proof fn lemma_no_decimals(text: Seq<u8>)
    requires
        !text.contains(ascii::POINT),
    ensures
        fixed::decimals(text) == 0,
    decreases text.len(),
{
    if text.len() > 0 {
        let head = text.drop_last();
        assert(!head.contains(ascii::POINT)) by {
            if head.contains(ascii::POINT) {
                let k = choose|k: int| 0 <= k < head.len() && head[k] == ascii::POINT;
                assert(text[k] == ascii::POINT);
            }
        }
        lemma_no_decimals(head);
    }
}

/// Text made of digits, with at most one point inside, meets no refusal.
proof fn lemma_clean_text(text: Seq<u8>, n: int, point: int)
    requires
        fixed::sign_len(text) <= n <= text.len(),
        point == text.len() || fixed::sign_len(text) < point < text.len() && text[point]
            == ascii::POINT,
        forall|i: int|
            fixed::sign_len(text) <= i < text.len() && i != point ==> fixed::is_digit(
                #[trigger] text[i],
            ),
        fixed::digits_value(text.subrange(fixed::sign_len(text), text.len() as int)) <= i128::MAX,
        fixed::decimals(text.subrange(fixed::sign_len(text), text.len() as int))
            <= fixed::MAX_PARSE_SCALE,
    ensures
        fixed::first_fault(text, n) is None,
    decreases n,
{
    let s = fixed::sign_len(text);
    if n > s {
        lemma_clean_text(text, n - 1, point);
        let body = text.subrange(s, text.len() as int);
        let before = text.subrange(s, n - 1);
        let upto = text.subrange(s, n);
        assert(body.take(n - s) =~= upto);
        lemma_prefix_is_less(body, n - s);
        if n - 1 == point {
            assert(!before.contains(ascii::POINT)) by {
                if before.contains(ascii::POINT) {
                    let k = choose|k: int| 0 <= k < before.len() && before[k] == ascii::POINT;
                    assert(fixed::is_digit(text[s + k]));
                }
            }
        } else {
            assert(fixed::is_digit(text[n - 1]));
        }
    }
}

/// What digits before and after a point are parsed as.
pub(crate) proof fn lemma_parsed_digits(t: Seq<u8>, sign: int, a: Seq<u8>, b: Seq<u8>)
    requires
        0 <= sign <= t.len(),
        sign == fixed::sign_len(t),
        t.subrange(sign, t.len() as int) == if b.len() == 0 {
            a
        } else {
            a + seq![ascii::POINT] + b
        },
        a.len() > 0,
        b.len() <= 18,
        forall|i: int| 0 <= i < a.len() ==> fixed::is_digit(#[trigger] a[i]),
        forall|i: int| 0 <= i < b.len() ==> fixed::is_digit(#[trigger] b[i]),
        fixed::digits_value(a + b) <= i128::MAX,
    ensures
        fixed::parse_text(t) == Ok::<Decimal, FixedError>(
            Decimal {
                mantissa: if sign == 1 {
                    -fixed::digits_value(a + b)
                } else {
                    fixed::digits_value(a + b) as int
                },
                scale: b.len(),
            },
        ),
{
    let body = t.subrange(sign, t.len() as int);
    assert(!a.contains(ascii::POINT)) by {
        if a.contains(ascii::POINT) {
            let k = choose|k: int| 0 <= k < a.len() && a[k] == ascii::POINT;
            assert(fixed::is_digit(a[k]));
        }
    }
    lemma_point(a, b);
    lemma_no_decimals(a);
    if b.len() == 0 {
        assert(a + b =~= a);
        assert forall|i: int| sign <= i < t.len() implies fixed::is_digit(#[trigger] t[i]) by {
            assert(t[i] == body[i - sign]);
        }
        lemma_clean_text(t, t.len() as int, t.len() as int);
        assert(fixed::is_digit(a[a.len() - 1]));
    } else {
        let point = sign + a.len();
        assert(t[point] == body[a.len() as int]);
        assert forall|i: int| sign <= i < t.len() && i != point implies fixed::is_digit(
            #[trigger] t[i],
        ) by {
            assert(t[i] == body[i - sign]);
            if i < point {
                assert(t[i] == a[i - sign]);
            } else {
                assert(t[i] == b[i - point - 1]);
            }
        }
        lemma_clean_text(t, t.len() as int, point);
        assert(fixed::is_digit(b[b.len() - 1]));
    }
}

/// The byte that text is refused for.
pub(crate) proof fn lemma_first_refused(t: Seq<u8>, n: int) -> (i: int)
    requires
        n <= t.len(),
        fixed::first_fault(t, n) is Some,
    ensures
        fixed::sign_len(t) <= i < n,
        fixed::byte_fault(t, i) == fixed::first_fault(t, n),
    decreases n,
{
    if fixed::first_fault(t, n - 1) is Some {
        lemma_first_refused(t, n - 1)
    } else {
        n - 1
    }
}

/// A sign adds nothing to what digits spell.
pub(crate) proof fn lemma_sign_is_no_digit(t: Seq<u8>)
    ensures
        fixed::digits_value(t.skip(fixed::sign_len(t))) == fixed::digits_value(t),
        fixed::decimals(t.skip(fixed::sign_len(t))) == fixed::decimals(t),
    decreases t.len(),
{
    let sign = fixed::sign_len(t);
    if sign == 0 {
        assert(t.skip(0) =~= t);
    } else if t.len() == 1 {
        assert(t.skip(1) =~= Seq::<u8>::empty());
        assert(t.drop_last() =~= Seq::<u8>::empty());
    } else {
        let head = t.drop_last();
        let rest = t.skip(1);
        lemma_sign_is_no_digit(head);
        assert(rest.drop_last() =~= head.skip(1));
        assert(head.contains(ascii::POINT) <==> rest.drop_last().contains(ascii::POINT)) by {
            if head.contains(ascii::POINT) {
                let k = choose|k: int| 0 <= k < head.len() && head[k] == ascii::POINT;
                assert(head.skip(1)[k - 1] == ascii::POINT);
            }
            if head.skip(1).contains(ascii::POINT) {
                let k = choose|k: int|
                    0 <= k < head.skip(1).len() && head.skip(1)[k] == ascii::POINT;
                assert(head[k + 1] == ascii::POINT);
            }
        }
    }
}

/// Writing a number and parsing the text gives the same mantissa and scale back. Parsing takes
/// no more than [`fixed::MAX_PARSE_SCALE`] decimals, and no magnitude above `i128::MAX`.
pub proof fn law_text_round_trips(d: Decimal)
    requires
        d.wf(),
        d.scale <= 18,
        d.mantissa > i128::MIN,
    ensures
        fixed::parse_text(fixed::dec_text(d)) == Ok::<Decimal, FixedError>(d),
{
    let n = fixed::magnitude(d.mantissa);
    let all = text::digits(n, d.scale + 1);
    lemma_digits_spell(n, d.scale + 1);
    let whole = all.len() - d.scale;
    let t = fixed::dec_text(d);
    let sign: int = if d.mantissa < 0 {
        1
    } else {
        0
    };
    let a = all.take(whole);
    let b = all.skip(whole);
    assert(!all.contains(ascii::POINT)) by {
        if all.contains(ascii::POINT) {
            let k = choose|k: int| 0 <= k < all.len() && all[k] == ascii::POINT;
            assert(fixed::is_digit(all[k]));
        }
    }
    assert(!a.contains(ascii::POINT)) by {
        if a.contains(ascii::POINT) {
            let k = choose|k: int| 0 <= k < a.len() && a[k] == ascii::POINT;
            assert(all[k] == ascii::POINT);
        }
    }
    assert forall|i: int| 0 <= i < a.len() implies fixed::is_digit(#[trigger] a[i]) by {
        assert(a[i] == all[i]);
    }
    assert forall|i: int| 0 <= i < b.len() implies fixed::is_digit(#[trigger] b[i]) by {
        assert(b[i] == all[whole + i]);
    }
    assert(a + b =~= all);
    lemma_point(a, b);
    lemma_no_decimals(all);
    assert(fixed::is_digit(all[0]));
    assert(t[sign] == all[0]);
    assert(fixed::sign_len(t) == sign);
    let body = t.subrange(sign, t.len() as int);
    if d.scale == 0 {
        assert(body =~= all);
        assert forall|i: int| sign <= i < t.len() implies fixed::is_digit(#[trigger] t[i]) by {
            assert(t[i] == all[i - sign]);
        }
        lemma_clean_text(t, t.len() as int, t.len() as int);
        assert(fixed::is_digit(all[all.len() - 1]));
    } else {
        assert(body =~= a + seq![ascii::POINT] + b);
        let point = sign + whole;
        assert(t[point] == ascii::POINT);
        assert forall|i: int| sign <= i < t.len() && i != point implies fixed::is_digit(
            #[trigger] t[i],
        ) by {
            if i < point {
                assert(t[i] == a[i - sign]);
            } else {
                assert(t[i] == b[i - point - 1]);
            }
        }
        lemma_clean_text(t, t.len() as int, point);
        assert(fixed::is_digit(b[b.len() - 1]));
    }
}

/// Floor and ceiling of a quotient, compared with it by cross-multiplication.
proof fn lemma_brackets(value: Decimal, inc: Decimal, units: int)
    requires
        inc.is_increment(),
    ensures
        ({
            let common = if value.scale > inc.scale {
                value.scale
            } else {
                inc.scale
            };
            let num = value.mantissa_at(common);
            let den = inc.mantissa_at(common);
            &&& den > 0
            &&& value.less(inc.of_units(units)) == (num < units * den)
            &&& inc.of_units(units).less(value) == (units * den < num)
        }),
{
    let common = if value.scale > inc.scale {
        value.scale
    } else {
        inc.scale
    };
    let pv = fixed::pow10(value.scale) as int;
    let pi = fixed::pow10(inc.scale) as int;
    let sv = fixed::pow10((common - value.scale) as nat) as int;
    let si = fixed::pow10((common - inc.scale) as nat) as int;
    fixed::lemma_pow10_add(value.scale, (common - value.scale) as nat);
    fixed::lemma_pow10_add(inc.scale, (common - inc.scale) as nat);
    fixed::lemma_pow10_add((common - value.scale) as nat, 0);
    fixed::lemma_pow10_add((common - inc.scale) as nat, 0);
    let (m, k, u) = (value.mantissa, inc.mantissa, units);
    assert(pv * sv == pi * si);
    assert(k * si > 0) by (nonlinear_arith)
        requires
            k > 0,
            si > 0,
    ;
    // Both sides of the cross-multiplication, scaled by one positive factor.
    let left = m * pi;
    let right = (u * k) * pv;
    if value.scale > inc.scale {
        assert(sv == 1);
        assert((m * sv < u * (k * si)) == (left < right) && (u * (k * si) < m * sv) == (right
            < left)) by (nonlinear_arith)
            requires
                sv == 1,
                pv == pi * si,
                pi > 0,
                left == m * pi,
                right == (u * k) * pv,
        {
            assert(right == (u * (k * si)) * pi);
        }
    } else {
        assert(si == 1);
        assert((m * sv < u * (k * si)) == (left < right) && (u * (k * si) < m * sv) == (right
            < left)) by (nonlinear_arith)
            requires
                si == 1,
                pi == pv * sv,
                pv > 0,
                left == m * pi,
                right == (u * k) * pv,
        {
            assert(left == (m * sv) * pv);
        }
    }
}

/// Rounding down never exceeds the value, and rounding up never falls below it.
pub proof fn lemma_rounding_sides(value: Decimal, inc: Decimal, units: int)
    requires
        inc.is_increment(),
    ensures
        value.in_units(inc, Rounding::Down) == Ok::<int, FixedError>(units) ==> !value.less(
            inc.of_units(units),
        ),
        value.in_units(inc, Rounding::Up) == Ok::<int, FixedError>(units) ==> !inc.of_units(
            units,
        ).less(value),
{
    let common = if value.scale > inc.scale {
        value.scale
    } else {
        inc.scale
    };
    let num = value.mantissa_at(common);
    let den = inc.mantissa_at(common);
    lemma_brackets(value, inc, units);
    vstd::arithmetic::div_mod::lemma_fundamental_div_mod(num, den);
    let q = num / den;
    assert(q * den <= num && num < (q + 1) * den && (num % den == 0 ==> num == q * den))
        by (nonlinear_arith)
        requires
            num == den * q + num % den,
            0 <= num % den < den,
    ;
}

/// Rounding down and up brackets the exact value within one increment, and both agree exactly
/// when the value is a whole number of increments.
pub proof fn law_rounding_brackets_the_value(value: Decimal, inc: Decimal, down: int, up: int)
    requires
        inc.is_increment(),
        value.in_units(inc, Rounding::Down) == Ok::<int, FixedError>(down),
        value.in_units(inc, Rounding::Up) == Ok::<int, FixedError>(up),
    ensures
        !value.less(inc.of_units(down)),
        !inc.of_units(up).less(value),
        down <= up <= down + 1,
        (up == down) == (value.in_units(inc, Rounding::Exact) is Ok),
{
    let common = if value.scale > inc.scale {
        value.scale
    } else {
        inc.scale
    };
    let num = value.mantissa_at(common);
    let den = inc.mantissa_at(common);
    lemma_brackets(value, inc, down);
    lemma_brackets(value, inc, up);
    vstd::arithmetic::div_mod::lemma_fundamental_div_mod(num, den);
    assert(down * den <= num && num <= up * den) by (nonlinear_arith)
        requires
            num == den * (num / den) + num % den,
            0 <= num % den < den,
            down == num / den,
            up == (if num % den == 0 {
                num / den
            } else {
                num / den + 1
            }),
    ;
}

/// Units survive the way to a decimal and back, whatever the rounding.
pub proof fn law_units_round_trip(inc: Decimal, units: int, rounding: Rounding)
    requires
        inc.is_increment(),
        i64::MIN <= units <= i64::MAX,
    ensures
        inc.of_units(units).in_units(inc, rounding) == Ok::<int, FixedError>(units),
{
    let k = inc.mantissa;
    assert(fixed::pow10(0) == 1);
    assert(i128::MIN <= units * k <= i128::MAX && (units * k) * 1 == units * k && k * 1 == k)
        by (nonlinear_arith)
        requires
            i64::MIN <= units <= i64::MAX,
            0 < k <= i64::MAX,
    ;
    vstd::arithmetic::div_mod::lemma_div_multiples_vanish(units, k);
    vstd::arithmetic::mul::lemma_mul_is_commutative(units, k);
    vstd::arithmetic::div_mod::lemma_mod_multiples_basic(units, k);
}

/// Increments are stored normalized: two of the same value are the same increment.
pub proof fn law_increments_are_normal(a: Decimal, b: Decimal)
    requires
        a.is_increment(),
        b.is_increment(),
        a.same(b),
    ensures
        a == b,
{
    if a.scale > b.scale {
        lemma_shorter_scale(b, a);
    } else if a.scale < b.scale {
        lemma_shorter_scale(a, b);
    } else {
        let p = fixed::pow10(a.scale) as int;
        fixed::lemma_pow10_add(a.scale, 0);
        assert(a.mantissa == b.mantissa) by (nonlinear_arith)
            requires
                a.mantissa * p == b.mantissa * p,
                p > 0,
        ;
    }
}

/// Two increments are equal exactly when their values are.
pub proof fn law_increments_of_one_value_are_equal(a: Increment, b: Increment)
    requires
        a@.is_increment(),
        b@.is_increment(),
    ensures
        a == b <==> a@.same(b@),
{
    fixed::lemma_increments_are_their_views(a, b);
    if a@.same(b@) {
        law_increments_are_normal(a@, b@);
    }
}

/// A number written with more places than needed ends in zero.
proof fn lemma_shorter_scale(a: Decimal, b: Decimal)
    requires
        a.scale < b.scale,
        a.same(b),
    ensures
        b.mantissa % 10 == 0,
{
    let gap = (b.scale - a.scale) as nat;
    fixed::lemma_pow10_add(a.scale, gap);
    fixed::lemma_pow10_add((gap - 1) as nat, 0);
    let p = fixed::pow10(a.scale) as int;
    let q = fixed::pow10((gap - 1) as nat) as int;
    assert(fixed::pow10(b.scale) == p * (10 * q));
    let k = a.mantissa * q;
    assert(b.mantissa == 10 * k) by (nonlinear_arith)
        requires
            a.mantissa * (p * (10 * q)) == b.mantissa * p,
            k == a.mantissa * q,
            p > 0,
    {
        assert(a.mantissa * (p * (10 * q)) == (10 * (a.mantissa * q)) * p);
    }
}

/// Of any two numbers exactly one holds: less, the same, or greater; and less is transitive.
pub proof fn law_values_are_totally_ordered(a: Decimal, b: Decimal, c: Decimal)
    ensures
        a.less(b) || a.same(b) || b.less(a),
        !(a.less(b) && b.less(a)) && !(a.less(b) && a.same(b)),
        a.same(b) == b.same(a),
        a.same(b) && b.same(c) ==> a.same(c),
        a.less(b) && b.less(c) ==> a.less(c),
        a.less(b) && b.same(c) ==> a.less(c),
        a.same(b) && b.less(c) ==> a.less(c),
{
    let (x, y, z) = (a.mantissa, b.mantissa, c.mantissa);
    let p = fixed::pow10(a.scale) as int;
    let q = fixed::pow10(b.scale) as int;
    let r = fixed::pow10(c.scale) as int;
    fixed::lemma_pow10_add(a.scale, 0);
    fixed::lemma_pow10_add(b.scale, 0);
    fixed::lemma_pow10_add(c.scale, 0);
    // Scale each comparison by the third power of ten to line all of them up.
    let (u, v, w) = (x * q * r, y * p * r, z * p * q);
    assert((x * q < y * p) == (u < v) && (x * q == y * p) == (u == v)) by (nonlinear_arith)
        requires
            u == x * q * r,
            v == y * p * r,
            r > 0,
    ;
    assert((y * r < z * q) == (v < w) && (y * r == z * q) == (v == w)) by (nonlinear_arith)
        requires
            v == y * p * r,
            w == z * p * q,
            p > 0,
    {
        assert(v == (y * r) * p);
        assert(w == (z * q) * p);
    }
    assert((x * r < z * p) == (u < w) && (x * r == z * p) == (u == w)) by (nonlinear_arith)
        requires
            u == x * q * r,
            w == z * p * q,
            q > 0,
    {
        assert(u == (x * r) * q);
    }
}

} // verus!

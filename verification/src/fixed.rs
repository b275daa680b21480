//! Exact decimal numbers and conversion to integer ticks and lots.
//!
//! Venues send prices and quantities as decimal strings (`"43251.37000000"`). They are parsed
//! into [`Dec`] without ever touching floating point, then converted to integer units of an
//! instrument's [`Increment`] (tick size or lot step) with an explicit [`Rounding`] direction.
//! All hot-path money math then runs on those integers (see [`crate::units`]).

use crate::ascii;
use crate::text;
use core::cmp::Ordering;
use vstd::prelude::*;
use vstd::string::StringSliceAdditionalSpecFns;

verus! {

/// Largest scale (number of decimal places) a [`Dec`] may carry.
///
/// Products of two parsed values need up to `2 * MAX_PARSE_SCALE` places.
pub const MAX_SCALE: u8 = 36;

/// Largest number of decimal places accepted when parsing text or building an [`Increment`].
pub const MAX_PARSE_SCALE: u8 = 18;

/// Longest text [`Dec::write_to`] can produce: sign, 39 digits, decimal point, leading zero.
pub const MAX_TEXT_LEN: usize = 42;

/// Largest power of ten that fits in an `i128`.
const MAX_POWER: u8 = 38;

/// Errors from parsing, converting or formatting fixed-point numbers.
#[derive(Clone, Copy, Debug, PartialEq, Eq, Structural)]
pub enum FixedError {
    /// The input text was empty or had no digits.
    Empty,
    /// The input text contained a character that is not part of a plain decimal number.
    InvalidChar(usize),
    /// The input text had more than [`MAX_PARSE_SCALE`] decimal places.
    TooManyDecimals,
    /// A scale above [`MAX_SCALE`] was requested or produced.
    ScaleTooLarge,
    /// The value does not fit in the target integer type.
    Overflow,
    /// An increment must be strictly positive.
    NonPositiveIncrement,
    /// [`Rounding::Exact`] was requested and the value is not a whole number of increments.
    NotMultiple,
    /// The output buffer is too small for the formatted number.
    BufferTooSmall,
}

/// Rounding direction when converting a decimal value into whole increments.
#[derive(Clone, Copy, Debug, PartialEq, Eq, Hash, Structural)]
pub enum Rounding {
    /// Toward negative infinity. Used for bid prices so a quote never crosses fair value.
    Down,
    /// Toward positive infinity. Used for ask prices.
    Up,
    /// Fail with [`FixedError::NotMultiple`] unless the value is already exact.
    Exact,
}

/// Ten to the power of `n`.
pub open spec fn pow10(n: nat) -> nat
    decreases n,
{
    if n == 0 {
        1
    } else {
        10 * pow10((n - 1) as nat)
    }
}

/// Powers of ten are positive and multiply by adding exponents.
pub proof fn lemma_pow10_add(a: nat, b: nat)
    ensures
        pow10(a + b) == pow10(a) * pow10(b),
        pow10(a) > 0,
    decreases a,
{
    if a == 0 {
        assert(pow10(0) * pow10(b) == pow10(b)) by (nonlinear_arith)
            requires
                pow10(0) == 1,
        ;
    } else {
        lemma_pow10_add((a - 1) as nat, b);
        let x = pow10((a - 1) as nat);
        let y = pow10(b);
        assert(a + b - 1 == (a - 1) as nat + b);
        assert(10 * (x * y) == (10 * x) * y) by (nonlinear_arith);
    }
}

/// Powers of ten grow with the exponent.
pub proof fn lemma_pow10_monotonic(a: nat, b: nat)
    requires
        a <= b,
    ensures
        0 < pow10(a) <= pow10(b),
    decreases b,
{
    if a < b {
        lemma_pow10_monotonic(a, (b - 1) as nat);
    } else if b > 0 {
        lemma_pow10_monotonic((a - 1) as nat, (b - 1) as nat);
    }
}

/// `10^38` is the largest power of ten that fits in an `i128`.
proof fn lemma_pow10_fits()
    ensures
        pow10(38) <= i128::MAX,
        pow10(39) > i128::MAX,
{
    assert(pow10(13) == 10_000_000_000_000) by {
        reveal_with_fuel(pow10, 14);
    }
    lemma_pow10_add(13, 13);
    lemma_pow10_add(26, 12);
    lemma_pow10_add(26, 13);
    assert(pow10(12) == 1_000_000_000_000) by {
        reveal_with_fuel(pow10, 13);
    }
}

fn pow10_i128(n: u8) -> (r: Result<i128, FixedError>)
    ensures
        match r {
            Ok(power) => n <= MAX_POWER && power == pow10(n as nat) && power > 0,
            Err(error) => n > MAX_POWER && error == FixedError::ScaleTooLarge,
        },
{
    if n > MAX_POWER {
        return Err(FixedError::ScaleTooLarge);
    }
    proof {
        lemma_pow10_fits();
    }
    let mut power: i128 = 1;
    let mut i: u8 = 0;
    while i < n
        invariant
            i <= n <= MAX_POWER,
            power == pow10(i as nat),
            power > 0,
            pow10(38) <= i128::MAX,
        decreases n - i,
    {
        proof {
            lemma_pow10_monotonic((i + 1) as nat, 38);
        }
        power = power * 10;
        i = i + 1;
    }
    Ok(power)
}

/// A decimal number as mathematics: `mantissa * 10^-scale`.
pub struct Decimal {
    pub mantissa: int,
    pub scale: nat,
}

/// An exact decimal number: `mantissa * 10^-scale`.
///
/// Equality and ordering compare numeric value, so `1.0 == 1.00`. `Dec` is `Copy` and
/// never allocates.
#[derive(Clone, Copy, Debug)]
pub struct Dec {
    mantissa: i128,
    scale: u8,
}

impl View for Dec {
    type V = Decimal;

    closed spec fn view(&self) -> Decimal {
        Decimal { mantissa: self.mantissa as int, scale: self.scale as nat }
    }
}

impl Decimal {
    /// Whether this is the value of a [`Dec`].
    pub open spec fn wf(self) -> bool {
        i128::MIN <= self.mantissa <= i128::MAX && self.scale <= MAX_SCALE
    }

    /// Whether this number is strictly less than `other`, by cross-multiplication.
    pub open spec fn less(self, other: Decimal) -> bool {
        self.mantissa * pow10(other.scale) < other.mantissa * pow10(self.scale)
    }

    /// Whether both numbers have the same value, by cross-multiplication.
    pub open spec fn same(self, other: Decimal) -> bool {
        self.mantissa * pow10(other.scale) == other.mantissa * pow10(self.scale)
    }

    /// The exact product, if a [`Dec`] can hold it.
    pub open spec fn times(self, other: Decimal) -> Result<Decimal, FixedError> {
        let mantissa = self.mantissa * other.mantissa;
        let scale = self.scale + other.scale;
        if !(i128::MIN <= mantissa <= i128::MAX) {
            Err(FixedError::Overflow)
        } else if scale > MAX_SCALE {
            Err(FixedError::ScaleTooLarge)
        } else {
            Ok(Decimal { mantissa, scale })
        }
    }

    /// The mantissa of the same number written with `scale` decimal places.
    pub open spec fn mantissa_at(self, scale: nat) -> int {
        self.mantissa * pow10((scale - self.scale) as nat)
    }
}

/// A result with a [`Dec`] in it, as mathematics.
pub open spec fn decimal_result(r: Result<Dec, FixedError>) -> Result<Decimal, FixedError> {
    match r {
        Ok(dec) => Ok(dec@),
        Err(error) => Err(error),
    }
}

/// Whether a byte is an ASCII digit.
pub open spec fn is_digit(byte: u8) -> bool {
    ascii::ZERO <= byte <= ascii::NINE
}

/// The number that the digits of `text` spell, other bytes skipped.
pub open spec fn digits_value(text: Seq<u8>) -> nat
    decreases text.len(),
{
    if text.len() == 0 {
        0
    } else if is_digit(text.last()) {
        digits_value(text.drop_last()) * 10 + (text.last() - ascii::ZERO) as nat
    } else {
        digits_value(text.drop_last())
    }
}

/// The number of digits of `text` that follow a decimal point.
pub open spec fn decimals(text: Seq<u8>) -> nat
    decreases text.len(),
{
    if text.len() == 0 {
        0
    } else if is_digit(text.last()) && text.drop_last().contains(ascii::POINT) {
        decimals(text.drop_last()) + 1
    } else {
        decimals(text.drop_last())
    }
}

/// Length of the sign that `text` starts with.
pub open spec fn sign_len(text: Seq<u8>) -> int {
    if text.len() > 0 && text[0] == ascii::MINUS {
        1
    } else {
        0
    }
}

/// Why the byte at `i` is refused, given that those before it were accepted.
pub open spec fn byte_fault(text: Seq<u8>, i: int) -> Option<FixedError> {
    let before = text.subrange(sign_len(text), i);
    let upto = text.subrange(sign_len(text), i + 1);
    if is_digit(text[i]) {
        if digits_value(upto) > i128::MAX {
            Some(FixedError::Overflow)
        } else if decimals(upto) > MAX_PARSE_SCALE {
            Some(FixedError::TooManyDecimals)
        } else {
            None
        }
    } else if text[i] == ascii::POINT && before.len() > 0 && !before.contains(ascii::POINT) {
        None
    } else {
        Some(FixedError::InvalidChar(i as usize))
    }
}

/// The first refusal among the first `n` bytes.
pub open spec fn first_fault(text: Seq<u8>, n: int) -> Option<FixedError>
    decreases n,
{
    if n <= sign_len(text) {
        None
    } else {
        match first_fault(text, n - 1) {
            Some(error) => Some(error),
            None => byte_fault(text, n - 1),
        }
    }
}

/// What a text means as a number: an optional `-`, digits, and optionally a point followed by
/// more digits.
pub open spec fn parse_text(text: Seq<u8>) -> Result<Decimal, FixedError> {
    let body = text.subrange(sign_len(text), text.len() as int);
    if text.len() == 0 {
        Err(FixedError::Empty)
    } else {
        match first_fault(text, text.len() as int) {
            Some(error) => Err(error),
            None => if body.len() == 0 {
                Err(FixedError::Empty)
            } else if body.last() == ascii::POINT {
                Err(FixedError::InvalidChar((text.len() - 1) as usize))
            } else {
                Ok(
                    Decimal {
                        mantissa: if sign_len(text) == 1 {
                            -digits_value(body)
                        } else {
                            digits_value(body) as int
                        },
                        scale: decimals(body),
                    },
                )
            },
        }
    }
}

/// The first refusal decides the outcome of the whole text.
proof fn lemma_fault_stops(text: Seq<u8>, i: int, n: int)
    requires
        sign_len(text) <= i < n,
        first_fault(text, i) is None,
        byte_fault(text, i) is Some,
    ensures
        first_fault(text, n) == byte_fault(text, i),
    decreases n,
{
    if i + 1 < n {
        lemma_fault_stops(text, i, n - 1);
    }
}

impl Dec {
    #[verifier::type_invariant]
    spec fn scale_in_range(self) -> bool {
        self.scale <= MAX_SCALE
    }

    /// Zero.
    pub fn zero() -> (r: Self)
        ensures
            r@ == (Decimal { mantissa: 0, scale: 0 }),
    {
        Dec { mantissa: 0, scale: 0 }
    }

    /// Builds `mantissa * 10^-scale`.
    ///
    /// # Errors
    /// [`FixedError::ScaleTooLarge`] if `scale > MAX_SCALE`.
    pub fn new(mantissa: i128, scale: u8) -> (r: Result<Self, FixedError>)
        ensures
            match r {
                Ok(dec) => scale <= MAX_SCALE && dec@ == (Decimal {
                    mantissa: mantissa as int,
                    scale: scale as nat,
                }),
                Err(error) => scale > MAX_SCALE && error == FixedError::ScaleTooLarge,
            },
    {
        if scale > MAX_SCALE {
            return Err(FixedError::ScaleTooLarge);
        }
        Ok(Dec { mantissa, scale })
    }

    /// The integer mantissa.
    pub fn mantissa(self) -> (r: i128)
        ensures
            r == self@.mantissa,
    {
        self.mantissa
    }

    /// The number of decimal places.
    pub fn scale(self) -> (r: u8)
        ensures
            r == self@.scale,
            r <= MAX_SCALE,
    {
        proof {
            use_type_invariant(&self);
        }
        self.scale
    }

    /// Whether the value is zero.
    pub fn is_zero(self) -> (r: bool)
        ensures
            r == (self@.mantissa == 0),
    {
        self.mantissa == 0
    }

    /// Whether the value is strictly negative.
    pub fn is_negative(self) -> (r: bool)
        ensures
            r == (self@.mantissa < 0),
    {
        self.mantissa < 0
    }

    /// Parses a plain decimal number such as `"42"`, `"-0.00100"` or `"43251.37"`.
    ///
    /// Accepted form: optional `-`, one or more digits, then optionally `.` followed by one or
    /// more digits. Exponents, `+`, whitespace and separators are rejected.
    ///
    /// # Errors
    /// [`FixedError::Empty`], [`FixedError::InvalidChar`], [`FixedError::TooManyDecimals`] or
    /// [`FixedError::Overflow`].
    pub fn parse(text: &str) -> (r: Result<Self, FixedError>)
        ensures
            decimal_result(r) == parse_text(text.spec_bytes()),
    {
        let bytes: &[u8] = text.as_bytes();
        let ghost all = bytes@;
        if bytes.len() == 0 {
            return Err(FixedError::Empty);
        }
        let negative: bool = bytes[0] == ascii::MINUS;
        let start: usize = if negative { 1 } else { 0 };
        let mut mantissa: i128 = 0;
        let mut scale: u8 = 0;
        let mut seen_point: bool = false;
        let mut int_digits: usize = 0;
        let mut pos: usize = start;
        while pos < bytes.len()
            invariant
                bytes@ == all,
                all == text.spec_bytes(),
                all.len() > 0,
                start == sign_len(all),
                negative == (start == 1),
                start <= pos <= bytes.len(),
                first_fault(all, pos as int) is None,
                mantissa == digits_value(all.subrange(start as int, pos as int)),
                scale == decimals(all.subrange(start as int, pos as int)),
                mantissa >= 0,
                scale <= MAX_PARSE_SCALE,
                seen_point == all.subrange(start as int, pos as int).contains(ascii::POINT),
                int_digits <= pos - start,
                (int_digits > 0) == (pos > start),
                !seen_point ==> scale == 0,
                pos > start && !seen_point ==> is_digit(all[pos - 1]),
                seen_point ==> pos > start && (scale == 0) == (all[pos - 1] == ascii::POINT),
            decreases bytes.len() - pos,
        {
            let byte: u8 = bytes[pos];
            let ghost before = all.subrange(start as int, pos as int);
            let ghost upto = all.subrange(start as int, pos + 1);
            proof {
                assert(upto.drop_last() =~= before);
                assert(upto.last() == byte);
                assert forall|b: u8| before.contains(b) implies upto.contains(b) by {
                    let k = choose|k: int| 0 <= k < before.len() && before[k] == b;
                    assert(upto[k] == b);
                }
                assert(upto[pos - start] == byte);
                assert(upto.contains(ascii::POINT) ==> before.contains(ascii::POINT) || byte == ascii::POINT) by {
                    if upto.contains(ascii::POINT) && byte != ascii::POINT {
                        let k = choose|k: int| 0 <= k < upto.len() && upto[k] == ascii::POINT;
                        assert(before[k] == ascii::POINT);
                    }
                }
            }
            if ascii::ZERO <= byte && byte <= ascii::NINE {
                let digit: i128 = (byte - ascii::ZERO) as i128;
                let next: Option<i128> = match mantissa.checked_mul(10) {
                    Some(shifted) => shifted.checked_add(digit),
                    None => None,
                };
                mantissa =
                match next {
                    Some(value) => value,
                    None => {
                        proof {
                            assert(digits_value(upto) > i128::MAX);
                            lemma_fault_stops(all, pos as int, all.len() as int);
                        }
                        return Err(FixedError::Overflow);
                    },
                };
                if seen_point {
                    scale = scale + 1;
                    if scale > MAX_PARSE_SCALE {
                        proof {
                            lemma_fault_stops(all, pos as int, all.len() as int);
                        }
                        return Err(FixedError::TooManyDecimals);
                    }
                } else {
                    int_digits = int_digits + 1;
                }
            } else if byte == ascii::POINT && !seen_point && int_digits > 0 {
                seen_point = true;
            } else {
                proof {
                    lemma_fault_stops(all, pos as int, all.len() as int);
                }
                return Err(FixedError::InvalidChar(pos));
            }
            pos = pos + 1;
        }
        let ghost body = all.subrange(start as int, all.len() as int);
        if int_digits == 0 {
            return Err(FixedError::Empty);
        }
        assert(body.last() == all[pos - 1]);
        if seen_point && scale == 0 {
            // Trailing point with no fractional digits, e.g. "12."
            return Err(FixedError::InvalidChar(bytes.len() - 1));
        }
        if negative {
            mantissa = -mantissa;
        }
        Ok(Dec { mantissa, scale })
    }
}

/// Comparing whole parts first, and fractions at a common scale after that, compares values.
proof fn lemma_split_order(
    a: Decimal,
    b: Decimal,
    a_int: int,
    a_frac: int,
    b_int: int,
    b_frac: int,
    common: nat,
)
    requires
        a.mantissa == a_int * pow10(a.scale) + a_frac,
        b.mantissa == b_int * pow10(b.scale) + b_frac,
        0 <= a_frac < pow10(a.scale),
        0 <= b_frac < pow10(b.scale),
        a.scale <= common,
        b.scale <= common,
        a.scale == common || b.scale == common,
    ensures
        a_int < b_int ==> a.less(b),
        a_int > b_int ==> b.less(a),
        a_int == b_int ==> {
            let x = a_frac * pow10((common - a.scale) as nat);
            let y = b_frac * pow10((common - b.scale) as nat);
            &&& a.less(b) == (x < y)
            &&& b.less(a) == (y < x)
        },
{
    let ua = pow10(a.scale) as int;
    let ub = pow10(b.scale) as int;
    lemma_pow10_add(a.scale, (common - a.scale) as nat);
    lemma_pow10_add(b.scale, (common - b.scale) as nat);
    lemma_pow10_add((common - a.scale) as nat, a.scale);
    lemma_pow10_add((common - b.scale) as nat, b.scale);
    if a_int < b_int {
        assert(a.mantissa * ub < b.mantissa * ua) by (nonlinear_arith)
            requires
                a.mantissa == a_int * ua + a_frac,
                b.mantissa == b_int * ub + b_frac,
                0 <= a_frac < ua,
                0 <= b_frac < ub,
                a_int + 1 <= b_int,
                ua > 0,
                ub > 0,
        {
            assert(a.mantissa < (a_int + 1) * ua);
            assert((a_int + 1) * ua <= b_int * ua);
            assert(a.mantissa * ub < (b_int * ua) * ub);
            assert((b_int * ua) * ub == (b_int * ub) * ua);
            assert((b_int * ub) * ua <= b.mantissa * ua);
        }
    } else if a_int > b_int {
        assert(b.mantissa * ua < a.mantissa * ub) by (nonlinear_arith)
            requires
                a.mantissa == a_int * ua + a_frac,
                b.mantissa == b_int * ub + b_frac,
                0 <= a_frac < ua,
                0 <= b_frac < ub,
                b_int + 1 <= a_int,
                ua > 0,
                ub > 0,
        {
            assert(b.mantissa < (b_int + 1) * ub);
            assert((b_int + 1) * ub <= a_int * ub);
            assert(b.mantissa * ua < (a_int * ub) * ua);
            assert((a_int * ub) * ua == (a_int * ua) * ub);
            assert((a_int * ua) * ub <= a.mantissa * ub);
        }
    } else {
        let k = a_int;
        assert(a.mantissa * ub - b.mantissa * ua == a_frac * ub - b_frac * ua) by (nonlinear_arith)
            requires
                a.mantissa == k * ua + a_frac,
                b.mantissa == k * ub + b_frac,
        {
            assert((k * ua + a_frac) * ub == (k * ua) * ub + a_frac * ub);
            assert((k * ub + b_frac) * ua == (k * ub) * ua + b_frac * ua);
            assert((k * ua) * ub == (k * ub) * ua);
        }
        let sa = pow10((common - a.scale) as nat) as int;
        let sb = pow10((common - b.scale) as nat) as int;
        let u = pow10(common) as int;
        assert(u == ua * sa && u == ub * sb && u > 0);
        // One of the two scales is the common one, so one of `sa` and `sb` is 1.
        if a.scale == common {
            assert(sa == 1);
            assert((a_frac * sa < b_frac * sb) == (a_frac * ub < b_frac * ua)
                && (b_frac * sb < a_frac * sa) == (b_frac * ua < a_frac * ub)) by (nonlinear_arith)
                requires
                    sa == 1,
                    ua == ub * sb,
                    ub > 0,
            {
                assert(b_frac * ua == (b_frac * sb) * ub);
            }
        } else {
            assert(sb == 1);
            assert((a_frac * sa < b_frac * sb) == (a_frac * ub < b_frac * ua)
                && (b_frac * sb < a_frac * sa) == (b_frac * ua < a_frac * ub)) by (nonlinear_arith)
                requires
                    sb == 1,
                    ub == ua * sa,
                    ua > 0,
            {
                assert(a_frac * ub == (a_frac * sa) * ua);
            }
        }
    }
}

impl Dec {
    /// Exact product of two decimals.
    ///
    /// # Errors
    /// [`FixedError::Overflow`] or [`FixedError::ScaleTooLarge`].
    pub fn checked_mul(self, rhs: Self) -> (r: Result<Self, FixedError>)
        ensures
            decimal_result(r) == self@.times(rhs@),
    {
        proof {
            use_type_invariant(&self);
            use_type_invariant(&rhs);
        }
        let mantissa: i128 = match self.mantissa.checked_mul(rhs.mantissa) {
            Some(mantissa) => mantissa,
            None => {
                return Err(FixedError::Overflow);
            },
        };
        Dec::new(mantissa, self.scale + rhs.scale)
    }

    /// Mantissa expressed at a larger `scale`.
    fn mantissa_at(self, scale: u8) -> (r: Result<i128, FixedError>)
        requires
            self@.scale <= scale <= MAX_SCALE,
        ensures
            match r {
                Ok(mantissa) => mantissa == self@.mantissa_at(scale as nat),
                Err(error) => error == FixedError::Overflow && !(i128::MIN <= self@.mantissa_at(
                    scale as nat,
                ) <= i128::MAX),
            },
    {
        let power: i128 = pow10_i128(scale - self.scale)?;
        match self.mantissa.checked_mul(power) {
            Some(mantissa) => Ok(mantissa),
            None => Err(FixedError::Overflow),
        }
    }

    /// Integer part (floored) and non-negative fractional mantissa at this scale.
    fn split(self) -> (r: (i128, i128))
        ensures
            self@.mantissa == r.0 * pow10(self@.scale) + r.1,
            0 <= r.1 < pow10(self@.scale),
    {
        proof {
            use_type_invariant(&self);
        }
        let unit: i128 = match pow10_i128(self.scale) {
            Ok(unit) => unit,
            Err(_) => 1,
        };
        let ghost m = self.mantissa as int;
        let ghost u = unit as int;
        proof {
            vstd::arithmetic::div_mod::lemma_fundamental_div_mod(m, u);
            assert(m == (m / u) * u + m % u && 0 <= m % u < u) by (nonlinear_arith)
                requires
                    m == u * (m / u) + (m % u),
                    u > 0,
            ;
            assert(i128::MIN <= m / u <= i128::MAX) by (nonlinear_arith)
                requires
                    m == (m / u) * u + m % u,
                    0 <= m % u < u,
                    u > 0,
                    i128::MIN <= m <= i128::MAX,
            ;
        }
        match (self.mantissa.checked_div_euclid(unit), self.mantissa.checked_rem_euclid(unit)) {
            (Some(int_part), Some(frac)) => (int_part, frac),
            _ => (0, 0),
        }
    }

    /// The fraction `frac` at `scale`, written at the larger scale `common`.
    fn rescale(frac: i128, scale: u8, common: u8) -> (r: i128)
        requires
            scale <= common <= MAX_SCALE,
            0 <= frac < pow10(scale as nat),
        ensures
            r == frac * pow10((common - scale) as nat),
    {
        let power: i128 = match pow10_i128(common - scale) {
            Ok(power) => power,
            Err(_) => 1,
        };
        proof {
            lemma_pow10_add(scale as nat, (common - scale) as nat);
            lemma_pow10_monotonic(common as nat, 38);
            lemma_pow10_fits();
            assert(0 <= frac * power <= pow10(scale as nat) * power) by (nonlinear_arith)
                requires
                    0 <= frac < pow10(scale as nat),
                    power > 0,
            ;
        }
        frac * power
    }
}

impl Dec {
    /// Compares two numbers by value.
    pub fn cmp(&self, other: &Self) -> (r: Ordering)
        ensures
            (r == Ordering::Less) == self@.less(other@),
            (r == Ordering::Equal) == self@.same(other@),
            (r == Ordering::Greater) == other@.less(self@),
    {
        proof {
            use_type_invariant(self);
            use_type_invariant(other);
        }
        if self.scale == other.scale {
            proof {
                lemma_same_scale_order(self@, other@);
            }
            return order_of(self.mantissa, other.mantissa);
        }
        let (a_int, a_frac) = self.split();
        let (b_int, b_frac) = other.split();
        let common: u8 = if self.scale > other.scale {
            self.scale
        } else {
            other.scale
        };
        let a_rescaled: i128 = Dec::rescale(a_frac, self.scale, common);
        let b_rescaled: i128 = Dec::rescale(b_frac, other.scale, common);
        proof {
            lemma_split_order_exec(*self, *other, a_int, a_frac, b_int, b_frac, common);
        }
        // Whole parts decide; fractions below 10^36 decide between equal ones.
        if a_int == b_int {
            order_of(a_rescaled, b_rescaled)
        } else {
            order_of(a_int, b_int)
        }
    }
}

/// At one scale the mantissas compare as the values do.
proof fn lemma_same_scale_order(a: Decimal, b: Decimal)
    requires
        a.scale == b.scale,
    ensures
        a.less(b) == (a.mantissa < b.mantissa),
        a.same(b) == (a.mantissa == b.mantissa),
        b.less(a) == (b.mantissa < a.mantissa),
{
    lemma_pow10_add(a.scale, 0);
    let u = pow10(a.scale) as int;
    let (x, y) = (a.mantissa, b.mantissa);
    assert((x * u < y * u) == (x < y) && (x * u == y * u) == (x == y) && (y * u < x * u) == (y < x))
        by (nonlinear_arith)
        requires
            u > 0,
    ;
}

/// [`lemma_split_order`] on machine integers.
proof fn lemma_split_order_exec(
    a: Dec,
    b: Dec,
    a_int: i128,
    a_frac: i128,
    b_int: i128,
    b_frac: i128,
    common: u8,
)
    requires
        a@.mantissa == a_int * pow10(a@.scale) + a_frac,
        b@.mantissa == b_int * pow10(b@.scale) + b_frac,
        0 <= a_frac < pow10(a@.scale),
        0 <= b_frac < pow10(b@.scale),
        a@.scale <= common,
        b@.scale <= common,
        a@.scale == common || b@.scale == common,
    ensures
        a_int < b_int ==> a@.less(b@) && !a@.same(b@) && !b@.less(a@),
        a_int > b_int ==> b@.less(a@) && !a@.same(b@) && !a@.less(b@),
        a_int == b_int ==> {
            let x = a_frac * pow10((common - a@.scale) as nat);
            let y = b_frac * pow10((common - b@.scale) as nat);
            &&& a@.less(b@) == (x < y)
            &&& a@.same(b@) == (x == y)
            &&& b@.less(a@) == (y < x)
        },
{
    lemma_split_order(
        a@,
        b@,
        a_int as int,
        a_frac as int,
        b_int as int,
        b_frac as int,
        common as nat,
    );
}

/// How two integers compare.
fn order_of(a: i128, b: i128) -> (r: Ordering)
    ensures
        (r == Ordering::Less) == (a < b),
        (r == Ordering::Equal) == (a == b),
        (r == Ordering::Greater) == (b < a),
{
    if a < b {
        Ordering::Less
    } else if a == b {
        Ordering::Equal
    } else {
        Ordering::Greater
    }
}

impl PartialEq for Dec {
    fn eq(&self, other: &Self) -> (r: bool) {
        match self.cmp(other) {
            Ordering::Equal => true,
            _ => false,
        }
    }
}

impl vstd::std_specs::cmp::PartialEqSpecImpl for Dec {
    open spec fn obeys_eq_spec() -> bool {
        true
    }

    open spec fn eq_spec(&self, other: &Self) -> bool {
        self@.same(other@)
    }
}

impl Eq for Dec {

}

impl PartialOrd for Dec {
    fn partial_cmp(&self, other: &Self) -> (r: Option<Ordering>) {
        Some(self.cmp(other))
    }
}

impl vstd::std_specs::cmp::PartialOrdSpecImpl for Dec {
    open spec fn obeys_partial_cmp_spec() -> bool {
        true
    }

    open spec fn partial_cmp_spec(&self, other: &Self) -> Option<Ordering> {
        if self@.less(other@) {
            Some(Ordering::Less)
        } else if self@.same(other@) {
            Some(Ordering::Equal)
        } else {
            Some(Ordering::Greater)
        }
    }
}

/// The size of an integer without its sign.
pub open spec fn magnitude(n: int) -> nat {
    if n < 0 {
        (-n) as nat
    } else {
        n as nat
    }
}

/// The plain decimal text of a number: every decimal place of its scale, and at least one digit
/// before the point.
pub open spec fn dec_text(d: Decimal) -> Seq<u8> {
    let all = text::digits(magnitude(d.mantissa), d.scale + 1);
    let whole = all.len() - d.scale;
    let sign = if d.mantissa < 0 {
        seq![ascii::MINUS]
    } else {
        seq![]
    };
    if d.scale == 0 {
        sign + all
    } else {
        sign + all.take(whole) + seq![ascii::POINT] + all.skip(whole)
    }
}

/// A number below `10^size` has at most `size` digits, and padding fills up to `width`.
proof fn lemma_digits_len(n: nat, width: nat, size: nat)
    requires
        n < pow10(size),
    ensures
        width <= text::digits(n, width).len() <= (if width > size {
            width
        } else {
            size
        }),
    decreases n, width,
{
    if !(n == 0 && width == 0) {
        let shorter: nat = if width == 0 {
            0
        } else {
            (width - 1) as nat
        };
        if size == 0 {
            assert(n == 0);
            lemma_digits_len(0, shorter, 0);
        } else {
            assert(n / 10 < pow10((size - 1) as nat)) by (nonlinear_arith)
                requires
                    n < pow10(size),
                    pow10(size) == 10 * pow10((size - 1) as nat),
            ;
            lemma_digits_len(n / 10, shorter, (size - 1) as nat);
        }
    }
}

/// The text of a number fits in [`MAX_TEXT_LEN`] bytes.
pub proof fn law_text_fits(d: Decimal)
    requires
        d.wf(),
    ensures
        dec_text(d).len() <= MAX_TEXT_LEN,
{
    lemma_pow10_fits();
    lemma_digits_len(magnitude(d.mantissa), d.scale + 1, 39);
}

/// Writes one byte, if there is room.
fn put(buf: &mut [u8], pos: usize, byte: u8) -> (r: Result<usize, FixedError>)
    ensures
        match r {
            Ok(next) => pos < old(buf)@.len() && next == pos + 1 && final(buf)@ == old(buf)@.update(
                pos as int,
                byte,
            ),
            Err(error) => pos >= old(buf)@.len() && error == FixedError::BufferTooSmall
                && final(buf)@ == old(buf)@,
        },
{
    if pos >= buf.len() {
        return Err(FixedError::BufferTooSmall);
    }
    buf[pos] = byte;
    Ok(pos + 1)
}

impl Dec {
    /// The size of the mantissa without its sign.
    fn magnitude(self) -> (r: u128)
        ensures
            r == magnitude(self@.mantissa),
    {
        if self.mantissa < 0 {
            let below: i128 = self.mantissa + 1;
            let size: i128 = -below;
            size as u128 + 1
        } else {
            self.mantissa as u128
        }
    }

    /// Writes the value as plain decimal text into `buf` and returns the number of bytes
    /// written. Keeps every decimal place of the scale (`1.50` stays `"1.50"`). Never allocates.
    ///
    /// # Errors
    /// [`FixedError::BufferTooSmall`] if `buf` is shorter than the output, which then fills it.
    /// A buffer of [`MAX_TEXT_LEN`] bytes always suffices.
    pub fn write_to(self, buf: &mut [u8]) -> (r: Result<usize, FixedError>)
        ensures
            match r {
                Ok(n) => {
                    &&& n == dec_text(self@).len() <= old(buf)@.len()
                    &&& final(buf)@ == dec_text(self@) + old(buf)@.skip(n as int)
                },
                Err(error) => {
                    &&& error == FixedError::BufferTooSmall
                    &&& dec_text(self@).len() > old(buf)@.len()
                    &&& final(buf)@ == dec_text(self@).take(old(buf)@.len() as int)
                },
            },
    {
        proof {
            use_type_invariant(&self);
            lemma_pow10_fits();
        }
        // Digits are produced least significant first into `rev`.
        let mut rev: [u8; 42] = [48;42];
        let mut len: usize = 0;
        let mut rest: u128 = self.magnitude();
        let min_digits: usize = self.scale as usize + 1;
        let ghost all = text::digits(rest as nat, min_digits as nat);
        while rest > 0 || len < min_digits
            invariant
                len <= 39,
                min_digits <= 37,
                rest < pow10((39 - len) as nat),
                all == text::digits(
                    rest as nat,
                    if len < min_digits {
                        (min_digits - len) as nat
                    } else {
                        0
                    },
                ) + rev@.take(len as int).reverse(),
            decreases 39 - len,
        {
            proof {
                if len == 39 {
                    assert(pow10(0) == 1);
                }
                assert(rest / 10 < pow10((39 - len - 1) as nat)) by (nonlinear_arith)
                    requires
                        rest < pow10((39 - len) as nat),
                        pow10((39 - len) as nat) == 10 * pow10((39 - len - 1) as nat),
                ;
            }
            let ghost before = rev@.take(len as int);
            let digit: u8 = (rest % 10) as u8;
            rev[len] = ascii::ZERO + digit;
            proof {
                assert(rev@.take(len + 1) =~= before.push((ascii::ZERO + digit) as u8));
                assert(rev@.take(len + 1).reverse() =~= seq![(ascii::ZERO + digit) as u8]
                    + before.reverse());
                let width: nat = if len < min_digits {
                    (min_digits - len) as nat
                } else {
                    0
                };
                let shorter: nat = if width == 0 {
                    0
                } else {
                    (width - 1) as nat
                };
                assert(text::digits(rest as nat, width) == text::digits(
                    (rest / 10) as nat,
                    shorter,
                ).push((ascii::ZERO + digit) as u8));
                assert(text::digits((rest / 10) as nat, shorter).push((ascii::ZERO + digit) as u8)
                    + before.reverse() =~= text::digits((rest / 10) as nat, shorter) + rev@.take(
                    len + 1,
                ).reverse());
            }
            rest = rest / 10;
            len = len + 1;
        }
        let ghost out = dec_text(self@);
        let ghost sign: int = if self.mantissa < 0 {
            1
        } else {
            0
        };
        let point_at: usize = len - self.scale as usize;
        proof {
            assert(all =~= rev@.take(len as int).reverse());
            assert(all.len() == len);
            assert forall|k: int| 0 <= k < len implies #[trigger] all[k] == out[sign + k + (if k
                >= point_at {
                1int
            } else {
                0
            })] by {}
        }
        let mut pos: usize = 0;
        if self.mantissa < 0 {
            pos =
            match put(buf, pos, ascii::MINUS) {
                Ok(next) => next,
                Err(error) => {
                    assert(buf@ =~= out.take(0));
                    return Err(error);
                },
            };
        }
        let mut i: usize = 0;
        proof {
            assert(buf@ =~= out.take(pos as int) + old(buf)@.skip(pos as int));
        }
        while i < len
            invariant
                i <= len <= 39,
                len == rev@.len() || len < rev@.len(),
                rev@.len() == 42,
                sign == 0 || sign == 1,
                self.scale <= MAX_SCALE,
                point_at == len - self.scale,
                point_at >= 1,
                out == dec_text(self@),
                out.len() == sign + len + (if self.scale > 0 {
                    1int
                } else {
                    0
                }),
                pos == sign + i + (if i > point_at {
                    1int
                } else {
                    0
                }),
                pos <= buf@.len(),
                buf@.len() == old(buf)@.len(),
                buf@ == out.take(pos as int) + old(buf)@.skip(pos as int),
                self.scale > 0 ==> out[sign + point_at] == ascii::POINT,
                all == rev@.take(len as int).reverse(),
                forall|k: int|
                    0 <= k < len ==> #[trigger] all[k] == out[sign + k + (if k >= point_at {
                        1int
                    } else {
                        0
                    })],
            decreases len - i,
        {
            if i == point_at && self.scale > 0 {
                pos =
                match put(buf, pos, ascii::POINT) {
                    Ok(next) => next,
                    Err(error) => {
                        assert(buf@ =~= out.take(old(buf)@.len() as int));
                        return Err(error);
                    },
                };
                assert(buf@ =~= out.take(pos as int) + old(buf)@.skip(pos as int));
            }
            let digit: u8 = rev[len - 1 - i];
            assert(digit == all[i as int]);
            assert(digit == out[pos as int]);
            pos =
            match put(buf, pos, digit) {
                Ok(next) => next,
                Err(error) => {
                    assert(buf@ =~= out.take(old(buf)@.len() as int));
                    return Err(error);
                },
            };
            assert(buf@ =~= out.take(pos as int) + old(buf)@.skip(pos as int));
            i = i + 1;
        }
        assert(out.take(pos as int) =~= out);
        Ok(pos)
    }
}

impl Dec {
    /// The value as plain decimal text.
    pub fn to_string(&self) -> (r: String)
        ensures
            r@ == text::chars_of(dec_text(self@)),
    {
        proof {
            use_type_invariant(self);
            law_text_fits(self@);
        }
        let mut buf: Vec<u8> = vec![0u8; MAX_TEXT_LEN];
        let len: usize = match self.write_to(buf.as_mut_slice()) {
            Ok(len) => len,
            Err(_) => 0,
        };
        buf.truncate(len);
        assert(buf@ =~= dec_text(self@));
        let mut out: String = String::new();
        text::push_bytes(&mut out, buf.as_slice());
        assert(out@ =~= text::chars_of(dec_text(self@)));
        out
    }
}

impl core::str::FromStr for Dec {
    type Err = FixedError;

    fn from_str(s: &str) -> (r: Result<Self, FixedError>)
        ensures
            decimal_result(r) == parse_text(s.spec_bytes()),
    {
        Dec::parse(s)
    }
}

/// A strictly positive step size: an instrument's tick size or lot step.
///
/// Stored normalized (no trailing zeros), so `"0.01000000"` and `"0.01"` are the same
/// increment.
#[derive(Clone, Copy, Debug, PartialEq, Eq, Hash, Structural)]
pub struct Increment {
    mantissa: i64,
    scale: u8,
}

impl View for Increment {
    type V = Decimal;

    closed spec fn view(&self) -> Decimal {
        Decimal { mantissa: self.mantissa as int, scale: self.scale as nat }
    }
}

/// Increments with the same mantissa and scale are equal.
pub proof fn lemma_increments_are_their_views(a: Increment, b: Increment)
    ensures
        a == b <==> a@ == b@,
{
}

impl Decimal {
    /// Whether this is the value of an [`Increment`]: positive, with at most
    /// [`MAX_PARSE_SCALE`] decimal places and no trailing zeros among them.
    pub open spec fn is_increment(self) -> bool {
        &&& 0 < self.mantissa <= i64::MAX
        &&& self.scale <= MAX_PARSE_SCALE
        &&& self.scale == 0 || self.mantissa % 10 != 0
    }

    /// This number as a whole number of `increment`s: the quotient at a common scale, rounded
    /// as asked. A number or an increment too large for that scale overflows.
    pub open spec fn in_units(self, increment: Decimal, rounding: Rounding) -> Result<
        int,
        FixedError,
    > {
        let common = if self.scale > increment.scale {
            self.scale
        } else {
            increment.scale
        };
        let numerator = self.mantissa_at(common);
        let denominator = increment.mantissa_at(common);
        let exact = numerator % denominator == 0;
        let units = if rounding == Rounding::Up && !exact {
            numerator / denominator + 1
        } else {
            numerator / denominator
        };
        if !(i128::MIN <= numerator <= i128::MAX) || denominator > i128::MAX {
            Err(FixedError::Overflow)
        } else if rounding == Rounding::Exact && !exact {
            Err(FixedError::NotMultiple)
        } else if !(i64::MIN <= units <= i64::MAX) {
            Err(FixedError::Overflow)
        } else {
            Ok(units)
        }
    }

    /// The value of `units` whole increments of this size.
    pub open spec fn of_units(self, units: int) -> Decimal {
        Decimal { mantissa: units * self.mantissa, scale: self.scale }
    }
}

impl Increment {
    #[verifier::type_invariant]
    spec fn normalized(self) -> bool {
        self@.is_increment()
    }

    /// Builds `mantissa * 10^-scale`.
    ///
    /// # Errors
    /// [`FixedError::NonPositiveIncrement`] or [`FixedError::TooManyDecimals`].
    pub fn new(mantissa: i64, scale: u8) -> (r: Result<Self, FixedError>)
        ensures
            match r {
                Ok(increment) => {
                    &&& mantissa > 0
                    &&& scale <= MAX_PARSE_SCALE
                    &&& increment@.is_increment()
                    &&& increment@.same(
                        Decimal { mantissa: mantissa as int, scale: scale as nat },
                    )
                },
                Err(FixedError::NonPositiveIncrement) => mantissa <= 0,
                Err(FixedError::TooManyDecimals) => mantissa > 0 && scale > MAX_PARSE_SCALE,
                Err(_) => false,
            },
    {
        if mantissa <= 0 {
            return Err(FixedError::NonPositiveIncrement);
        }
        if scale > MAX_PARSE_SCALE {
            return Err(FixedError::TooManyDecimals);
        }
        let mut m: i64 = mantissa;
        let mut s: u8 = scale;
        proof {
            assert(m * pow10(0) == m) by (nonlinear_arith)
                requires
                    pow10(0) == 1,
            ;
        }
        while s > 0 && m % 10 == 0
            invariant
                0 < m,
                s <= scale <= MAX_PARSE_SCALE,
                mantissa == m * pow10((scale - s) as nat),
            decreases s,
        {
            proof {
                let k = (scale - s) as nat;
                let p = pow10(k) as int;
                assert(pow10((scale - (s - 1)) as nat) == 10 * p);
                assert(m * p == (m as int / 10) * (10 * p)) by (nonlinear_arith)
                    requires
                        m % 10 == 0,
                ;
            }
            m = m / 10;
            s = s - 1;
        }
        proof {
            let k = (scale - s) as nat;
            lemma_pow10_add(k, s as nat);
            assert(m * pow10(scale as nat) == mantissa * pow10(s as nat)) by (nonlinear_arith)
                requires
                    mantissa == m * pow10(k),
                    pow10(scale as nat) == pow10(k) * pow10(s as nat),
            ;
        }
        Ok(Increment { mantissa: m, scale: s })
    }

    /// Parses an increment from venue text such as `"0.01000000"`.
    ///
    /// # Errors
    /// Any [`Dec::parse`] error, [`FixedError::NonPositiveIncrement`] or
    /// [`FixedError::Overflow`] if the mantissa does not fit in an `i64`.
    pub fn parse(text: &str) -> (r: Result<Self, FixedError>)
        ensures
            match parse_text(text.spec_bytes()) {
                Err(error) => r == Err::<Increment, FixedError>(error),
                Ok(d) => if !(i64::MIN <= d.mantissa <= i64::MAX) {
                    r == Err::<Increment, FixedError>(FixedError::Overflow)
                } else if d.mantissa <= 0 {
                    r == Err::<Increment, FixedError>(FixedError::NonPositiveIncrement)
                } else {
                    r matches Ok(increment) && increment@.is_increment() && increment@.same(d)
                },
            },
    {
        let dec: Dec = Dec::parse(text)?;
        if dec.mantissa < i64::MIN as i128 || dec.mantissa > i64::MAX as i128 {
            return Err(FixedError::Overflow);
        }
        proof {
            lemma_parse_scale(text.spec_bytes(), text.spec_bytes().len() as int);
        }
        Increment::new(dec.mantissa as i64, dec.scale)
    }

    /// The increment as a decimal.
    pub fn as_dec(self) -> (r: Dec)
        ensures
            r@ == self@,
    {
        proof {
            use_type_invariant(&self);
        }
        Dec { mantissa: self.mantissa as i128, scale: self.scale }
    }

    /// Converts a decimal value into a whole number of increments.
    ///
    /// # Errors
    /// [`FixedError::NotMultiple`] with [`Rounding::Exact`] when the value is not exact, or
    /// [`FixedError::Overflow`] if the result does not fit in an `i64`.
    pub fn to_units(self, value: Dec, rounding: Rounding) -> (r: Result<i64, FixedError>)
        ensures
            self@.is_increment(),
            match r {
                Ok(units) => value@.in_units(self@, rounding) == Ok::<int, FixedError>(
                    units as int,
                ),
                Err(error) => value@.in_units(self@, rounding) == Err::<int, FixedError>(error),
            },
    {
        proof {
            use_type_invariant(&self);
            use_type_invariant(&value);
        }
        let common: u8 = if value.scale > self.scale {
            value.scale
        } else {
            self.scale
        };
        let numerator: i128 = value.mantissa_at(common)?;
        let denominator: i128 = self.as_dec().mantissa_at(common)?;
        proof {
            lemma_pow10_monotonic(0, (common - self.scale) as nat);
            let (m, p) = (self.mantissa as int, pow10((common - self.scale) as nat) as int);
            assert(m * p > 0) by (nonlinear_arith)
                requires
                    m > 0,
                    p > 0,
            ;
            lemma_euclid_fits(numerator as int, denominator as int);
        }
        // `denominator` is strictly positive, so Euclidean division is floor division.
        let floor: i128 = match numerator.checked_div_euclid(denominator) {
            Some(floor) => floor,
            None => {
                return Err(FixedError::Overflow);
            },
        };
        let remainder: i128 = match numerator.checked_rem_euclid(denominator) {
            Some(remainder) => remainder,
            None => {
                return Err(FixedError::Overflow);
            },
        };
        let units: i128 = if remainder == 0 {
            floor
        } else {
            match rounding {
                Rounding::Down => floor,
                Rounding::Up => floor + 1,
                Rounding::Exact => {
                    return Err(FixedError::NotMultiple);
                },
            }
        };
        if units < i64::MIN as i128 || units > i64::MAX as i128 {
            return Err(FixedError::Overflow);
        }
        Ok(units as i64)
    }

    /// The decimal value of `units` whole increments. Always exact.
    pub fn from_units(self, units: i64) -> (r: Dec)
        ensures
            self@.is_increment(),
            r@ == self@.of_units(units as int),
    {
        proof {
            use_type_invariant(&self);
            let (a, b) = (units as int, self.mantissa as int);
            assert(i128::MIN <= a * b <= i128::MAX) by (nonlinear_arith)
                requires
                    i64::MIN <= a <= i64::MAX,
                    0 < b <= i64::MAX,
            ;
        }
        Dec { mantissa: units as i128 * self.mantissa as i128, scale: self.scale }
    }

    /// The increment as plain decimal text.
    pub fn to_string(&self) -> (r: String)
        ensures
            r@ == text::chars_of(dec_text(self@)),
    {
        self.as_dec().to_string()
    }
}

/// Text without a refusal has at most [`MAX_PARSE_SCALE`] decimal places.
proof fn lemma_parse_scale(text: Seq<u8>, n: int)
    requires
        sign_len(text) <= n <= text.len(),
        first_fault(text, n) is None,
    ensures
        decimals(text.subrange(sign_len(text), n)) <= MAX_PARSE_SCALE,
    decreases n,
{
    let s = sign_len(text);
    if n > s {
        lemma_parse_scale(text, n - 1);
        assert(text.subrange(s, n).drop_last() =~= text.subrange(s, n - 1));
    }
}

/// Floor division of an `i128` by a positive one fits, and leaves room to round up.
proof fn lemma_euclid_fits(n: int, d: int)
    requires
        i128::MIN <= n <= i128::MAX,
        d > 0,
    ensures
        i128::MIN <= n / d <= i128::MAX,
        0 <= n % d < d,
        n % d != 0 ==> n / d < i128::MAX,
{
    vstd::arithmetic::div_mod::lemma_fundamental_div_mod(n, d);
    let (q, r) = (n / d, n % d);
    assert(i128::MIN <= q <= i128::MAX && (r != 0 ==> q < i128::MAX)) by (nonlinear_arith)
        requires
            n == d * q + r,
            0 <= r < d,
            d > 0,
            i128::MIN <= n <= i128::MAX,
    ;
}

} // verus!

//! Exact decimals and increments.

use bowst::fixed::{Dec, FixedError, Increment, Rounding};

fn dec(s: &str) -> Dec {
    Dec::parse(s).unwrap()
}

#[test]
fn parses_plain_decimals() {
    assert_eq!(dec("42"), Dec::new(42, 0).unwrap());
    assert_eq!(dec("-0.00100").mantissa(), -100);
    assert_eq!(dec("-0.00100").scale(), 5);
    assert_eq!(dec("43251.37000000").scale(), 8);
    assert_eq!(dec("0"), Dec::zero());
}

#[test]
fn rejects_malformed_text() {
    for (text, err) in [
        ("", FixedError::Empty),
        ("-", FixedError::Empty),
        (".5", FixedError::InvalidChar(0)),
        ("1.2.3", FixedError::InvalidChar(3)),
        ("12.", FixedError::InvalidChar(2)),
        ("1e-8", FixedError::InvalidChar(1)),
        ("+1", FixedError::InvalidChar(0)),
        (" 1", FixedError::InvalidChar(0)),
        ("1,000", FixedError::InvalidChar(1)),
        ("0.0000000000000000001", FixedError::TooManyDecimals),
        (
            "999999999999999999999999999999999999999999",
            FixedError::Overflow,
        ),
    ] {
        assert_eq!(Dec::parse(text), Err(err), "input {text:?}");
    }
}

#[test]
fn compares_by_value_across_scales() {
    assert_eq!(dec("1.0"), dec("1.00"));
    assert!(dec("1.01") > dec("1.009"));
    assert!(dec("-1.5") < dec("-1.25"));
    assert!(dec("-0.1") < dec("0"));
}

#[test]
fn formats_keeping_scale() {
    for text in ["0", "42", "-0.00100", "43251.37000000", "0.5", "-12.340"] {
        assert_eq!(dec(text).to_string(), text);
    }
}

#[test]
fn write_to_reports_small_buffer() {
    let mut buf = [0_u8; 3];
    assert_eq!(
        dec("123.4").write_to(&mut buf),
        Err(FixedError::BufferTooSmall)
    );
}

#[test]
fn increment_normalizes_trailing_zeros() {
    assert_eq!(
        Increment::parse("0.01000000").unwrap(),
        Increment::parse("0.01").unwrap()
    );
    assert_eq!(Increment::parse("10").unwrap().to_string(), "10");
    assert_eq!(Increment::parse("0"), Err(FixedError::NonPositiveIncrement));
    assert_eq!(
        Increment::parse("-0.1"),
        Err(FixedError::NonPositiveIncrement)
    );
}

#[test]
fn converts_to_units_with_rounding() {
    let tick = Increment::parse("0.05").unwrap();
    assert_eq!(tick.to_units(dec("100.05"), Rounding::Exact), Ok(2001));
    assert_eq!(tick.to_units(dec("100.07"), Rounding::Down), Ok(2001));
    assert_eq!(tick.to_units(dec("100.07"), Rounding::Up), Ok(2002));
    assert_eq!(
        tick.to_units(dec("100.07"), Rounding::Exact),
        Err(FixedError::NotMultiple)
    );
    assert_eq!(tick.to_units(dec("-0.07"), Rounding::Down), Ok(-2));
    assert_eq!(tick.to_units(dec("-0.07"), Rounding::Up), Ok(-1));
    assert_eq!(tick.from_units(2001).to_string(), "100.05");
}

#[test]
fn converts_with_whole_number_increments() {
    let lot = Increment::parse("5").unwrap();
    assert_eq!(lot.to_units(dec("12"), Rounding::Down), Ok(2));
    assert_eq!(lot.to_units(dec("12"), Rounding::Up), Ok(3));
}

#[test]
fn reports_unit_overflow() {
    let tick = Increment::parse("0.000000000000000001").unwrap();
    assert_eq!(
        tick.to_units(dec("100000"), Rounding::Exact),
        Err(FixedError::Overflow)
    );
}

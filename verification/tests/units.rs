//! Prices, quantities and sides.

use bowst::fixed::{Dec, FixedError, Increment, Rounding, MAX_TEXT_LEN};
use bowst::units::{notional, Price, Qty, Side};

fn inc(s: &str) -> Increment {
    Increment::parse(s).unwrap()
}

#[test]
fn passive_rounding_keeps_quotes_off_fair_value() {
    let tick = inc("0.01");
    let fair = Dec::parse("100.005").unwrap();
    let bid = Price::from_dec(fair, tick, Side::Buy.passive_rounding()).unwrap();
    let ask = Price::from_dec(fair, tick, Side::Sell.passive_rounding()).unwrap();
    assert_eq!(bid, Price::new(10_000));
    assert_eq!(ask, Price::new(10_001));
    assert!(bid.to_dec(tick) <= fair && ask.to_dec(tick) >= fair);
}

#[test]
fn aggressiveness_depends_on_side() {
    let (lo, hi) = (Price::new(1), Price::new(2));
    assert!(Side::Buy.is_more_aggressive(hi, lo));
    assert!(Side::Sell.is_more_aggressive(lo, hi));
    assert!(!Side::Buy.is_more_aggressive(lo, lo));
}

#[test]
fn notional_is_exact() {
    let value = notional(
        Price::new(4_325_137),
        inc("0.01"),
        Qty::new(150),
        inc("0.0001"),
    )
    .unwrap();
    assert_eq!(value, Dec::parse("648.77055").unwrap());
}

#[test]
fn checked_arithmetic_reports_overflow() {
    assert_eq!(Qty::new(i64::MAX).checked_add(Qty::new(1)), None);
    assert_eq!(
        Price::new(5).checked_sub(Price::new(7)),
        Some(Price::new(-2))
    );
}

#[test]
fn sides_have_opposites_and_signs() {
    assert_eq!(Side::Buy.opposite(), Side::Sell);
    assert_eq!(Side::Sell.opposite(), Side::Buy);
    assert_eq!((Side::Buy.sign(), Side::Sell.sign()), (1, -1));
    assert!(Price::zero().is_zero() && !Qty::new(1).is_zero());
}

#[test]
fn products_that_no_decimal_holds_are_refused() {
    let small = Dec::parse("0.000000000000000001").unwrap();
    assert_eq!(small.checked_mul(small).map(|d| d.scale()), Ok(36));
    assert_eq!(
        small.checked_mul(small).unwrap().checked_mul(small),
        Err(FixedError::ScaleTooLarge)
    );
    let large = Dec::parse("100000000000000000000000000000").unwrap();
    assert_eq!(large.checked_mul(large), Err(FixedError::Overflow));
    assert!(Dec::parse("-0.5").unwrap().is_negative() && !small.is_negative());
    assert_eq!(inc("0.0010").as_dec(), Dec::parse("0.001").unwrap());
}

#[test]
fn quotes_are_written_at_their_tick() {
    let tick = inc("0.01");
    let fair = Dec::parse("43251.37500000").unwrap();
    let bid = Price::from_dec(fair, tick, Side::Buy.passive_rounding()).unwrap();
    let ask = Price::from_dec(fair, tick, Rounding::Up).unwrap();
    assert!(ask > bid);
    let mut buf = [0_u8; MAX_TEXT_LEN];
    let len = bid.to_dec(tick).write_to(&mut buf).unwrap();
    assert_eq!(&buf[..len], b"43251.37");
}

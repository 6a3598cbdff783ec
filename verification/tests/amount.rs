use multi_exchange_l3_est::amount::{Amount, MAX_UNITS, SCALE};

const UNIT: i128 = 1_000_000_000_000_000_000;

#[test]
fn scale_and_bound_are_as_documented() {
    assert_eq!(SCALE, 18);
    assert_eq!(MAX_UNITS, UNIT * UNIT);
}

#[test]
fn from_units_accepts_exactly_the_range() {
    assert_eq!(Amount::from_units(0).unwrap().units(), 0);
    assert_eq!(Amount::from_units(MAX_UNITS).unwrap().units(), MAX_UNITS);
    assert_eq!(Amount::from_units(-MAX_UNITS).unwrap().units(), -MAX_UNITS);
    assert!(Amount::from_units(MAX_UNITS + 1).is_none());
    assert!(Amount::from_units(-MAX_UNITS - 1).is_none());
    assert!(Amount::from_units(i128::MAX).is_none());
    assert!(Amount::from_units(i128::MIN).is_none());
}

#[test]
fn zero_is_zero() {
    assert!(Amount::zero().is_zero());
    assert!(!Amount::zero().is_positive());
    assert!(Amount::from_units(1).unwrap().is_positive());
    assert!(!Amount::from_units(-1).unwrap().is_positive());
    assert!(!Amount::from_units(-1).unwrap().is_zero());
}

#[test]
fn from_parts_scales_up_exactly() {
    assert_eq!(Amount::from_parts(12345, 2).unwrap().units(), 123_450_000_000_000_000_000);
    assert_eq!(Amount::from_parts(7, 0).unwrap().units(), 7 * UNIT);
    assert_eq!(Amount::from_parts(-15, 1).unwrap().units(), -1_500_000_000_000_000_000);
    assert_eq!(Amount::from_parts(1, 18).unwrap().units(), 1);
    assert_eq!(Amount::from_parts(0, 5).unwrap().units(), 0);
}

#[test]
fn from_parts_scales_down_only_when_exact() {
    assert_eq!(Amount::from_parts(1_000, 21).unwrap().units(), 1);
    assert_eq!(Amount::from_parts(-250, 19).unwrap().units(), -25);
    assert!(Amount::from_parts(1, 19).is_none());
    assert!(Amount::from_parts(1_001, 21).is_none());
    assert_eq!(Amount::from_parts(0, u32::MAX).unwrap().units(), 0);
    assert!(Amount::from_parts(5, u32::MAX).is_none());
}

#[test]
fn from_parts_rejects_what_is_out_of_range() {
    assert_eq!(Amount::from_parts(UNIT, 0).unwrap().units(), MAX_UNITS);
    assert!(Amount::from_parts(UNIT + 1, 0).is_none());
    assert!(Amount::from_parts(-UNIT - 1, 0).is_none());
    assert!(Amount::from_parts(i128::MAX, 0).is_none());
    assert!(Amount::from_parts(i128::MIN, 0).is_none());
    assert!(Amount::from_parts(i128::MIN, 18).is_none());
    assert_eq!(Amount::from_parts(MAX_UNITS, 18).unwrap().units(), MAX_UNITS);
    assert!(Amount::from_parts(MAX_UNITS + 1, 18).is_none());
}

#[test]
fn parse_reads_decimals() {
    assert_eq!(Amount::parse("1.5").unwrap().units(), 1_500_000_000_000_000_000);
    assert_eq!(Amount::parse("0.00012345").unwrap().units(), 123_450_000_000_000);
    assert_eq!(Amount::parse("-2").unwrap().units(), -2 * UNIT);
    assert_eq!(Amount::parse("0").unwrap().units(), 0);
    assert_eq!(Amount::parse("0.000").unwrap().units(), 0);
}

#[test]
fn parse_ignores_trailing_zeros() {
    assert_eq!(Amount::parse("1.50"), Amount::parse("1.5"));
    assert_eq!(Amount::parse("100"), Amount::parse("100.000"));
}

#[test]
fn parse_rejects_what_is_no_decimal() {
    assert!(Amount::parse("").is_none());
    assert!(Amount::parse("abc").is_none());
    assert!(Amount::parse("1.2.3").is_none());
}

#[test]
fn parse_rejects_digits_below_the_scale() {
    assert_eq!(Amount::parse("0.000000000000000001").unwrap().units(), 1);
    assert!(Amount::parse("0.0000000000000000001").is_none());
}

#[test]
fn parse_agrees_with_the_decimal_crate() {
    let texts = ["123.456", "0.1", "98765.4321", "-0.5"];
    for text in texts {
        let d: rust_decimal::Decimal = text.parse().unwrap();
        let expected = Amount::from_parts(d.mantissa(), d.scale()).unwrap();
        assert_eq!(Amount::parse(text).unwrap(), expected);
    }
}

use provviz::numbers::{parse_dec, parse_u64, Dec};

#[test]
fn parses_integers() {
    assert_eq!(parse_u64("0"), Some(0));
    assert_eq!(parse_u64("42"), Some(42));
    assert_eq!(parse_u64("18446744073709551615"), Some(u64::MAX));
}

#[test]
fn rejects_bad_integers() {
    assert_eq!(parse_u64(""), None);
    assert_eq!(parse_u64("+3"), None);
    assert_eq!(parse_u64("-3"), None);
    assert_eq!(parse_u64("3.0"), None);
    assert_eq!(parse_u64("18446744073709551616"), None);
}

#[test]
fn parses_decimals() {
    assert_eq!(parse_dec("5"), Some(Dec { mant: 5, frac: 0 }));
    assert_eq!(parse_dec("3.5"), Some(Dec { mant: 35, frac: 1 }));
    assert_eq!(parse_dec("-0.25"), Some(Dec { mant: -25, frac: 2 }));
    assert_eq!(parse_dec("5."), Some(Dec { mant: 5, frac: 0 }));
    assert_eq!(parse_dec(".5"), Some(Dec { mant: 5, frac: 1 }));
    assert_eq!(parse_dec("150.53"), Some(Dec { mant: 15053, frac: 2 }));
    assert_eq!(parse_dec("0"), Some(Dec { mant: 0, frac: 0 }));
}

#[test]
fn rejects_bad_decimals() {
    assert_eq!(parse_dec(""), None);
    assert_eq!(parse_dec("-"), None);
    assert_eq!(parse_dec("."), None);
    assert_eq!(parse_dec("-."), None);
    assert_eq!(parse_dec("1e3"), None);
    assert_eq!(parse_dec("1.2.3"), None);
    assert_eq!(parse_dec("12a"), None);
    // Sixteen fractional digits exceed the precision the model carries.
    assert_eq!(parse_dec("0.1234567890123456"), None);
    // A mantissa above the limit fails rather than rounding.
    assert_eq!(parse_dec("10000000000000000"), None);
}

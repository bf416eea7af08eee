use price_store::price::{format_price, parse_price, PRICE_SCALE};

#[test]
fn parse_whole_units() {
    assert_eq!(parse_price("25"), Some(25 * PRICE_SCALE as i64));
    assert_eq!(parse_price("0"), Some(0));
    assert_eq!(parse_price("007"), Some(7 * PRICE_SCALE as i64));
}

#[test]
fn parse_fractions() {
    assert_eq!(parse_price("3.5"), Some(3_500_000));
    assert_eq!(parse_price("0.000001"), Some(1));
    assert_eq!(parse_price("12.250"), Some(12_250_000));
}

#[test]
fn parse_negative() {
    assert_eq!(parse_price("-1"), Some(-1_000_000));
    assert_eq!(parse_price("-0.001"), Some(-1000));
}

#[test]
fn parse_rejects_malformed() {
    for bad in ["", "abc", "5.", ".5", "-", "--5", "1.2345678", "1.2.3", "+5", "1e3", " 5"] {
        assert_eq!(parse_price(bad), None, "accepted {:?}", bad);
    }
}

#[test]
fn format_trims_zero_fractions() {
    assert_eq!(format_price(25_000_000), "25");
    assert_eq!(format_price(3_500_000), "3.5");
    assert_eq!(format_price(-1000), "-0.001");
    assert_eq!(format_price(0), "0");
    assert_eq!(format_price(12_250_000), "12.25");
}

#[test]
fn format_parse_roundtrip() {
    for v in [0i64, 1, -1, 25_000_000, -3_500_000, 999_999, i64::MAX, i64::MIN] {
        let text = format_price(v);
        assert_eq!(parse_price(&text), Some(v), "through {:?}", text);
    }
}

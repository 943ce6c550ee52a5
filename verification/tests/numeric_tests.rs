use tsconvert::numeric::format_fixed;
use tsconvert::numeric::parse_fixed;

fn chars(s: &str) -> Vec<char> {
    s.chars().collect()
}

fn parse(s: &str) -> i64 {
    parse_fixed(&chars(s))
}

fn fmt(ticks: i64) -> String {
    format_fixed(ticks).iter().collect()
}

#[test]
fn parses_plain_decimals() {
    assert_eq!(parse("12.345"), 12_345_000);
    assert_eq!(parse("0"), 0);
    assert_eq!(parse("7"), 7_000_000);
    assert_eq!(parse("-0.5"), -500_000);
    assert_eq!(parse("+2"), 2_000_000);
    assert_eq!(parse(".25"), 250_000);
    assert_eq!(parse("3."), 3_000_000);
}

#[test]
fn truncates_past_the_sixth_fraction_digit() {
    assert_eq!(parse("1.2345678"), 1_234_567);
    assert_eq!(parse("0.0000009"), 0);
}

#[test]
fn malformed_fields_yield_zero() {
    assert_eq!(parse(""), 0);
    assert_eq!(parse("abc"), 0);
    assert_eq!(parse(" 1.5"), 0);
    assert_eq!(parse("1.5 "), 0);
    assert_eq!(parse("1.2.3"), 0);
    assert_eq!(parse("1e5"), 0);
    assert_eq!(parse("-"), 0);
    assert_eq!(parse("."), 0);
    assert_eq!(parse("12a"), 0);
}

#[test]
fn oversized_magnitudes_saturate() {
    assert_eq!(parse("99999999999999999999"), i64::MAX);
    assert_eq!(parse("-99999999999999999999"), -i64::MAX);
}

#[test]
fn formats_ticks_as_decimal_text() {
    assert_eq!(fmt(12_345_000), "12.345");
    assert_eq!(fmt(-500_000), "-0.5");
    assert_eq!(fmt(0), "0");
    assert_eq!(fmt(1_000_000), "1");
    assert_eq!(fmt(1_234_567), "1.234567");
    assert_eq!(fmt(-7_000_000), "-7");
}

#[test]
fn format_then_parse_returns_the_ticks() {
    for &v in &[
        0i64,
        1,
        -1,
        999_999,
        -999_999,
        12_345_000,
        -12_345_000,
        i64::MAX,
        -i64::MAX,
    ] {
        assert_eq!(parse(&fmt(v)), v);
    }
}

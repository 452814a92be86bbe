use hockey_stats::fixed::default_metric;
use hockey_stats::fixed::parse_or_default;

fn parse(s: &str) -> i64 {
    parse_or_default(&s.chars().collect())
}

#[test]
fn test_parse_plain_numerals() {
    assert_eq!(parse("33.0"), 33000);
    assert_eq!(parse("7"), 7000);
    assert_eq!(parse("0.5"), 500);
    assert_eq!(parse(".5"), 500);
    assert_eq!(parse("5."), 5000);
    assert_eq!(parse("-2.5"), -2500);
    assert_eq!(parse("+12.25"), 12250);
    assert_eq!(parse("1.2345"), 1234);
}

#[test]
fn test_parse_failures_take_default() {
    assert_eq!(parse(""), 0);
    assert_eq!(parse("-"), 0);
    assert_eq!(parse("."), 0);
    assert_eq!(parse("abc"), 0);
    assert_eq!(parse("1e5"), 0);
    assert_eq!(parse("1.2.3"), 0);
    assert_eq!(parse("12 3"), 0);
    assert_eq!(parse("inf"), 0);
    assert_eq!(parse("NaN"), 0);
}

#[test]
fn test_parse_out_of_range_takes_default() {
    assert_eq!(parse("1000000000"), 1_000_000_000_000);
    assert_eq!(parse("1000000000.001"), 0);
    assert_eq!(parse("10000000000"), 0);
    assert_eq!(parse("-10000000000"), 0);
}

#[test]
fn test_default_metric_is_zero() {
    assert_eq!(default_metric(), 0);
}

use weight_watcher::decimal::{format_tenths, parse_weight};

fn parse(s: &str) -> Option<i64> {
    parse_weight(&s.as_bytes().to_vec())
}

#[test]
fn parses_plain_decimals() {
    assert_eq!(parse("72.3"), Some(723));
    assert_eq!(parse("60.0"), Some(600));
    assert_eq!(parse("65.5"), Some(655));
    assert_eq!(parse("58.2"), Some(582));
    assert_eq!(parse("70"), Some(700));
    assert_eq!(parse("0"), Some(0));
}

#[test]
fn parses_signs_and_bare_points() {
    assert_eq!(parse("-5"), Some(-50));
    assert_eq!(parse("+5."), Some(50));
    assert_eq!(parse(".5"), Some(5));
    assert_eq!(parse("-0.5"), Some(-5));
}

#[test]
fn rounds_to_one_fractional_digit() {
    assert_eq!(parse("72.34"), Some(723));
    assert_eq!(parse("72.35"), Some(724));
    assert_eq!(parse("72.3499"), Some(723));
    assert_eq!(parse("-72.35"), Some(-724));
}

#[test]
fn rejects_non_decimals() {
    assert_eq!(parse(""), None);
    assert_eq!(parse("abc"), None);
    assert_eq!(parse("."), None);
    assert_eq!(parse("+"), None);
    assert_eq!(parse("1e5"), None);
    assert_eq!(parse("7.2.3"), None);
    assert_eq!(parse("7 2"), None);
    assert_eq!(parse("--7"), None);
}

#[test]
fn rejects_out_of_range_magnitudes() {
    assert_eq!(parse("999999999999999999999999"), None);
    // Leading zeros do not change the value.
    assert_eq!(parse("000000000000000000000072.3"), Some(723));
}

#[test]
fn formats_with_one_fractional_digit() {
    assert_eq!(format_tenths(723), b"72.3".to_vec());
    assert_eq!(format_tenths(600), b"60.0".to_vec());
    assert_eq!(format_tenths(0), b"0.0".to_vec());
    assert_eq!(format_tenths(-5), b"-0.5".to_vec());
    assert_eq!(format_tenths(-724), b"-72.4".to_vec());
}

#[test]
fn format_then_parse_round_trips() {
    for w in [0i64, 1, -1, 9, 10, 723, -723, 1000000, -999999] {
        let text = format_tenths(w);
        assert_eq!(parse_weight(&text), Some(w));
    }
}

use jari::text::{decimal_string, duration_text, parse_duration};

#[test]
fn decimal_text() {
    assert_eq!(decimal_string(0), "0");
    assert_eq!(decimal_string(7), "7");
    assert_eq!(decimal_string(128000), "128000");
    assert_eq!(decimal_string(u64::MAX), u64::MAX.to_string());
}

#[test]
fn duration_text_has_three_decimals() {
    assert_eq!(duration_text(15000), "15.000");
    assert_eq!(duration_text(1234567), "1234.567");
    assert_eq!(duration_text(5), "0.005");
}

#[test]
fn duration_parses_to_milliseconds() {
    assert_eq!(parse_duration("15"), Some(15000));
    assert_eq!(parse_duration("15.0"), Some(15000));
    assert_eq!(parse_duration("15.25"), Some(15250));
    assert_eq!(parse_duration("10.023219954648526"), Some(10023));
    assert_eq!(parse_duration("0.5"), Some(500));
    assert_eq!(parse_duration(""), None);
    assert_eq!(parse_duration(".5"), None);
    assert_eq!(parse_duration("1.2.3"), None);
    assert_eq!(parse_duration("abc"), None);
    assert_eq!(parse_duration("18446744073709551616"), None);
    assert_eq!(parse_duration("18446744073709551.615"), Some(u64::MAX));
    assert_eq!(parse_duration("18446744073709551.616"), None);
}

#[test]
fn duration_round_trips() {
    for ms in [0u64, 1, 999, 1000, 15250, 600123, u64::MAX] {
        assert_eq!(parse_duration(&duration_text(ms)), Some(ms));
    }
}

use aksync::duration::{parse_duration, format_duration};

#[test]
fn parse_whole_hours() {
    assert_eq!(parse_duration("0"), Some(0));
    assert_eq!(parse_duration("2"), Some(2000));
    assert_eq!(parse_duration("10"), Some(10000));
}

#[test]
fn parse_fractions() {
    assert_eq!(parse_duration("2.00"), Some(2000));
    assert_eq!(parse_duration("2.5"), Some(2500));
    assert_eq!(parse_duration("0.25"), Some(250));
    assert_eq!(parse_duration("1.125"), Some(1125));
}

#[test]
fn parse_bare_dot_forms() {
    assert_eq!(parse_duration(".5"), Some(500));
    assert_eq!(parse_duration("5."), Some(5000));
    assert_eq!(parse_duration("."), None);
}

#[test]
fn parse_rejects_bad_grammar() {
    assert_eq!(parse_duration(""), None);
    assert_eq!(parse_duration("x"), None);
    assert_eq!(parse_duration("1.2.3"), None);
    assert_eq!(parse_duration("-1"), None);
    assert_eq!(parse_duration("1e3"), None);
}

#[test]
fn parse_rejects_overlong_integer_part() {
    assert_eq!(parse_duration("1234567890123456"), Some(1234567890123456000));
    assert_eq!(parse_duration("12345678901234567"), None);
}

#[test]
fn parse_truncates_fraction_beyond_thousandths() {
    assert_eq!(parse_duration("0.12345"), Some(123));
}

#[test]
fn format_matches_default_float_formatting() {
    assert_eq!(format_duration(0), "0");
    assert_eq!(format_duration(2000), "2");
    assert_eq!(format_duration(2500), "2.5");
    assert_eq!(format_duration(250), "0.25");
    assert_eq!(format_duration(123), "0.123");
    assert_eq!(format_duration(1050), "1.05");
    assert_eq!(format_duration(2500), 2.5f64.to_string());
    assert_eq!(format_duration(0), 0.0f64.to_string());
}

use station_stats::parse::{find_byte, parse_fixed_point, split_record};

#[test]
fn parses_valid_fixed_point_values() {
    assert_eq!(parse_fixed_point(b"0.0"), Some(0));
    assert_eq!(parse_fixed_point(b"-3.2"), Some(-32));
    assert_eq!(parse_fixed_point(b"99.9"), Some(999));
    assert_eq!(parse_fixed_point(b"12.3"), Some(123));
    assert_eq!(parse_fixed_point(b"-0.1"), Some(-1));
    assert_eq!(parse_fixed_point(b"3276.7"), Some(32767));
    assert_eq!(parse_fixed_point(b"-3276.7"), Some(-32767));
    assert_eq!(parse_fixed_point(b"-3276.8"), Some(-32768));
    assert_eq!(parse_fixed_point(b"-003276.8"), Some(-32768));
}

#[test]
fn rejects_malformed_fixed_point_values() {
    assert_eq!(parse_fixed_point(b"3.25"), None);
    assert_eq!(parse_fixed_point(b"abc"), None);
    assert_eq!(parse_fixed_point(b".5"), None);
    assert_eq!(parse_fixed_point(b""), None);
    assert_eq!(parse_fixed_point(b"-.5"), None);
    assert_eq!(parse_fixed_point(b"5."), None);
    assert_eq!(parse_fixed_point(b"5"), None);
    assert_eq!(parse_fixed_point(b"1x.5"), None);
    assert_eq!(parse_fixed_point(b"--1.5"), None);
    assert_eq!(parse_fixed_point(b"1.5 "), None);
}

#[test]
fn rejects_magnitudes_beyond_sixteen_bits() {
    assert_eq!(parse_fixed_point(b"3276.8"), None);
    assert_eq!(parse_fixed_point(b"-3276.9"), None);
    assert_eq!(parse_fixed_point(b"-3277.0"), None);
    assert_eq!(parse_fixed_point(b"123456789.0"), None);
    assert_eq!(parse_fixed_point(b"-99999.9"), None);
}

#[test]
fn finds_first_occurrence_of_a_byte() {
    assert_eq!(find_byte(b';', b"ab;c;d"), 2);
    assert_eq!(find_byte(b';', b"abc"), 3);
    assert_eq!(find_byte(b'\n', b""), 0);
}

#[test]
fn splits_a_record_at_its_first_semicolon() {
    assert_eq!(split_record(b"Hamburg;12.0"), Some((7, 120)));
    assert_eq!(split_record(b"A;-3.2\r"), Some((1, -32)));
    assert_eq!(split_record(b";0.0"), Some((0, 0)));
    assert_eq!(split_record(b"badline"), None);
    assert_eq!(split_record(b"A;x;1.0"), None);
    assert_eq!(split_record(b"A;1.0\r\r"), None);
    assert_eq!(split_record(b""), None);
}

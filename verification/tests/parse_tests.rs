use tenths_agg::parse::{format_tenths, parse_temperature};
use tenths_agg::AggError;

#[test]
fn parses_positive_single_digit() {
    assert_eq!(parse_temperature(b"1.0"), Ok(999 + 10));
    assert_eq!(parse_temperature(b"9.9"), Ok(999 + 99));
    assert_eq!(parse_temperature(b"0.0"), Ok(999));
}

#[test]
fn parses_positive_two_digits() {
    assert_eq!(parse_temperature(b"12.3"), Ok(999 + 123));
    assert_eq!(parse_temperature(b"99.9"), Ok(999 + 999));
}

#[test]
fn parses_negative_values() {
    assert_eq!(parse_temperature(b"-5.5"), Ok(999 - 55));
    assert_eq!(parse_temperature(b"-0.1"), Ok(999 - 1));
    assert_eq!(parse_temperature(b"-99.9"), Ok(0));
}

#[test]
fn rejects_malformed_values() {
    assert_eq!(parse_temperature(b""), Err(AggError::MalformedInput));
    assert_eq!(parse_temperature(b"1"), Err(AggError::MalformedInput));
    assert_eq!(parse_temperature(b"1.00"), Err(AggError::MalformedInput));
    assert_eq!(parse_temperature(b"abc"), Err(AggError::MalformedInput));
    assert_eq!(parse_temperature(b"1,0"), Err(AggError::MalformedInput));
    assert_eq!(parse_temperature(b"-1x.0"), Err(AggError::MalformedInput));
    assert_eq!(parse_temperature(b"--1.0"), Err(AggError::MalformedInput));
    assert_eq!(parse_temperature(b"123.4"), Err(AggError::MalformedInput));
}

#[test]
fn formats_tenths_canonically() {
    assert_eq!(format_tenths(0), b"0.0".to_vec());
    assert_eq!(format_tenths(-55), b"-5.5".to_vec());
    assert_eq!(format_tenths(123), b"12.3".to_vec());
    assert_eq!(format_tenths(-999), b"-99.9".to_vec());
    assert_eq!(format_tenths(999), b"99.9".to_vec());
    assert_eq!(format_tenths(-1), b"-0.1".to_vec());
}

#[test]
fn round_trips_every_tenths_value() {
    for t in -999i32..=999 {
        let s = format_tenths(t);
        let parsed = parse_temperature(&s);
        assert_eq!(parsed, Ok((t + 999) as usize));
    }
}

use temp_monitor::data::Timestamp;
use temp_monitor::logfile::{parse_hum, parse_legacy_timestamp, parse_temp, parse_timestamp};

#[test]
fn timestamp_parses_exact_pattern() {
    let ts = parse_timestamp(b"2024-01-02T03:04:05").unwrap();
    assert_eq!(ts, Timestamp::new(2024, 1, 2, 3, 4, 5).unwrap());
}

#[test]
fn timestamp_rejects_wrong_shapes() {
    assert!(parse_timestamp(b"2024-01-02 03:04:05").is_none());
    assert!(parse_timestamp(b"2024-01-02T03:04").is_none());
    assert!(parse_timestamp(b"2024-01-02T03:04:055").is_none());
    assert!(parse_timestamp(b"2024.01.02T03:04:05").is_none());
    assert!(parse_timestamp(b"2024-13-02T03:04:05").is_none());
    assert!(parse_timestamp(b"2024-01-02T24:04:05").is_none());
    assert!(parse_timestamp(b"").is_none());
}

#[test]
fn legacy_timestamp_parses() {
    let ts = parse_legacy_timestamp(b"2023.05.06", b"07:08:09").unwrap();
    assert_eq!(ts, Timestamp::new(2023, 5, 6, 7, 8, 9).unwrap());
}

#[test]
fn legacy_timestamp_rejects_wrong_shapes() {
    assert!(parse_legacy_timestamp(b"2023-05-06", b"07:08:09").is_none());
    assert!(parse_legacy_timestamp(b"2023.05.06", b"07-08-09").is_none());
    assert!(parse_legacy_timestamp(b"2023.13.06", b"07:08:09").is_none());
}

#[test]
fn temperature_accepts_dot_and_comma() {
    assert_eq!(parse_temp(b"21.5"), Some(215));
    assert_eq!(parse_temp(b"21,5"), Some(215));
    assert_eq!(parse_temp(b"-10.5"), Some(-105));
    assert_eq!(parse_temp(b"-0.3"), Some(-3));
    assert_eq!(parse_temp(b"+3.5"), Some(35));
}

#[test]
fn temperature_without_fraction_and_with_long_fraction() {
    assert_eq!(parse_temp(b"21"), Some(210));
    assert_eq!(parse_temp(b"21."), Some(210));
    assert_eq!(parse_temp(b".5"), Some(5));
    // Fractional digits past the first are dropped.
    assert_eq!(parse_temp(b"21.59"), Some(215));
}

#[test]
fn temperature_rejects_garbage_and_range() {
    assert!(parse_temp(b"").is_none());
    assert!(parse_temp(b"-").is_none());
    assert!(parse_temp(b".").is_none());
    assert!(parse_temp(b"abc").is_none());
    assert!(parse_temp(b"21.5.3").is_none());
    assert!(parse_temp(b"2 1").is_none());
    // Out of the sensor's signed 16-bit tenths range.
    assert!(parse_temp(b"4000.0").is_none());
    assert_eq!(parse_temp(b"3276.7"), Some(32767));
    assert!(parse_temp(b"3276.8").is_none());
    assert_eq!(parse_temp(b"-3276.8"), Some(-32768));
    assert!(parse_temp(b"-3276.9").is_none());
    assert!(parse_temp(b"99999999999999999999.0").is_none());
}

#[test]
fn humidity_parses_within_a_byte() {
    assert_eq!(parse_hum(b"60"), Some(60));
    assert_eq!(parse_hum(b"+60"), Some(60));
    assert_eq!(parse_hum(b"0"), Some(0));
    assert_eq!(parse_hum(b"007"), Some(7));
    assert_eq!(parse_hum(b"255"), Some(255));
}

#[test]
fn humidity_rejects_garbage_and_range() {
    assert!(parse_hum(b"").is_none());
    assert!(parse_hum(b"+").is_none());
    assert!(parse_hum(b"-1").is_none());
    assert!(parse_hum(b"256").is_none());
    assert!(parse_hum(b"12a").is_none());
    assert!(parse_hum(b"6 0").is_none());
}

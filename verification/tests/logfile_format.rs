use temp_monitor::data::Timestamp;
use temp_monitor::logfile::{format_row, header_row, log_filename};

fn ts(y: u16, mo: u8, d: u8, h: u8, mi: u8, s: u8) -> Timestamp {
    Timestamp::new(y, mo, d, h, mi, s).unwrap()
}

#[test]
fn header_row_bytes() {
    assert_eq!(header_row(), b"DateTime,Temperature,Humidity\n".to_vec());
}

#[test]
fn format_row_positive_temperature() {
    let row = format_row(&ts(2024, 1, 2, 3, 4, 5), 215, 60);
    assert_eq!(row, b"2024-01-02T03:04:05,21.5,60\n".to_vec());
}

#[test]
fn format_row_negative_temperature() {
    let row = format_row(&ts(2023, 12, 31, 23, 59, 59), -105, 100);
    assert_eq!(row, b"2023-12-31T23:59:59,-10.5,100\n".to_vec());
}

#[test]
fn format_row_small_magnitudes() {
    assert_eq!(format_row(&ts(2024, 6, 7, 0, 0, 0), 0, 0), b"2024-06-07T00:00:00,0.0,0\n".to_vec());
    assert_eq!(format_row(&ts(2024, 6, 7, 8, 9, 10), -3, 5), b"2024-06-07T08:09:10,-0.3,5\n".to_vec());
}

#[test]
fn format_row_extremes() {
    assert_eq!(
        format_row(&ts(2024, 6, 7, 1, 2, 3), i16::MAX, 255),
        b"2024-06-07T01:02:03,3276.7,255\n".to_vec()
    );
    assert_eq!(
        format_row(&ts(2024, 6, 7, 1, 2, 3), i16::MIN, 0),
        b"2024-06-07T01:02:03,-3276.8,0\n".to_vec()
    );
}

#[test]
fn daily_filename() {
    assert_eq!(log_filename(2024, 1, 2), b"log_2024-01-02.csv".to_vec());
    assert_eq!(log_filename(2025, 11, 30), b"log_2025-11-30.csv".to_vec());
}

#[test]
fn timestamp_rejects_out_of_range_fields() {
    assert!(Timestamp::new(2024, 0, 1, 0, 0, 0).is_none());
    assert!(Timestamp::new(2024, 13, 1, 0, 0, 0).is_none());
    assert!(Timestamp::new(2024, 1, 0, 0, 0, 0).is_none());
    assert!(Timestamp::new(2024, 1, 32, 0, 0, 0).is_none());
    assert!(Timestamp::new(2024, 1, 1, 24, 0, 0).is_none());
    assert!(Timestamp::new(2024, 1, 1, 0, 60, 0).is_none());
    assert!(Timestamp::new(2024, 1, 1, 0, 0, 60).is_none());
    assert!(Timestamp::new(10000, 1, 1, 0, 0, 0).is_none());
    assert!(Timestamp::new(9999, 12, 31, 23, 59, 59).is_some());
}

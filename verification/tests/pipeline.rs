use temp_monitor::config::{Config, CONTINUOUS_PAUSE_SECS, CONTINUOUS_SCAN_SECS};
use temp_monitor::data::{BleDataPoint, Message, Timestamp};
use temp_monitor::dedupe::{process_message, Action, Deduper};
use temp_monitor::scanner::{
    adapter_error_status, ascii_eq_ignore_case, evaluate_advertisement, scanning_status,
    waiting_status,
};

fn ts(y: u16, mo: u8, d: u8, h: u8, mi: u8, s: u8) -> Timestamp {
    Timestamp::new(y, mo, d, h, mi, s).unwrap()
}

fn reading(temp_deci: i16, hum: u8) -> BleDataPoint {
    BleDataPoint {
        timestamp: ts(2024, 3, 4, 10, 0, 0),
        temp_deci,
        hum,
        device_id: "hci0/dev_B8_59_CE_33_0F_93".to_string(),
        rssi: Some(-60),
        raw_data: vec![0xD7, 0x3C],
    }
}

#[test]
fn config_defaults() {
    let c = Config::default();
    assert_eq!(c.target_mac, "B8:59:CE:33:0F:93");
    assert_eq!(c.scan_timeout_secs, 20);
    assert_eq!(c.scan_pause_secs, 20);
    assert_eq!(c.duplicate_threshold_secs, 30);
    assert_eq!(c.temp_warn_high_deci, 300);
    assert_eq!(c.temp_warn_low_deci, 100);
    assert!(c.continuous_mode);
    assert!(c.load_all_history);
}

#[test]
fn continuous_mode_uses_short_fixed_intervals() {
    let mut c = Config::default();
    c.continuous_mode = true;
    c.scan_timeout_secs = 999;
    c.scan_pause_secs = 888;
    assert_eq!(c.observe_window_secs(), CONTINUOUS_SCAN_SECS);
    assert_eq!(c.observe_window_secs(), 60);
    assert_eq!(c.idle_pause_secs(), CONTINUOUS_PAUSE_SECS);
    assert_eq!(c.idle_pause_secs(), 1);
    assert!(!c.stop_after_reading());
}

#[test]
fn timed_mode_uses_configured_intervals_exactly() {
    let mut c = Config::default();
    c.continuous_mode = false;
    c.scan_timeout_secs = 999;
    c.scan_pause_secs = 888;
    assert_eq!(c.observe_window_secs(), 999);
    assert_eq!(c.idle_pause_secs(), 888);
    assert!(c.stop_after_reading());
}

#[test]
fn status_texts() {
    let mut c = Config::default();
    c.continuous_mode = true;
    assert_eq!(scanning_status(&c), "Scanning (continuous mode)...");
    c.continuous_mode = false;
    assert_eq!(scanning_status(&c), "Scanning...");
    assert_eq!(waiting_status(), "Waiting...");
    assert_eq!(adapter_error_status(), "Error: BT adapter not found");
}

#[test]
fn address_comparison_ignores_ascii_case() {
    assert!(ascii_eq_ignore_case(b"B8:59:CE:33:0F:93", b"b8:59:ce:33:0f:93"));
    assert!(ascii_eq_ignore_case(b"abc", b"ABC"));
    assert!(!ascii_eq_ignore_case(b"B8:59:CE:33:0F:93", b"B8:59:CE:33:0F:94"));
    assert!(!ascii_eq_ignore_case(b"short", b"longer"));
}

#[test]
fn advertisement_from_target_with_payload_yields_reading() {
    let r = evaluate_advertisement(
        b"B8:59:CE:33:0F:93",
        b"b8:59:ce:33:0f:93",
        Some((0x0000, vec![0xD7, 0x3C])),
        ts(2024, 3, 4, 10, 0, 0),
        "dev".to_string(),
        Some(-70),
    )
    .unwrap();
    assert_eq!(r.temp_deci, -10496);
    assert_eq!(r.hum, 60);
    assert_eq!(r.raw_data, vec![0xD7, 0x3C]);
    assert_eq!(r.device_id, "dev");
    assert_eq!(r.rssi, Some(-70));
    assert_eq!(r.timestamp, ts(2024, 3, 4, 10, 0, 0));
}

#[test]
fn advertisement_from_other_device_yields_nothing() {
    assert!(evaluate_advertisement(
        b"B8:59:CE:33:0F:93",
        b"11:22:33:44:55:66",
        Some((0x0000, vec![0xD7, 0x3C])),
        ts(2024, 3, 4, 10, 0, 0),
        "dev".to_string(),
        None,
    )
    .is_none());
}

#[test]
fn advertisement_without_enough_payload_yields_nothing() {
    assert!(evaluate_advertisement(
        b"B8:59:CE:33:0F:93",
        b"B8:59:CE:33:0F:93",
        Some((0x0000, vec![0xD7])),
        ts(2024, 3, 4, 10, 0, 0),
        "dev".to_string(),
        None,
    )
    .is_none());
    assert!(evaluate_advertisement(
        b"B8:59:CE:33:0F:93",
        b"B8:59:CE:33:0F:93",
        None,
        ts(2024, 3, 4, 10, 0, 0),
        "dev".to_string(),
        None,
    )
    .is_none());
}

#[test]
fn dedupe_rate_limits_by_processing_gap() {
    let mut d = Deduper::new();
    // No prior acceptance: always accepted.
    assert!(d.check_and_mark(100, 30));
    // Gap below the threshold: rejected, marker unchanged.
    assert!(!d.check_and_mark(120, 30));
    // The gap still counts from the accepted reading at 100.
    assert!(d.check_and_mark(130, 30));
    // Gap exactly at the threshold: accepted.
    assert!(d.check_and_mark(160, 30));
}

#[test]
fn processor_persists_then_drops_duplicates() {
    let mut d = Deduper::new();
    let c = Config::default();
    let wall = ts(2024, 3, 4, 10, 0, 7);
    let a = process_message(&mut d, Message::NewData(reading(215, 60)), &c, 1000, &wall);
    match a {
        Action::Persist { row, data } => {
            // The row is stamped with the wall-clock write time.
            assert_eq!(row, b"2024-03-04T10:00:07,21.5,60\n".to_vec());
            assert_eq!(data.temp_deci, 215);
            assert_eq!(data.hum, 60);
        },
        _ => panic!("first reading must be persisted"),
    }
    // 29 s later, under the default 30 s threshold: dropped silently.
    let a = process_message(&mut d, Message::NewData(reading(216, 61)), &c, 1029, &wall);
    assert!(matches!(a, Action::Ignore));
    // 30 s later: persisted again.
    let a = process_message(&mut d, Message::NewData(reading(216, 61)), &c, 1030, &wall);
    assert!(matches!(a, Action::Persist { .. }));
}

#[test]
fn processor_forwards_status_and_ignores_write_outcomes() {
    let mut d = Deduper::new();
    let c = Config::default();
    let wall = ts(2024, 3, 4, 10, 0, 7);
    let a = process_message(&mut d, Message::StatusUpdate("Waiting...".to_string()), &c, 5, &wall);
    match a {
        Action::ForwardStatus { status } => assert_eq!(status, "Waiting..."),
        _ => panic!("status text must be forwarded"),
    }
    let a = process_message(&mut d, Message::CsvWriteStatus(true), &c, 6, &wall);
    assert!(matches!(a, Action::Ignore));
    // Neither message touched the dedupe marker.
    let a = process_message(&mut d, Message::NewData(reading(215, 60)), &c, 7, &wall);
    assert!(matches!(a, Action::Persist { .. }));
}

#[test]
fn threshold_change_affects_the_very_next_decision() {
    let mut d = Deduper::new();
    let mut c = Config::default();
    c.duplicate_threshold_secs = 30;
    let wall = ts(2024, 3, 4, 10, 0, 7);
    let a = process_message(&mut d, Message::NewData(reading(215, 60)), &c, 1000, &wall);
    assert!(matches!(a, Action::Persist { .. }));
    // Under the old threshold this would be dropped; the freshly written
    // threshold of 5 s admits it.
    c.duplicate_threshold_secs = 5;
    let a = process_message(&mut d, Message::NewData(reading(216, 61)), &c, 1010, &wall);
    assert!(matches!(a, Action::Persist { .. }));
    // And a tightened threshold rejects what the old one would admit.
    c.duplicate_threshold_secs = 3600;
    let a = process_message(&mut d, Message::NewData(reading(217, 62)), &c, 1100, &wall);
    assert!(matches!(a, Action::Ignore));
}

use temp_monitor::data::{HistoryPoint, Timestamp};
use temp_monitor::history::History;
use temp_monitor::logfile::{format_row, header_row, load_history};
use temp_monitor::MAX_HISTORY_POINTS;

fn ts(y: u16, mo: u8, d: u8, h: u8, mi: u8, s: u8) -> Timestamp {
    Timestamp::new(y, mo, d, h, mi, s).unwrap()
}

fn point(second_pair: (u8, u8), temp_deci: i16, hum: u8) -> HistoryPoint {
    HistoryPoint {
        timestamp: ts(2024, 3, 4, 10, second_pair.0, second_pair.1),
        temp_deci,
        hum,
    }
}

fn write_log(points: &[HistoryPoint]) -> Vec<u8> {
    let mut file = header_row();
    for p in points {
        file.extend_from_slice(&format_row(&p.timestamp, p.temp_deci, p.hum));
    }
    file
}

#[test]
fn round_trip_reproduces_points_in_order() {
    let pts = vec![
        point((0, 1), 215, 60),
        point((0, 2), -105, 61),
        point((0, 3), 0, 100),
        point((0, 4), -3, 0),
    ];
    let file = write_log(&pts);
    let loaded = load_history(&file, true);
    assert_eq!(loaded, pts);
}

#[test]
fn empty_and_header_only_files_load_empty() {
    assert!(load_history(b"", true).is_empty());
    assert!(load_history(&header_row(), true).is_empty());
    assert!(load_history(b"", false).is_empty());
}

#[test]
fn malformed_rows_are_skipped_silently() {
    let pts = vec![point((1, 1), 200, 50), point((1, 2), 201, 51)];
    let mut file = header_row();
    file.extend_from_slice(&format_row(&pts[0].timestamp, pts[0].temp_deci, pts[0].hum));
    file.extend_from_slice(b"not,a,row\n");
    file.extend_from_slice(b"2024-99-04T10:01:99,21.5,60\n");
    file.extend_from_slice(&format_row(&pts[1].timestamp, pts[1].temp_deci, pts[1].hum));
    let loaded = load_history(&file, true);
    assert_eq!(loaded, pts);
}

#[test]
fn crlf_line_endings_are_accepted() {
    let mut file = Vec::new();
    file.extend_from_slice(b"DateTime,Temperature,Humidity\r\n");
    file.extend_from_slice(b"2024-03-04T10:00:01,21.5,60\r\n");
    let loaded = load_history(&file, true);
    assert_eq!(loaded, vec![point((0, 1), 215, 60)]);
}

#[test]
fn comma_decimal_inside_semicolon_rows_parses() {
    // A semicolon file holding current-format rows with comma decimals.
    let mut file = Vec::new();
    file.extend_from_slice(b"DateTime;Temperature;Humidity\n");
    file.extend_from_slice(b"2024-03-04T10:00:01;21,5;60\n");
    let loaded = load_history(&file, true);
    assert_eq!(loaded, vec![point((0, 1), 215, 60)]);
}

#[test]
fn legacy_file_is_fully_parsed() {
    // Semicolon-delimited legacy rows with comma decimals: the comma pass
    // yields no records, the semicolon retry parses all of them.
    let mut file = Vec::new();
    file.extend_from_slice(b"Date;Time;Temp;Hum\n");
    file.extend_from_slice(b"2023.05.06;07:08:09;21,5;60\n");
    file.extend_from_slice(b"2023.05.06;07:18:09;-10,5;61\n");
    file.extend_from_slice(b"2023.05.06;07:28:09;0,0;62\n");
    let loaded = load_history(&file, true);
    assert_eq!(
        loaded,
        vec![
            HistoryPoint { timestamp: ts(2023, 5, 6, 7, 8, 9), temp_deci: 215, hum: 60 },
            HistoryPoint { timestamp: ts(2023, 5, 6, 7, 18, 9), temp_deci: -105, hum: 61 },
            HistoryPoint { timestamp: ts(2023, 5, 6, 7, 28, 9), temp_deci: 0, hum: 62 },
        ]
    );
}

#[test]
fn legacy_rows_with_dot_decimals_inside_comma_pass_yield_nothing() {
    // With dot decimals every line is a single comma-field, so the comma
    // pass keeps the rows but neither format matches a one-field record.
    let mut file = Vec::new();
    file.extend_from_slice(b"Date;Time;Temp;Hum\n");
    file.extend_from_slice(b"2023.05.06;07:08:09;21.5;60\n");
    let loaded = load_history(&file, true);
    assert!(loaded.is_empty());
}

#[test]
fn bounded_load_keeps_most_recent_suffix() {
    let m = MAX_HISTORY_POINTS + 5;
    let mut pts = Vec::new();
    for i in 0..m {
        let mi = (i / 60) as u8;
        let s = (i % 60) as u8;
        pts.push(point((mi, s), 100 + (i % 100) as i16, (i % 100) as u8));
    }
    let file = write_log(&pts);
    let loaded = load_history(&file, false);
    assert_eq!(loaded.len(), MAX_HISTORY_POINTS);
    assert_eq!(loaded[..], pts[5..]);
    // Unbounded loading keeps everything.
    let all = load_history(&file, true);
    assert_eq!(all, pts);
}

#[test]
fn history_buffer_bounds_and_eviction() {
    let mut bounded = History::new(false);
    for i in 0..(MAX_HISTORY_POINTS + 3) {
        let mi = (i / 60) as u8;
        let s = (i % 60) as u8;
        bounded.push(point((mi, s), i as i16, 50));
    }
    assert_eq!(bounded.len(), MAX_HISTORY_POINTS);
    // The three oldest were evicted.
    assert_eq!(bounded.get(0).temp_deci, 3);
    assert_eq!(bounded.latest().unwrap().temp_deci, (MAX_HISTORY_POINTS + 2) as i16);

    let mut unbounded = History::new(true);
    for i in 0..(MAX_HISTORY_POINTS + 3) {
        let mi = (i / 60) as u8;
        let s = (i % 60) as u8;
        unbounded.push(point((mi, s), i as i16, 50));
    }
    assert_eq!(unbounded.len(), MAX_HISTORY_POINTS + 3);
    assert_eq!(unbounded.get(0).temp_deci, 0);
}

#[test]
fn history_from_loaded_wraps_loader_output() {
    let pts = vec![point((0, 1), 215, 60), point((0, 2), 216, 61)];
    let h = History::from_loaded(pts.clone(), true);
    assert_eq!(h.len(), 2);
    assert_eq!(*h.get(0), pts[0]);
    assert_eq!(*h.latest().unwrap(), pts[1]);
    let empty = History::new(true);
    assert!(empty.latest().is_none());
}

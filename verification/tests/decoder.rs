use temp_monitor::decode::decode_reading;

#[test]
fn short_payloads_yield_nothing() {
    assert!(decode_reading(0x0000, &[]).is_none());
    assert!(decode_reading(0x0000, &[0xD7]).is_none());
    assert!(decode_reading(0xFFFF, &[0x00]).is_none());
}

#[test]
fn two_byte_payload_decodes() {
    // Company id 0x0000: the value's low byte is 0, its high byte is the
    // first payload byte.
    let r = decode_reading(0x0000, &[0xD7, 0x3C]).unwrap();
    assert_eq!(r.0, i16::from_le_bytes([0x00, 0xD7]));
    assert_eq!(r.0, -10496);
    assert_eq!(r.1, 60);
}

#[test]
fn company_id_high_byte_is_low_value_byte() {
    // Raw value 215 -> 21.5 degrees: low byte 0xD7 from the company id's
    // high byte, high byte 0x00 from the first payload byte.
    let r = decode_reading(0xD700, &[0x00, 0x55]).unwrap();
    assert_eq!(r.0, 215);
    assert_eq!(r.1, 0x55);
}

#[test]
fn negative_temperature_sign_extends() {
    // First payload byte 0xFF puts the sign bit on: -25.6 degrees.
    let r = decode_reading(0x0000, &[0xFF, 10]).unwrap();
    assert_eq!(r.0, -256);
    assert_eq!(r.1, 10);
}

#[test]
fn humidity_above_100_passes_through() {
    let r = decode_reading(0x0000, &[0x00, 0xFF]).unwrap();
    assert_eq!(r.0, 0);
    assert_eq!(r.1, 255);
}

#[test]
fn extra_payload_bytes_are_ignored_by_the_values() {
    let r = decode_reading(0x0000, &[0x01, 50, 99, 98, 97]).unwrap();
    assert_eq!(r.0, 256);
    assert_eq!(r.1, 50);
}

//! Per-event decisions of the scan loop: matching the target address and
//! turning a matching advertisement into a reading.
//!
//! The loop itself — adapter acquisition, the event stream, timing — is
//! suspension-based platform work and lives outside the library; it feeds
//! each event's plain values into `evaluate_advertisement` and obeys the
//! timing rules of [`crate::config::Config`].

use vstd::prelude::*;
use crate::config::Config;
use crate::data::{BleDataPoint, Timestamp};
use crate::decode::decode_reading;
use crate::decode::spec_temp_raw;

verus! {

/// ASCII lower-casing of one byte.
pub open spec fn spec_ascii_lower(b: u8) -> u8 {
    if 65 <= b <= 90 {
        (b + 32) as u8
    } else {
        b
    }
}

/// Case-insensitive ASCII equality of two byte strings.
pub open spec fn spec_ascii_eq_ignore_case(a: Seq<u8>, b: Seq<u8>) -> bool {
    a.len() == b.len() && forall|i: int|
        0 <= i < a.len() ==> spec_ascii_lower(a[i]) == spec_ascii_lower(b[i])
}

/// Compares two addresses, ignoring ASCII case.
pub fn ascii_eq_ignore_case(a: &[u8], b: &[u8]) -> (r: bool)
    ensures
        r == spec_ascii_eq_ignore_case(a@, b@),
{
    if a.len() != b.len() {
        return false;
    }
    let mut i: usize = 0;
    while i < a.len()
        invariant
            0 <= i <= a.len(),
            a@.len() == b@.len(),
            forall|j: int| 0 <= j < i ==> spec_ascii_lower(a@[j]) == spec_ascii_lower(b@[j]),
        decreases a.len() - i,
    {
        let x = a[i];
        let y = b[i];
        let xl = if 65 <= x && x <= 90 { x + 32 } else { x };
        let yl = if 65 <= y && y <= 90 { y + 32 } else { y };
        if xl != yl {
            return false;
        }
        i += 1;
    }
    true
}

/// Decides one discovery/update event: a reading comes out if and only if
/// the device address matches the target (ignoring ASCII case) and the
/// advertisement carries a manufacturer-data entry whose payload has at
/// least 2 bytes. The reading carries the decoded values, the capture
/// timestamp, the device identifier, the reported signal strength, and the
/// raw payload.
pub fn evaluate_advertisement(
    target_mac: &[u8],
    address: &[u8],
    manufacturer: Option<(u16, Vec<u8>)>,
    timestamp: Timestamp,
    device_id: String,
    rssi: Option<i16>,
) -> (r: Option<BleDataPoint>)
    ensures
        match r {
            Some(p) => {
                &&& spec_ascii_eq_ignore_case(address@, target_mac@)
                &&& manufacturer matches Some((cid, data)) && {
                    &&& data@.len() >= 2
                    &&& p.temp_deci as int == spec_temp_raw(cid, data@[0])
                    &&& p.hum == data@[1]
                    &&& p.raw_data@ == data@
                }
                &&& p.timestamp == timestamp
                &&& p.device_id@ == device_id@
                &&& p.rssi == rssi
            },
            None => !({
                &&& spec_ascii_eq_ignore_case(address@, target_mac@)
                &&& manufacturer matches Some((cid, data)) && data@.len() >= 2
            }),
        },
{
    if !ascii_eq_ignore_case(address, target_mac) {
        return None;
    }
    match manufacturer {
        None => None,
        Some((company_id, data)) => {
            match decode_reading(company_id, data.as_slice()) {
                None => None,
                Some((temp_deci, hum)) => {
                    Some(BleDataPoint {
                        timestamp,
                        temp_deci,
                        hum,
                        device_id,
                        rssi,
                        raw_data: data,
                    })
                },
            }
        },
    }
}

/// Status text emitted when a scan starts.
pub fn scanning_status(config: &Config) -> (r: &'static str)
    ensures
        config.continuous_mode ==> r@ == "Scanning (continuous mode)..."@,
        !config.continuous_mode ==> r@ == "Scanning..."@,
{
    if config.continuous_mode {
        "Scanning (continuous mode)..."
    } else {
        "Scanning..."
    }
}

/// Status text emitted when a cycle goes idle.
pub fn waiting_status() -> (r: &'static str)
    ensures
        r@ == "Waiting..."@,
{
    "Waiting..."
}

/// Status text emitted when no BLE adapter could be acquired.
pub fn adapter_error_status() -> (r: &'static str)
    ensures
        r@ == "Error: BT adapter not found"@,
{
    "Error: BT adapter not found"
}

} // verus!

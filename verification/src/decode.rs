//! Decoding one manufacturer-data entry of a BLE advertisement into a
//! temperature/humidity reading.

use vstd::prelude::*;

verus! {

/// The signed 16-bit temperature value, in tenths of a degree, carried by a
/// manufacturer-data entry: the little-endian pair made of the high byte of
/// the company identifier (low byte of the value) and the first payload byte
/// (high byte of the value).
pub open spec fn spec_temp_raw(company_id: u16, b0: u8) -> int {
    let w = (b0 as int) * 256 + (company_id as int) / 256;
    if w < 32768 {
        w
    } else {
        w - 65536
    }
}

/// Decodes a manufacturer-data entry. A reading comes out if and only if the
/// payload has at least 2 bytes: the temperature from the company identifier
/// and the first payload byte, the humidity from the second payload byte,
/// passed through unchecked even above 100.
pub fn decode_reading(company_id: u16, data: &[u8]) -> (r: Option<(i16, u8)>)
    ensures
        match r {
            Some((temp_deci, hum)) => {
                &&& data@.len() >= 2
                &&& temp_deci as int == spec_temp_raw(company_id, data@[0])
                &&& hum == data@[1]
            },
            None => data@.len() < 2,
        },
{
    if data.len() >= 2 {
        let lo: u16 = company_id / 256;
        let w: u32 = (data[0] as u32) * 256 + (lo as u32);
        let temp_deci: i16 = if w < 32768 {
            w as i16
        } else {
            ((w as i32) - 65536) as i16
        };
        Some((temp_deci, data[1]))
    } else {
        None
    }
}

} // verus!

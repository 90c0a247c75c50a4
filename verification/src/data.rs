//! Plain data carried through the pipeline: timestamps, readings, and the
//! messages exchanged between the scanner, the processor, and the consumer.

use vstd::prelude::*;

verus! {

/// Calendar timestamp with one-second resolution, the unit written into and
/// read back from log rows.
#[derive(Clone, Copy, Debug, PartialEq, Eq, Structural)]
pub struct Timestamp {
    pub year: u16,
    pub month: u8,
    pub day: u8,
    pub hour: u8,
    pub minute: u8,
    pub second: u8,
}

impl Timestamp {
    /// Field ranges that make the timestamp printable in the fixed-width
    /// log formats (four-digit year, two digits elsewhere).
    pub open spec fn wf(self) -> bool {
        &&& self.year <= 9999
        &&& 1 <= self.month <= 12
        &&& 1 <= self.day <= 31
        &&& self.hour <= 23
        &&& self.minute <= 59
        &&& self.second <= 59
    }

    /// Builds a timestamp, accepting exactly the field ranges of `wf`.
    pub fn new(year: u16, month: u8, day: u8, hour: u8, minute: u8, second: u8)
        -> (r: Option<Timestamp>)
        ensures
            match r {
                Some(ts) => {
                    &&& ts.wf()
                    &&& ts.year == year
                    &&& ts.month == month
                    &&& ts.day == day
                    &&& ts.hour == hour
                    &&& ts.minute == minute
                    &&& ts.second == second
                },
                None => !(Timestamp {
                    year, month, day, hour, minute, second
                }).wf(),
            },
    {
        if year <= 9999
            && 1 <= month && month <= 12
            && 1 <= day && day <= 31
            && hour <= 23
            && minute <= 59
            && second <= 59
        {
            Some(Timestamp { year, month, day, hour, minute, second })
        } else {
            None
        }
    }
}

/// The persisted and plotted subset of a reading.
#[derive(Clone, Copy, Debug, PartialEq, Eq, Structural)]
pub struct HistoryPoint {
    pub timestamp: Timestamp,
    /// Temperature in tenths of a degree Celsius.
    pub temp_deci: i16,
    /// Relative humidity in percent; the decoder passes values above 100
    /// through unchecked.
    pub hum: u8,
}

impl HistoryPoint {
    pub open spec fn wf(self) -> bool {
        self.timestamp.wf()
    }
}

/// One decoded advertisement from the target device.
#[derive(Clone, Debug)]
pub struct BleDataPoint {
    pub timestamp: Timestamp,
    /// Temperature in tenths of a degree Celsius.
    pub temp_deci: i16,
    pub hum: u8,
    pub device_id: String,
    pub rssi: Option<i16>,
    pub raw_data: Vec<u8>,
}

impl BleDataPoint {
    /// The subset of the reading that history and the log retain.
    pub fn to_history_point(&self) -> (r: HistoryPoint)
        ensures
            r.timestamp == self.timestamp,
            r.temp_deci == self.temp_deci,
            r.hum == self.hum,
    {
        HistoryPoint { timestamp: self.timestamp, temp_deci: self.temp_deci, hum: self.hum }
    }
}

/// Messages carried on both pipeline channels.
pub enum Message {
    NewData(BleDataPoint),
    StatusUpdate(String),
    CsvWriteStatus(bool),
}

} // verus!

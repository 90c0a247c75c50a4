//! Acquisition core of a BLE environmental monitor: decoding advertisement
//! payloads, rate-limiting accepted readings, and reading/writing the
//! append-only daily log file.
//!
//! Temperatures are carried as tenths of a degree Celsius in an `i16`, the
//! resolution of both the sensor payload and the log-file format.

use vstd::prelude::*;

pub mod config;
pub mod data;
pub mod decode;
pub mod dedupe;
pub mod history;
pub mod logfile;
pub mod scanner;

verus! {

/// Number of history points retained when the configuration asks for a
/// bounded history.
pub const MAX_HISTORY_POINTS: usize = 200;

} // verus!

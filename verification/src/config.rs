//! Shared configuration and the timing rules derived from it.

use vstd::prelude::*;

verus! {

/// Scan window used whenever continuous mode is on, in seconds.
pub const CONTINUOUS_SCAN_SECS: u64 = 60;

/// Idle pause used whenever continuous mode is on, in seconds.
pub const CONTINUOUS_PAUSE_SECS: u64 = 1;

/// The settings record shared by the scanner and the processor. Warning
/// thresholds are carried in tenths of a degree Celsius, like readings.
#[derive(Clone, Debug)]
pub struct Config {
    /// BLE address to match, compared case-insensitively.
    pub target_mac: String,
    /// Longest single scan in timed mode, in seconds.
    pub scan_timeout_secs: u64,
    /// Idle time between scan cycles in timed mode, in seconds.
    pub scan_pause_secs: u64,
    /// Minimum spacing between persisted readings, in seconds.
    pub duplicate_threshold_secs: u64,
    /// Display-only upper warning threshold, tenths of a degree.
    pub temp_warn_high_deci: i32,
    /// Display-only lower warning threshold, tenths of a degree.
    pub temp_warn_low_deci: i32,
    /// Continuous mode collapses scan window and pause to the short fixed
    /// intervals above.
    pub continuous_mode: bool,
    /// Load the whole log at startup instead of a bounded suffix.
    pub load_all_history: bool,
}

/// The observe window a scan cycle uses under configuration `c`.
pub open spec fn spec_observe_window_secs(c: Config) -> u64 {
    if c.continuous_mode { CONTINUOUS_SCAN_SECS } else { c.scan_timeout_secs }
}

/// The idle pause (and adapter-retry backoff) a scan cycle uses under
/// configuration `c`.
pub open spec fn spec_idle_pause_secs(c: Config) -> u64 {
    if c.continuous_mode { CONTINUOUS_PAUSE_SECS } else { c.scan_pause_secs }
}

impl Default for Config {
    /// The defaults used when the configuration file is absent or unreadable.
    fn default() -> (r: Config)
        ensures
            r.target_mac@ == "B8:59:CE:33:0F:93"@,
            r.scan_timeout_secs == 20,
            r.scan_pause_secs == 20,
            r.duplicate_threshold_secs == 30,
            r.temp_warn_high_deci == 300,
            r.temp_warn_low_deci == 100,
            r.continuous_mode,
            r.load_all_history,
    {
        Config {
            target_mac: "B8:59:CE:33:0F:93".to_string(),
            scan_timeout_secs: 20,
            scan_pause_secs: 20,
            duplicate_threshold_secs: 30,
            temp_warn_high_deci: 300,
            temp_warn_low_deci: 100,
            continuous_mode: true,
            load_all_history: true,
        }
    }
}

impl Config {
    /// How long one observe window lasts.
    pub fn observe_window_secs(&self) -> (r: u64)
        ensures
            r == spec_observe_window_secs(*self),
    {
        if self.continuous_mode { CONTINUOUS_SCAN_SECS } else { self.scan_timeout_secs }
    }

    /// How long the scanner idles between cycles; also the backoff after a
    /// failed adapter acquisition.
    pub fn idle_pause_secs(&self) -> (r: u64)
        ensures
            r == spec_idle_pause_secs(*self),
    {
        if self.continuous_mode { CONTINUOUS_PAUSE_SECS } else { self.scan_pause_secs }
    }

    /// Whether an observe window ends as soon as one reading was emitted:
    /// timed mode is single-shot per cycle, continuous mode keeps observing.
    pub fn stop_after_reading(&self) -> (r: bool)
        ensures
            r == !self.continuous_mode,
    {
        !self.continuous_mode
    }
}

/// In continuous mode, observe windows and idle pauses use the short fixed
/// intervals regardless of the configured durations; in timed mode they use
/// the configured durations exactly.
pub proof fn lemma_mode_selects_intervals(c: Config)
    ensures
        c.continuous_mode ==> spec_observe_window_secs(c) == CONTINUOUS_SCAN_SECS
            && spec_idle_pause_secs(c) == CONTINUOUS_PAUSE_SECS,
        !c.continuous_mode ==> spec_observe_window_secs(c) == c.scan_timeout_secs
            && spec_idle_pause_secs(c) == c.scan_pause_secs,
{
}

} // verus!

//! The processor's per-message decisions: the rate-limiting policy on
//! accepted readings, what is persisted, and what goes downstream.

use vstd::prelude::*;
use crate::config::Config;
use crate::data::{BleDataPoint, Message, Timestamp};
use crate::logfile::{format_row, spec_row};

verus! {

/// Whether a reading arriving at processing time `now` is accepted, given the
/// processing time of the last accepted reading and the current threshold.
/// With no prior acceptance a reading is always accepted.
pub open spec fn spec_accepts(last: Option<u64>, now: u64, threshold: u64) -> bool {
    match last {
        Option::None => true,
        Option::Some(l) => now as int - l as int >= threshold as int,
    }
}

/// Dedupe state: the processing time of the last accepted reading, in
/// seconds on a monotonic clock.
pub struct Deduper {
    pub last_accepted_at: Option<u64>,
}

impl Deduper {
    /// A fresh deduper, with no prior acceptance.
    pub fn new() -> (r: Deduper)
        ensures
            r.last_accepted_at == Option::<u64>::None,
    {
        Deduper { last_accepted_at: None }
    }

    /// Decides one reading and, on acceptance, records `now_secs` as the new
    /// last-acceptance marker; a rejected reading leaves the state unchanged.
    pub fn check_and_mark(&mut self, now_secs: u64, threshold_secs: u64) -> (accepted: bool)
        requires
            old(self).last_accepted_at matches Some(l) ==> l <= now_secs,
        ensures
            accepted == spec_accepts(old(self).last_accepted_at, now_secs, threshold_secs),
            accepted ==> final(self).last_accepted_at == Some(now_secs),
            !accepted ==> final(self).last_accepted_at == old(self).last_accepted_at,
    {
        let accepted = match self.last_accepted_at {
            None => true,
            Some(l) => now_secs - l >= threshold_secs,
        };
        if accepted {
            self.last_accepted_at = Some(now_secs);
        }
        accepted
    }
}

/// What the caller must do with one processed message, in order: persist
/// the row, report the write outcome downstream, then forward the reading;
/// forward the status text; or nothing.
pub enum Action {
    Persist { row: Vec<u8>, data: BleDataPoint },
    ForwardStatus { status: String },
    Ignore,
}

/// Processes one message of the scanner's channel. A reading is accepted
/// when the dedupe policy allows it under the threshold of the
/// configuration snapshot taken for this message: the caller then appends
/// `row` — the reading formatted at wall-clock time `wall` — to the daily
/// log, reports the write outcome, and forwards the reading. A rejected
/// reading and a write-outcome message change nothing; status text is
/// forwarded verbatim.
pub fn process_message(
    dedup: &mut Deduper,
    msg: Message,
    config: &Config,
    now_secs: u64,
    wall: &Timestamp,
) -> (a: Action)
    requires
        wall.wf(),
        old(dedup).last_accepted_at matches Some(l) ==> l <= now_secs,
    ensures
        match msg {
            Message::NewData(d) => {
                if spec_accepts(
                    old(dedup).last_accepted_at,
                    now_secs,
                    config.duplicate_threshold_secs,
                ) {
                    &&& final(dedup).last_accepted_at == Some(now_secs)
                    &&& a matches Action::Persist { row, data } && {
                        &&& row@ == spec_row(*wall, d.temp_deci as int, d.hum as int)
                        &&& data == d
                    }
                } else {
                    &&& final(dedup).last_accepted_at == old(dedup).last_accepted_at
                    &&& a matches Action::Ignore
                }
            },
            Message::StatusUpdate(s) => {
                &&& final(dedup).last_accepted_at == old(dedup).last_accepted_at
                &&& a matches Action::ForwardStatus { status } && status == s
            },
            Message::CsvWriteStatus(_) => {
                &&& final(dedup).last_accepted_at == old(dedup).last_accepted_at
                &&& a matches Action::Ignore
            },
        },
{
    match msg {
        Message::NewData(d) => {
            if dedup.check_and_mark(now_secs, config.duplicate_threshold_secs) {
                let row = format_row(wall, d.temp_deci, d.hum);
                Action::Persist { row, data: d }
            } else {
                Action::Ignore
            }
        },
        Message::StatusUpdate(s) => Action::ForwardStatus { status: s },
        Message::CsvWriteStatus(_) => Action::Ignore,
    }
}

/// Rate limiting: after an acceptance at processing time `t1`, a reading at
/// `t2` is accepted exactly when the gap reaches the threshold, so of two
/// readings closer together than the threshold only the first is accepted.
pub proof fn lemma_dedupe_rate_limit(last: Option<u64>, t1: u64, t2: u64, threshold: u64)
    requires
        t1 <= t2,
        spec_accepts(last, t1, threshold),
    ensures
        ((t2 as int - t1 as int) < (threshold as int)) ==> !spec_accepts(Some(t1), t2, threshold),
        ((t2 as int - t1 as int) >= (threshold as int)) ==> spec_accepts(Some(t1), t2, threshold),
{
}

/// Hot reload: a dedupe decision goes by the threshold in force when the
/// reading arrives. After an acceptance at `t1` under any earlier threshold,
/// the very next decision under a newly written threshold is decided by the
/// new value alone.
pub proof fn lemma_threshold_hot_reload(t1: u64, t2: u64, old_threshold: u64, new_threshold: u64)
    requires
        t1 <= t2,
    ensures
        spec_accepts(Some(t1), t2, new_threshold) <==> t2 - t1 >= new_threshold,
{
}

} // verus!

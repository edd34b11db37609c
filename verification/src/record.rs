//! The record model: one timestamped state-change event of the activity log.

use vstd::prelude::*;

verus! {

/// Seconds since 1970-01-01T00:00:00 UTC of the first instant the row file
/// cannot represent (the end of year 9999).
pub const TIMESTAMP_LIMIT: i64 = 253402300800;

/// The kind of a state-change event.
#[derive(Clone, Copy, Debug, PartialEq, Eq, Structural)]
pub enum LogType {
    /// Start of an active work interval.
    Work,
    /// End of the current work interval.
    Break,
    /// Manual correction: remove `add_seconds` from the computed total.
    BreakAdd,
    /// Sentinel for "no prior state"; never produced by user action.
    Unknown,
}

/// An absolute point in time, timezone-normalized to UTC, held as seconds
/// since 1970-01-01T00:00:00 UTC.
#[derive(Clone, Copy, Debug, PartialEq, Eq, Structural)]
pub struct Timestamp {
    pub secs: i64,
}

impl Timestamp {
    /// The timestamp lies in the representable range of the row file format
    /// (from 1970-01-01 up to the end of year 9999).
    pub open spec fn wf(self) -> bool {
        0 <= self.secs < TIMESTAMP_LIMIT
    }

    /// Full calendar-date key: days since 1970-01-01. Two timestamps fall on
    /// the same day iff their day numbers are equal.
    pub open spec fn day_number_spec(self) -> int {
        self.secs as int / 86400
    }

    /// Week key: Monday-started (ISO) weeks, counted from the week that
    /// contains 1970-01-01 (a Thursday, so that week began on day -3).
    pub open spec fn week_number_spec(self) -> int {
        (self.day_number_spec() + 3) / 7
    }

    pub fn day_number(self) -> (d: i64)
        requires
            self.wf(),
        ensures
            d == self.day_number_spec(),
    {
        self.secs / 86400
    }

    pub fn week_number(self) -> (w: i64)
        requires
            self.wf(),
        ensures
            w == self.week_number_spec(),
    {
        (self.secs / 86400 + 3) / 7
    }
}

/// One immutable event of the log: a plain value, freely copyable, ordered
/// by `time`.
#[derive(Clone, Copy, Debug, PartialEq, Eq, Structural)]
pub struct LogRecord {
    pub time: Timestamp,
    pub log_type: LogType,
    /// Present only for `BreakAdd` records; ignored otherwise.
    pub add_seconds: Option<i64>,
}

impl LogRecord {
    pub open spec fn wf(self) -> bool {
        self.time.wf()
    }
}

/// Every record of the sequence has a representable timestamp.
pub open spec fn records_wf(s: Seq<LogRecord>) -> bool {
    forall|i: int| 0 <= i < s.len() ==> #[trigger] s[i].wf()
}

} // verus!

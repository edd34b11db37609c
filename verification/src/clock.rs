//! The wall clock: the one place the library asks the machine for the
//! current time. Every consumer takes the resulting timestamp as an explicit
//! argument, so that aggregation itself stays deterministic.

use vstd::prelude::*;
use crate::record::{Timestamp, TIMESTAMP_LIMIT};

verus! {

/// Relies on std's `SystemTime::now` and `SystemTime::duration_since`: the
/// machine clock as seconds since the Unix epoch. A clock set before the
/// epoch reads as zero and one beyond `i64` saturates, so the body is total;
/// nothing is promised of the value, as the clock may read anything.
#[verifier::external_body]
fn now_epoch_seconds() -> i64 {
    match std::time::SystemTime::now().duration_since(std::time::UNIX_EPOCH) {
        Ok(elapsed) => i64::try_from(elapsed.as_secs()).unwrap_or(i64::MAX),
        Err(_) => 0,
    }
}

/// The current UTC time, clamped into the representable range of the row
/// file format.
pub fn now_timestamp() -> (t: Timestamp)
    ensures
        t.wf(),
{
    let s = now_epoch_seconds();
    let secs = if s < 0 {
        0
    } else if s >= TIMESTAMP_LIMIT {
        TIMESTAMP_LIMIT - 1
    } else {
        s
    };
    Timestamp { secs }
}

} // verus!

//! How often assignments are computed.

use crate::time;
use crate::time::Timestamp;
use vstd::prelude::*;

verus! {

/// Whether the interval since the last assignment is over.
pub open spec fn due(last: Option<int>, interval_ms: i32, now: int) -> bool {
    last is None || interval_ms == 0 || time::instant_after(last->0, interval_ms as int) <= now
}

/// Whether a new assignment can be computed.
pub fn can_compute(assignment_timestamp: Option<Timestamp>, assignment_interval_ms: i32, now: Timestamp) -> (r: bool)
    ensures
        r == due(assignment_timestamp.deep_view(), assignment_interval_ms, now.deep_view()),
{
    match assignment_timestamp {
        None => true,
        Some(last) => assignment_interval_ms == 0 || last.plus_millis(assignment_interval_ms).nanos <= now.nanos,
    }
}

} // verus!

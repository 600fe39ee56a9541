//! Wall-clock access for record timestamps.

use vstd::prelude::*;

verus! {

/// Relies on chrono's `From<SystemTime> for DateTime<Utc>` and
/// `DateTime::timestamp`: a wall-clock reading in whole seconds.  The
/// conversion accepts any system time, a clock before the epoch included
/// (it yields a negative timestamp), and `timestamp` is plain arithmetic,
/// so the call cannot panic.  Nothing is promised of the value; every
/// contract that involves a timestamp holds whatever the clock returned.
#[verifier::external_body]
pub(crate) fn now_timestamp() -> i64 {
    chrono::DateTime::<chrono::Utc>::from(std::time::SystemTime::now()).timestamp()
}

} // verus!

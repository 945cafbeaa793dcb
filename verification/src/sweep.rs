use vstd::prelude::*;

verus! {

/// The retention window: records older than seven days are expired.
pub const RETENTION_SECS: u64 = 7 * 24 * 60 * 60;

/// The sweeper's decision for one stored record, given its age (the time
/// elapsed since the record's storage modification time, split into whole
/// seconds and subsecond nanoseconds): expire it exactly when the age
/// strictly exceeds the retention window.
pub fn is_expired(age_secs: u64, age_nanos: u32) -> (r: bool)
    ensures
        r == (age_secs > RETENTION_SECS || (age_secs == RETENTION_SECS && age_nanos > 0)),
{
    age_secs > RETENTION_SECS || (age_secs == RETENTION_SECS && age_nanos > 0)
}

} // verus!

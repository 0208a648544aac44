//! The wall clock, as milliseconds since the Unix epoch.

use vstd::prelude::*;

verus! {

/// Relies on chrono::Utc::now: the current time, converted to milliseconds
/// since the Unix epoch. Nothing is promised of the clock's value.
#[verifier::external_body]
pub(crate) fn now_millis() -> i64 {
    chrono::Utc::now().timestamp_millis()
}

} // verus!

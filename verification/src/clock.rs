//! Time sources.  Both readings depend on the wall clock, so nothing can be
//! promised of their values; callers state what holds whatever came back.

use vstd::prelude::*;

verus! {

/// Relies on chrono's `Utc::now`, formatted by `DateTime::to_rfc3339`: the
/// current instant as an RFC 3339 timestamp string.
#[verifier::external_body]
pub fn now_rfc3339() -> String {
    chrono::Utc::now().to_rfc3339()
}

/// Relies on chrono's `Utc::now`, read by `DateTime::timestamp`: the current
/// instant as non-leap seconds since the Unix epoch.
#[verifier::external_body]
pub fn now_timestamp() -> i64 {
    chrono::Utc::now().timestamp()
}

} // verus!

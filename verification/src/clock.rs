//! The wall clock.

use vstd::prelude::*;

verus! {

/// The current time in seconds since the start of 1970 (UTC).
///
/// Trusted: calls `chrono::Utc::now` and `DateTime::timestamp` on what it
/// returns.  The result depends on when the call is made, so nothing is
/// stated of it.
#[verifier::external_body]
pub(crate) fn unix_now() -> i64 {
    chrono::Utc::now().timestamp()
}

} // verus!

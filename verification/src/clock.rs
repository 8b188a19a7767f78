//! The one place where the library reads the wall clock. Every rule about
//! recency takes the current time as an argument; these entry points obtain
//! it for the callers that keep the clock-free signatures.

use vstd::prelude::*;

verus! {

/// Relies on chrono's `Utc::now` and `DateTime::timestamp`: the current
/// wall-clock time as whole seconds since the Unix epoch. Nothing is
/// promised of the value, since it depends on the machine's clock.
#[verifier::external_body]
pub fn now_seconds() -> i64 {
    chrono::Utc::now().timestamp()
}

} // verus!

//! The two values that the store draws from outside: the current time and
//! fresh random identifiers.

use vstd::prelude::*;

verus! {

/// Relies on `chrono::Local::now` and `DateTime::timestamp_nanos_opt`: the
/// current time in nanoseconds since the Unix epoch, when an `i64` holds it.
#[verifier::external_body]
pub(crate) fn now_nanos() -> (r: Option<i64>) {
    chrono::Local::now().timestamp_nanos_opt()
}

/// Relies on `uuid::Uuid::new_v4` and `Uuid::as_u128`: a random version-4
/// identifier, whose version bits make it nonzero.
#[verifier::external_body]
pub(crate) fn random_id() -> (r: u128)
    ensures
        r != 0,
{
    uuid::Uuid::new_v4().as_u128()
}

/// The current time, or the epoch when the clock lies outside what an `i64`
/// of nanoseconds can hold.
pub fn now() -> i64 {
    match now_nanos() {
        Some(t) => t,
        None => 0,
    }
}

} // verus!

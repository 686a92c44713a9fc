//! Fresh identities and the current time.
use vstd::prelude::*;

verus! {

/// Relies on uuid's `Uuid::new_v4`: a random identity in its hyphenated form.
#[verifier::external_body]
pub(crate) fn new_id() -> (r: String) {
    uuid::Uuid::new_v4().to_string()
}

/// Relies on chrono's `Utc::now` and `timestamp_millis`: the current time in
/// milliseconds since the Unix epoch.
#[verifier::external_body]
pub(crate) fn now_millis() -> (r: i64) {
    chrono::Utc::now().timestamp_millis()
}

} // verus!

//! Trusted access to the system clock and to random id generation.
//!
//! Both results depend on the environment, so the contracts state only what
//! holds of every outcome.

use vstd::prelude::*;

verus! {

/// Relies on uuid::Uuid::new_v4 and its Display impl: a fresh random
/// version-4 UUID, rendered in the hyphenated lowercase form, which is
/// always 36 characters long. Nothing else is assumed of the value; in
/// particular, distinctness of two generated ids is not assumed.
#[verifier::external_body]
pub fn fresh_id() -> (id: String)
    ensures
        id@.len() == 36,
{
    uuid::Uuid::new_v4().to_string()
}

/// Relies on std::time::SystemTime::now: seconds since the Unix epoch,
/// or 0 if the clock reads earlier than the epoch. The result depends on
/// the clock, so nothing is stated of it.
#[verifier::external_body]
pub fn now_unix_seconds() -> u64 {
    std::time::SystemTime::now()
        .duration_since(std::time::UNIX_EPOCH)
        .map(|d| d.as_secs())
        .unwrap_or(0)
}

} // verus!

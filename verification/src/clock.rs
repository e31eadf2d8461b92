//! Trusted boundary to the `chrono` crate: reading the current time and
//! turning a condition's transition text into Unix seconds.

use vstd::prelude::*;

verus! {

/// The Unix-seconds reading of a timestamp text, or `None` where the text
/// is not a well-formed timestamp. Named, not stated: the reading depends
/// on the text alone, but spelling it out would restate a whole grammar.
pub uninterp spec fn rfc3339_unix(s: Seq<char>) -> Option<i64>;

/// Relies on chrono's `DateTime::parse_from_rfc3339` and
/// `DateTime::timestamp`: parsing and the Unix-seconds reading depend on
/// the text alone, and a malformed text parses to an error.
#[verifier::external_body]
pub(crate) fn rfc3339_to_unix(s: &str) -> (r: Option<i64>)
    ensures
        r == rfc3339_unix(s@),
{
    chrono::DateTime::parse_from_rfc3339(s).ok().map(|t| t.timestamp())
}

/// Relies on chrono's `Utc::now` and `DateTime::timestamp` for the current
/// Unix time. Nothing is promised of the reading: callers state what holds
/// of every outcome.
#[verifier::external_body]
pub(crate) fn now_unix() -> i64 {
    chrono::Utc::now().timestamp()
}

} // verus!

//! The time of day, as text.

use vstd::prelude::*;

verus! {

/// `chrono::Utc::now`, written out by `DateTime::to_rfc3339`: the current time, in
/// the form of RFC 3339. Nothing is promised of the text: it depends on the clock
/// of the machine. `Utc::now` panics if that clock is set to before 1970 or past
/// the years that a `DateTime` can hold.
#[verifier::external_body]
pub(crate) fn now_rfc3339() -> (now: String)
{
    chrono::Utc::now().to_rfc3339()
}

} // verus!

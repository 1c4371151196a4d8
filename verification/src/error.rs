//! The error that every fallible operation reports.

use vstd::prelude::*;

verus! {

/// Some check failed. Which one is deliberately not told: for inputs derived
/// from secrets, the reason of a rejection is itself information.
#[derive(Clone, Copy, Debug, PartialEq, Eq, Structural)]
pub struct Unspecified;

impl From<untrusted::EndOfInput> for Unspecified {
    fn from(source: untrusted::EndOfInput) -> (r: Self) {
        Unspecified
    }
}

impl vstd::std_specs::convert::FromSpecImpl<untrusted::EndOfInput> for Unspecified {
    open spec fn obeys_from_spec() -> bool {
        true
    }

    open spec fn from_spec(source: untrusted::EndOfInput) -> Self {
        Unspecified
    }
}

} // verus!

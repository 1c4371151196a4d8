//! The source of random bytes that key generation draws from.

use crate::error::Unspecified;
use vstd::prelude::*;

verus! {

/// A secure random number generator.
///
/// Nothing is promised of the bytes delivered: what is built on them holds
/// for every outcome.
pub trait SecureRandom {
    /// Fills `dest` with random bytes.
    fn fill(&self, dest: &mut [u8]) -> Result<(), Unspecified>;
}

} // verus!

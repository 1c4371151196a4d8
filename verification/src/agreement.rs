//! Key agreement algorithms.

use crate::ec::AgreementAlgorithmImpl;
use vstd::prelude::*;

verus! {

/// A key agreement algorithm.
#[derive(Clone, Copy, Debug, PartialEq, Eq, Structural)]
pub struct Algorithm {
    pub i: AgreementAlgorithmImpl,
}

} // verus!

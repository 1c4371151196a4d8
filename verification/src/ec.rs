//! Elliptic-curve keys.

pub mod suite_b;

use vstd::prelude::*;

verus! {

/// The width in bits of the widest supported field.
pub const ELEM_MAX_BITS: usize = 384;

/// The length in bytes of the widest supported field element.
pub const ELEM_MAX_BYTES: usize = (ELEM_MAX_BITS + 7) / 8;

/// The length in bytes of the widest supported scalar.
pub const SCALAR_MAX_BYTES: usize = ELEM_MAX_BYTES;

/// What a key agreement algorithm is made of: the curve that it works on.
#[derive(Clone, Copy, Debug, PartialEq, Eq, Structural)]
pub struct AgreementAlgorithmImpl {
    pub curve: suite_b::curve::Curve,
}

/// A private scalar in its external form: big-endian, in the first bytes of
/// the array, as many as the curve's scalars have.
pub struct PrivateKey {
    pub bytes: [u8; SCALAR_MAX_BYTES],
}

} // verus!

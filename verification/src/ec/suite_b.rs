//! The NIST curves with `a = -3`, of which P-384 is supported.

pub mod curve;
pub mod ops;
pub mod private_key;

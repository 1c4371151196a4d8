//! Constant-time multi-precision arithmetic and the field and group operations
//! of the NIST P-384 curve, with private-key generation and validation on top.

pub mod agreement;
pub mod arithmetic;
pub mod constant_time;
pub mod ec;
pub mod error;
pub mod input;
pub mod limb;
mod limb_lemmas;
pub mod math;
pub mod rand;

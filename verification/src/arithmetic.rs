//! Modular arithmetic on limb arrays.

pub mod modular;
pub mod montgomery;

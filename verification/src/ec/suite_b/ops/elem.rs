//! Elements of a residue ring, tagged with the ring and with their encoding.

use crate::arithmetic::montgomery::Encoding;
use crate::limb::{limbs_value, Limb};
use core::marker::PhantomData;
use vstd::prelude::*;

verus! {

/// The number of limbs of the widest supported element.
pub const MAX_LIMBS: usize = 6;

/// A residue modulo the modulus that `M` names, stored in the encoding `E`.
///
/// The array has room for the widest supported modulus. A curve uses its
/// first `num_limbs` limbs; the others are zero.
pub struct Elem<M, E: Encoding> {
    pub limbs: [Limb; MAX_LIMBS],
    pub m: PhantomData<M>,
    pub encoding: PhantomData<E>,
}

impl<M, E: Encoding> Clone for Elem<M, E> {
    fn clone(&self) -> (r: Self)
        ensures
            r == *self,
    {
        Elem { limbs: self.limbs, m: PhantomData, encoding: PhantomData }
    }
}

impl<M, E: Encoding> Copy for Elem<M, E> {

}

impl<M, E: Encoding> Elem<M, E> {
    /// The element whose limbs are all zero.
    pub fn zero() -> (r: Self)
        ensures
            forall|i: int| 0 <= i < MAX_LIMBS ==> r.limbs@[i] == 0,
    {
        Elem { limbs: [0; MAX_LIMBS], m: PhantomData, encoding: PhantomData }
    }

    /// The number stored in the first `num_limbs` limbs.
    pub open spec fn stored(&self, num_limbs: nat) -> nat {
        limbs_value(self.limbs@.take(num_limbs as int))
    }

    /// Whether the limbs from `num_limbs` on are zero.
    pub open spec fn padded(&self, num_limbs: nat) -> bool {
        forall|i: int| num_limbs <= i < MAX_LIMBS ==> self.limbs@[i] == 0
    }
}

} // verus!

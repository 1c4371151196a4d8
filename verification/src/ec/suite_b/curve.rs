//! The supported curves, each with the key operations bound to its tables.

use crate::ec::suite_b::ops::jacobian::{
    affine_coordinates,
    is_on_curve,
    jacobian_mul,
    JacobianPoint,
};
use crate::ec::suite_b::ops::p384::{
    p384_b,
    p384_generator_x,
    p384_generator_y,
    p384_n,
    p384_q,
    private_key_ops,
};
use crate::ec::suite_b::private_key;
use crate::ec::suite_b::private_key::uncompressed_point;
use crate::ec::PrivateKey;
use crate::error::Unspecified;
use crate::limb::big_endian_value;
use crate::rand::SecureRandom;
use vstd::prelude::*;

verus! {

/// The identity of a curve.
#[derive(Clone, Copy, Debug, PartialEq, Eq, Structural)]
pub enum CurveID {
    P384,
}

/// A curve, as key agreement and signatures use it: the key operations of
/// the curve that `id` names.
#[derive(Clone, Copy, Debug, PartialEq, Eq, Structural)]
pub struct Curve {
    pub id: CurveID,
}

/// The curve P-384.
pub fn p384() -> (curve: Curve)
    ensures
        curve.id == CurveID::P384,
{
    Curve { id: CurveID::P384 }
}

/// The length in bytes of a scalar and of a field element of P-384.
pub const P384_ELEM_AND_SCALAR_LEN: usize = 48;

/// The length in bytes of an uncompressed public key of P-384.
pub const P384_PUBLIC_KEY_LEN: usize = 1 + 2 * P384_ELEM_AND_SCALAR_LEN;

/// Whether `bytes` is the encoding of a private scalar of P-384.
pub open spec fn is_p384_scalar_encoding(bytes: Seq<u8>) -> bool {
    &&& bytes.len() == P384_ELEM_AND_SCALAR_LEN
    &&& 0 < big_endian_value(bytes) < p384_n()
}

/// The point of P-384 that belongs to the private scalar `scalar`.
pub open spec fn p384_public_point(scalar: nat) -> JacobianPoint {
    jacobian_mul(
        scalar,
        JacobianPoint { x: p384_generator_x(), y: p384_generator_y(), z: 1 },
        p384_q(),
    )
}

/// The affine coordinates of the point of P-384 that belongs to `scalar`.
pub open spec fn p384_public_coordinates(scalar: nat) -> (nat, nat) {
    affine_coordinates(p384_public_point(scalar), p384_q())
}

/// Whether the point of P-384 that belongs to `scalar` can be handed out:
/// it is not the point at infinity and is on the curve.
pub open spec fn p384_has_public_key(scalar: nat) -> bool {
    &&& !p384_public_point(scalar).is_infinity()
    &&& is_on_curve(
        p384_public_coordinates(scalar).0,
        p384_public_coordinates(scalar).1,
        p384_b(),
        p384_q(),
    )
}

/// The private scalar one has the generator as its public key.
pub proof fn p384_public_key_of_one()
    ensures
        p384_has_public_key(1),
        p384_public_coordinates(1) == (p384_generator_x(), p384_generator_y()),
{
    let g = JacobianPoint { x: p384_generator_x(), y: p384_generator_y(), z: 1 };
    crate::ec::suite_b::ops::jacobian::lemma_mul_by_one(g, p384_q());
    crate::ec::suite_b::ops::jacobian::lemma_affine_of_normalized(g, p384_q());
    crate::ec::suite_b::ops::p384::p384_generator_is_on_curve();
}

impl Curve {
    /// Tests whether `bytes` is the encoding of a private scalar of the curve.
    pub fn check_private_key_bytes(&self, bytes: &[u8]) -> (r: Result<(), Unspecified>)
        ensures
            r is Ok <==> is_p384_scalar_encoding(bytes@),
    {
        match self.id {
            CurveID::P384 => check_private_key_bytes(bytes),
        }
    }

    /// Generates a private key of the curve from `rng`.
    pub fn generate_private_key<G: SecureRandom>(&self, rng: &G) -> (r: Result<
        PrivateKey,
        Unspecified,
    >)
        ensures
            r matches Ok(key) ==> is_p384_scalar_encoding(
                key.bytes@.take(P384_ELEM_AND_SCALAR_LEN as int),
            ),
    {
        match self.id {
            CurveID::P384 => generate_private_key(rng),
        }
    }

    /// Writes the public key of `private_key` to `public_out`.
    pub fn public_from_private(&self, public_out: &mut [u8], private_key: &PrivateKey) -> (r:
        Result<(), Unspecified>)
        requires
            is_p384_scalar_encoding(private_key.bytes@.take(P384_ELEM_AND_SCALAR_LEN as int)),
            old(public_out)@.len() == P384_PUBLIC_KEY_LEN,
        ensures
            final(public_out)@.len() == old(public_out)@.len(),
            r is Ok <==> p384_has_public_key(
                big_endian_value(private_key.bytes@.take(P384_ELEM_AND_SCALAR_LEN as int)),
            ),
            r is Ok ==> {
                let xy = p384_public_coordinates(
                    big_endian_value(private_key.bytes@.take(P384_ELEM_AND_SCALAR_LEN as int)),
                );
                final(public_out)@ == uncompressed_point(
                    xy.0,
                    xy.1,
                    P384_ELEM_AND_SCALAR_LEN as nat,
                )
            },
            r is Err ==> final(public_out)@ == old(public_out)@,
    {
        match self.id {
            CurveID::P384 => public_from_private(public_out, private_key),
        }
    }
}

/// Tests whether `bytes` is the encoding of a private scalar of P-384.
pub fn check_private_key_bytes(bytes: &[u8]) -> (r: Result<(), Unspecified>)
    ensures
        r is Ok <==> is_p384_scalar_encoding(bytes@),
{
    private_key::check_scalar_big_endian_bytes(&private_key_ops(), bytes)
}

/// Generates a private key of P-384 from `rng`.
pub fn generate_private_key<G: SecureRandom>(rng: &G) -> (r: Result<PrivateKey, Unspecified>)
    ensures
        r matches Ok(key) ==> is_p384_scalar_encoding(
            key.bytes@.take(P384_ELEM_AND_SCALAR_LEN as int),
        ),
{
    private_key::generate_private_key(&private_key_ops(), rng)
}

/// Writes the public key of the P-384 key `private_key` to `public_out`, in
/// uncompressed form.
pub fn public_from_private(public_out: &mut [u8], private_key: &PrivateKey) -> (r: Result<
    (),
    Unspecified,
>)
    requires
        is_p384_scalar_encoding(private_key.bytes@.take(P384_ELEM_AND_SCALAR_LEN as int)),
        old(public_out)@.len() == P384_PUBLIC_KEY_LEN,
    ensures
        final(public_out)@.len() == old(public_out)@.len(),
        r is Ok <==> p384_has_public_key(
            big_endian_value(private_key.bytes@.take(P384_ELEM_AND_SCALAR_LEN as int)),
        ),
        r is Ok ==> {
            let xy = p384_public_coordinates(
                big_endian_value(private_key.bytes@.take(P384_ELEM_AND_SCALAR_LEN as int)),
            );
            final(public_out)@ == uncompressed_point(xy.0, xy.1, P384_ELEM_AND_SCALAR_LEN as nat)
        },
        r is Err ==> final(public_out)@ == old(public_out)@,
{
    private_key::public_from_private(&private_key_ops(), public_out, private_key)
}

} // verus!

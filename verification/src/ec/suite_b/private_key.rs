//! What key generation, key agreement and signing share: candidates for a
//! private key are tested, and the public key is derived from the private one.

use crate::arithmetic::montgomery::R;
use crate::ec::suite_b::ops::jacobian::{
    affine_coordinates,
    field_mul,
    field_pow,
    is_on_curve,
    jacobian_mul,
    JacobianPoint,
};
use crate::ec::suite_b::ops::on_curve::{
    is_on_curve_jacobian,
    lemma_affine_coordinates_on_curve,
    lemma_affine_point_on_curve,
    lemma_mul_on_curve,
};
use crate::ec::suite_b::ops::{
    scalar_parse_big_endian_fixed_consttime,
    CommonOps,
    Elem,
    Point,
    PrivateKeyOps,
    Scalar,
};
use crate::ec::{PrivateKey, SCALAR_MAX_BYTES};
use crate::error::Unspecified;
use crate::limb::{big_endian_bytes, big_endian_from_limbs, big_endian_value, LIMB_BYTES};
use crate::rand::SecureRandom;
use vstd::prelude::*;

verus! {

/// The number of candidates that are drawn before generation gives up.
pub const MAX_CANDIDATES: usize = 100;

/// Whether `bytes` is the encoding of a private scalar: as long as a scalar,
/// and standing for a number in the range from 1 to `n - 1`.
pub open spec fn is_scalar_encoding(ops: &PrivateKeyOps, bytes: Seq<u8>) -> bool {
    &&& bytes.len() == ops.common.num_limbs * LIMB_BYTES
    &&& 0 < big_endian_value(bytes) < ops.common.n_value()
}

/// The bytes of `key` that hold the scalar.
pub open spec fn private_key_bytes(ops: &PrivateKeyOps, key: &PrivateKey) -> Seq<u8> {
    key.bytes@.take((ops.common.num_limbs * LIMB_BYTES) as int)
}

/// Whether `key` holds a private scalar of the curve.
pub open spec fn is_private_key(ops: &PrivateKeyOps, key: &PrivateKey) -> bool {
    is_scalar_encoding(ops, private_key_bytes(ops, key))
}

/// The length in bytes of a scalar, which is also that of a field element.
fn scalar_len(ops: &PrivateKeyOps) -> (len: usize)
    requires
        ops.common.wf(),
    ensures
        len == ops.common.num_limbs * LIMB_BYTES,
        len == ops.common.num_limbs * 8,
        0 < len <= SCALAR_MAX_BYTES,
{
    assert(LIMB_BYTES == 8 && SCALAR_MAX_BYTES == 48);
    assert(ops.common.num_limbs <= crate::ec::suite_b::ops::elem::MAX_LIMBS);
    assert(ops.common.num_limbs * LIMB_BYTES == ops.common.num_limbs * 8) by (nonlinear_arith)
        requires
            LIMB_BYTES == 8,
    ;
    ops.common.num_limbs * LIMB_BYTES
}

/// The private key that `candidate` makes, if it is the encoding of a
/// private scalar in its first bytes.
pub fn private_key_from_candidate(ops: &PrivateKeyOps, candidate: [u8; SCALAR_MAX_BYTES]) -> (r:
    Result<PrivateKey, Unspecified>)
    requires
        ops.common.wf(),
    ensures
        r is Ok <==> is_scalar_encoding(
            ops,
            candidate@.take((ops.common.num_limbs * LIMB_BYTES) as int),
        ),
        r matches Ok(key) ==> key.bytes == candidate,
{
    let len = scalar_len(ops);
    match check_scalar_big_endian_bytes(ops, &candidate[0..len]) {
        Ok(()) => Ok(PrivateKey { bytes: candidate }),
        Err(e) => Err(e),
    }
}

/// Generates a private key: draws candidates from `rng` until one is the
/// encoding of a private scalar.
///
/// Fails when `rng` fails, and after `MAX_CANDIDATES` candidates that were
/// all out of range.
pub fn generate_private_key<G: SecureRandom>(ops: &PrivateKeyOps, rng: &G) -> (r: Result<
    PrivateKey,
    Unspecified,
>)
    requires
        ops.common.wf(),
    ensures
        r matches Ok(key) ==> is_private_key(ops, &key),
{
    let len = scalar_len(ops);
    for _i in 0..MAX_CANDIDATES
        invariant
            ops.common.wf(),
            len == ops.common.num_limbs * LIMB_BYTES,
            len <= SCALAR_MAX_BYTES,
    {
        let mut candidate = [0u8; SCALAR_MAX_BYTES];
        let (drawn, _) = candidate.split_at_mut(len);
        rng.fill(drawn)?;
        match private_key_from_candidate(ops, candidate) {
            Ok(key) => {
                return Ok(key);
            },
            Err(_) => {},
        }
    }
    Err(Unspecified)
}

/// The scalar that `private_key` holds.
pub fn private_key_as_scalar(ops: &PrivateKeyOps, private_key: &PrivateKey) -> (r: Scalar)
    requires
        ops.common.wf(),
        is_private_key(ops, private_key),
    ensures
        r.wf(&ops.common),
        r.stored(ops.common.num_limbs as nat) == big_endian_value(
            private_key_bytes(ops, private_key),
        ),
{
    let len = scalar_len(ops);
    // This cannot fail: the key is valid.
    scalar_from_big_endian_bytes(ops, &private_key.bytes[0..len]).unwrap()
}

/// Tests whether `bytes` is the encoding of a private scalar.
pub fn check_scalar_big_endian_bytes(ops: &PrivateKeyOps, bytes: &[u8]) -> (r: Result<
    (),
    Unspecified,
>)
    requires
        ops.common.wf(),
    ensures
        r is Ok <==> is_scalar_encoding(ops, bytes@),
{
    match scalar_from_big_endian_bytes(ops, bytes) {
        Ok(_) => Ok(()),
        Err(e) => Err(e),
    }
}

/// Parses a private scalar: big-endian, zero-padded to the length of a
/// scalar, in the range from 1 to `n - 1`.
///
/// The range is tested as it stands, without the detour of testing
/// `[0, n - 1)` and adding one.
pub fn scalar_from_big_endian_bytes(ops: &PrivateKeyOps, bytes: &[u8]) -> (r: Result<
    Scalar,
    Unspecified,
>)
    requires
        ops.common.wf(),
    ensures
        r is Ok <==> is_scalar_encoding(ops, bytes@),
        r matches Ok(s) ==> {
            &&& s.wf(&ops.common)
            &&& s.stored(ops.common.num_limbs as nat) == big_endian_value(bytes@)
        },
{
    scalar_parse_big_endian_fixed_consttime(&ops.common, untrusted::Input::from(bytes))
}

/// The point that belongs to the private scalar `scalar`: the scalar times
/// the generator.
pub open spec fn public_point(ops: &PrivateKeyOps, scalar: nat) -> JacobianPoint {
    jacobian_mul(scalar, ops.generator_point(), ops.common.q_value())
}

/// Whether `p` can be handed out as a public key: it is not the point at
/// infinity, and its affine coordinates satisfy the curve equation.
pub open spec fn is_public_point(ops: &PrivateKeyOps, p: JacobianPoint) -> bool {
    &&& !p.is_infinity()
    &&& is_on_curve(
        affine_coordinates(p, ops.common.q_value()).0,
        affine_coordinates(p, ops.common.q_value()).1,
        ops.common.b.value(&ops.common),
        ops.common.q_value(),
    )
}

/// The point that belongs to a private scalar is on the curve.
pub proof fn lemma_public_point_on_curve(ops: &PrivateKeyOps, scalar: nat)
    requires
        ops.wf(),
    ensures
        is_on_curve_jacobian(
            public_point(ops, scalar),
            ops.common.b.value(&ops.common),
            ops.common.q_value(),
        ),
{
    let g = ops.generator_point();
    lemma_affine_point_on_curve(g.x, g.y, ops.common.b.value(&ops.common), ops.common.q_value());
    lemma_mul_on_curve(scalar, g, ops.common.b.value(&ops.common), ops.common.q_value());
}

/// The point that belongs to a private scalar can be handed out as a public
/// key unless it is the point at infinity, provided that the power taken
/// for the inverse of the square of its `z` is that inverse. For a prime `q`
/// it is, by Fermat's theorem.
pub proof fn lemma_public_point_is_public(ops: &PrivateKeyOps, scalar: nat)
    requires
        ops.wf(),
        !public_point(ops, scalar).is_infinity(),
        ({
            let z = public_point(ops, scalar).z;
            let q = ops.common.q_value();
            field_mul(field_mul(z, z, q), field_pow(z, (q - 3) as nat, q), q) == 1
        }),
    ensures
        is_public_point(ops, public_point(ops, scalar)),
{
    lemma_public_point_on_curve(ops, scalar);
    lemma_affine_coordinates_on_curve(
        public_point(ops, scalar),
        ops.common.b.value(&ops.common),
        ops.common.q_value(),
    );
}

/// The uncompressed encoding of the affine point `(x, y)`: the byte 4, then
/// `x` and `y`, each as `len` bytes, most significant byte first.
pub open spec fn uncompressed_point(x: nat, y: nat, len: nat) -> Seq<u8> {
    seq![4u8] + big_endian_bytes(x, len) + big_endian_bytes(y, len)
}

/// Computes the public key of `my_private_key` and writes it to
/// `public_out` in uncompressed form: the byte 4, then the affine X and Y
/// coordinates, each big-endian and as long as a field element.
///
/// Fails, leaving `public_out` as it was, if the point computed is the point
/// at infinity or is not on the curve.
pub fn public_from_private(
    ops: &PrivateKeyOps,
    public_out: &mut [u8],
    my_private_key: &PrivateKey,
) -> (r: Result<(), Unspecified>)
    requires
        ops.wf(),
        is_private_key(ops, my_private_key),
        old(public_out)@.len() == 1 + 2 * (ops.common.num_limbs * LIMB_BYTES),
    ensures
        final(public_out)@.len() == old(public_out)@.len(),
        r is Ok <==> is_public_point(
            ops,
            public_point(ops, big_endian_value(private_key_bytes(ops, my_private_key))),
        ),
        r is Ok ==> {
            let p = public_point(ops, big_endian_value(private_key_bytes(ops, my_private_key)));
            final(public_out)@ == uncompressed_point(
                affine_coordinates(p, ops.common.q_value()).0,
                affine_coordinates(p, ops.common.q_value()).1,
                (ops.common.num_limbs * LIMB_BYTES) as nat,
            )
        },
        r is Err ==> final(public_out)@ == old(public_out)@,
{
    let elem_and_scalar_bytes = scalar_len(ops);
    let my_private_key = private_key_as_scalar(ops, my_private_key);
    let my_public_key = ops.point_mul_base(&my_private_key);
    let (tag, coordinates) = public_out.split_at_mut(1);
    let (x_out, y_out) = coordinates.split_at_mut(elem_and_scalar_bytes);
    // The conversion tests that the point is not at infinity and is on the
    // curve.
    match big_endian_affine_from_jacobian(ops, x_out, y_out, &my_public_key) {
        Ok(()) => {},
        Err(e) => {
            proof {
                assert(public_out@ =~= old(public_out)@);
            }
            return Err(e);
        },
    }
    tag[0] = 4;
    proof {
        assert(public_out@ =~= seq![4u8] + x_out@ + y_out@);
    }
    Ok(())
}

/// The affine coordinates of `p`, if `p` is not the point at infinity and
/// they satisfy the curve equation.
pub fn affine_from_jacobian(ops: &PrivateKeyOps, p: &Point) -> (r: Result<
    (Elem<R>, Elem<R>),
    Unspecified,
>)
    requires
        ops.wf(),
        p.wf(&ops.common),
    ensures
        r is Ok <==> is_public_point(ops, p.as_jacobian(&ops.common)),
        r matches Ok(xy) ==> {
            &&& xy.0.wf(&ops.common)
            &&& xy.1.wf(&ops.common)
            &&& xy.0.value(&ops.common) == affine_coordinates(
                p.as_jacobian(&ops.common),
                ops.common.q_value(),
            ).0
            &&& xy.1.value(&ops.common) == affine_coordinates(
                p.as_jacobian(&ops.common),
                ops.common.q_value(),
            ).1
        },
{
    let z = ops.common.point_z(p);
    ops.common.elem_verify_is_not_zero(&z)?;
    let x = ops.common.point_x(p);
    let y = ops.common.point_y(p);
    let zz_inv = ops.elem_inverse_squared(&z);
    let x_aff = ops.common.elem_product(&x, &zz_inv);
    let zzzz_inv = ops.common.elem_squared(&zz_inv);
    let zzz_inv = ops.common.elem_product(&z, &zzzz_inv);
    let y_aff = ops.common.elem_product(&y, &zzz_inv);
    verify_affine_point_is_on_the_curve(&ops.common, &x_aff, &y_aff)?;
    Ok((x_aff, y_aff))
}

/// Writes the affine coordinates of `p` to `x_out` and `y_out`, big-endian,
/// if `p` is not the point at infinity and they satisfy the curve equation.
/// Where it fails nothing is written.
pub fn big_endian_affine_from_jacobian(
    ops: &PrivateKeyOps,
    x_out: &mut [u8],
    y_out: &mut [u8],
    p: &Point,
) -> (r: Result<(), Unspecified>)
    requires
        ops.wf(),
        p.wf(&ops.common),
        old(x_out)@.len() == ops.common.num_limbs * LIMB_BYTES,
        old(y_out)@.len() == ops.common.num_limbs * LIMB_BYTES,
    ensures
        final(x_out)@.len() == old(x_out)@.len(),
        final(y_out)@.len() == old(y_out)@.len(),
        r is Ok <==> is_public_point(ops, p.as_jacobian(&ops.common)),
        r is Ok ==> {
            &&& final(x_out)@ == big_endian_bytes(
                affine_coordinates(p.as_jacobian(&ops.common), ops.common.q_value()).0,
                old(x_out)@.len(),
            )
            &&& final(y_out)@ == big_endian_bytes(
                affine_coordinates(p.as_jacobian(&ops.common), ops.common.q_value()).1,
                old(y_out)@.len(),
            )
        },
        r is Err ==> final(x_out)@ == old(x_out)@ && final(y_out)@ == old(y_out)@,
{
    let (x_aff, y_aff) = affine_from_jacobian(ops, p)?;
    let num_limbs = ops.common.num_limbs;
    let x = ops.common.elem_unencoded(&x_aff);
    big_endian_from_limbs(&x.limbs[0..num_limbs], x_out);
    let y = ops.common.elem_unencoded(&y_aff);
    big_endian_from_limbs(&y.limbs[0..num_limbs], y_out);
    Ok(())
}

/// Tests the curve equation `y^2 = x^3 + a * x + b` on the affine point
/// `(x, y)`.
pub fn verify_affine_point_is_on_the_curve(ops: &CommonOps, x: &Elem<R>, y: &Elem<R>) -> (r:
    Result<(), Unspecified>)
    requires
        ops.wf(),
        x.wf(ops),
        y.wf(ops),
    ensures
        r is Ok <==> is_on_curve(x.value(ops), y.value(ops), ops.b.value(ops), ops.q_value()),
{
    let lhs = ops.elem_squared(y);
    let mut rhs = ops.elem_squared(x);
    ops.elem_add(&mut rhs, &ops.a);
    ops.elem_mul(&mut rhs, x);
    ops.elem_add(&mut rhs, &ops.b);
    if !ops.elems_are_equal(&lhs, &rhs) {
        return Err(Unspecified);
    }
    Ok(())
}

} // verus!

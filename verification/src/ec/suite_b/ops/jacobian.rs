//! The group law in Jacobian coordinates, over residues modulo the field
//! prime: what the point operations compute.
//!
//! A point `(x, y, z)` with `z != 0` stands for the affine point
//! `(x / z^2, y / z^3)`; every point with `z == 0` stands for the point at
//! infinity. The formulas are those for curves whose coefficient `a` is `-3`.

use vstd::prelude::*;

verus! {

/// `a + b` modulo `q`.
pub open spec fn field_add(a: nat, b: nat, q: nat) -> nat {
    (a + b) % q
}

/// `a - b` modulo `q`.
pub open spec fn field_sub(a: nat, b: nat, q: nat) -> nat {
    ((a - b) % (q as int)) as nat
}

/// `a * b` modulo `q`.
pub open spec fn field_mul(a: nat, b: nat, q: nat) -> nat {
    (a * b) % q
}

/// `a` to the power `e` modulo `q`.
pub open spec fn field_pow(a: nat, e: nat, q: nat) -> nat
    decreases e,
{
    if e == 0 {
        1nat % q
    } else {
        field_mul(field_pow(a, (e - 1) as nat, q), a, q)
    }
}

/// A point in Jacobian coordinates.
pub struct JacobianPoint {
    pub x: nat,
    pub y: nat,
    pub z: nat,
}

impl JacobianPoint {
    /// The representation of the point at infinity that the operations produce.
    pub open spec fn infinity() -> JacobianPoint {
        JacobianPoint { x: 0, y: 0, z: 0 }
    }

    /// Whether the point is the point at infinity.
    pub open spec fn is_infinity(self) -> bool {
        self.z == 0
    }

    /// Whether every coordinate is a residue modulo `q`.
    pub open spec fn reduced(self, q: nat) -> bool {
        self.x < q && self.y < q && self.z < q
    }
}

/// Twice the point `p`.
pub open spec fn jacobian_double(p: JacobianPoint, q: nat) -> JacobianPoint {
    let delta = field_mul(p.z, p.z, q);
    let gamma = field_mul(p.y, p.y, q);
    let beta = field_mul(p.x, gamma, q);
    let alpha = field_mul(
        3,
        field_mul(field_sub(p.x, delta, q), field_add(p.x, delta, q), q),
        q,
    );
    let x3 = field_sub(field_mul(alpha, alpha, q), field_mul(8, beta, q), q);
    let y_plus_z = field_add(p.y, p.z, q);
    let z3 = field_sub(field_sub(field_mul(y_plus_z, y_plus_z, q), gamma, q), delta, q);
    let y3 = field_sub(
        field_mul(alpha, field_sub(field_mul(4, beta, q), x3, q), q),
        field_mul(8, field_mul(gamma, gamma, q), q),
        q,
    );
    JacobianPoint { x: x3, y: y3, z: z3 }
}

/// The sum of the points `a` and `b`.
///
/// Adding the point at infinity gives the other point as it is. Where the
/// two points stand for the same affine point the sum is the double; where
/// they stand for opposite points it is the point at infinity.
pub open spec fn jacobian_add(a: JacobianPoint, b: JacobianPoint, q: nat) -> JacobianPoint {
    let z1z1 = field_mul(a.z, a.z, q);
    let z2z2 = field_mul(b.z, b.z, q);
    let u1 = field_mul(a.x, z2z2, q);
    let u2 = field_mul(b.x, z1z1, q);
    let s1 = field_mul(field_mul(a.y, b.z, q), z2z2, q);
    let s2 = field_mul(field_mul(b.y, a.z, q), z1z1, q);
    let h = field_sub(u2, u1, q);
    let r = field_sub(s2, s1, q);
    if b.is_infinity() {
        a
    } else if a.is_infinity() {
        b
    } else if h == 0 {
        if r == 0 {
            jacobian_double(a, q)
        } else {
            JacobianPoint::infinity()
        }
    } else {
        let hh = field_mul(h, h, q);
        let hhh = field_mul(h, hh, q);
        let v = field_mul(u1, hh, q);
        let x3 = field_sub(field_sub(field_mul(r, r, q), hhh, q), field_mul(2, v, q), q);
        let y3 = field_sub(
            field_mul(r, field_sub(v, x3, q), q),
            field_mul(s1, hhh, q),
            q,
        );
        let z3 = field_mul(field_mul(h, a.z, q), b.z, q);
        JacobianPoint { x: x3, y: y3, z: z3 }
    }
}

/// `k` times the point `p`, by doubling and adding from the most
/// significant bit of `k` down.
pub open spec fn jacobian_mul(k: nat, p: JacobianPoint, q: nat) -> JacobianPoint
    decreases k,
{
    if k == 0 {
        JacobianPoint::infinity()
    } else {
        let doubled = jacobian_double(jacobian_mul(k / 2, p, q), q);
        if k % 2 == 1 {
            jacobian_add(doubled, p, q)
        } else {
            doubled
        }
    }
}

/// The affine coordinates of `p`, with the inverse of `z` taken as a power
/// of `z`: for a prime `q`, `z^(q - 3)` is the inverse of `z^2`.
pub open spec fn affine_coordinates(p: JacobianPoint, q: nat) -> (nat, nat) {
    let zz_inv = field_pow(p.z, (q - 3) as nat, q);
    let zzzz_inv = field_mul(zz_inv, zz_inv, q);
    let zzz_inv = field_mul(p.z, zzzz_inv, q);
    (field_mul(p.x, zz_inv, q), field_mul(p.y, zzz_inv, q))
}

/// Whether the affine point `(x, y)` satisfies the curve equation
/// `y^2 = x^3 - 3 * x + b`.
pub open spec fn is_on_curve(x: nat, y: nat, b: nat, q: nat) -> bool {
    field_mul(y, y, q) == field_add(
        field_mul(field_add(field_mul(x, x, q), (q - 3) as nat, q), x, q),
        b,
        q,
    )
}

/// The first power of a residue is the residue.
pub proof fn lemma_field_pow_one(a: nat, q: nat)
    requires
        q > 0,
        a < q,
    ensures
        field_pow(a, 1, q) == a,
{
    assert(field_pow(a, 1, q) == field_mul(field_pow(a, 0, q), a, q));
    crate::math::lemma_mul_mod(1, a as int, q as int);
    assert(1 * (a as int) == a) by (nonlinear_arith);
    crate::math::lemma_mod_small(a, q);
}

/// Multiplication of residues is associative.
pub proof fn lemma_field_mul_associative(a: nat, b: nat, c: nat, q: nat)
    requires
        q > 0,
    ensures
        field_mul(field_mul(a, b, q), c, q) == field_mul(a, field_mul(b, c, q), q),
{
    crate::math::lemma_mul_mod((a * b) as int, c as int, q as int);
    crate::math::lemma_mul_mod(a as int, (b * c) as int, q as int);
    assert((a * b) * c == a * (b * c)) by (nonlinear_arith);
}

/// Powers of one residue multiply by adding their exponents.
pub proof fn lemma_field_pow_adds(a: nat, e1: nat, e2: nat, q: nat)
    requires
        q > 0,
    ensures
        field_mul(field_pow(a, e1, q), field_pow(a, e2, q), q) == field_pow(a, e1 + e2, q),
    decreases e2,
{
    let first = field_pow(a, e1, q);
    if e2 == 0 {
        crate::math::lemma_mul_mod(first as int, 1, q as int);
        assert(first * 1 == first) by (nonlinear_arith);
        crate::math::lemma_mod_small(first, q);
    } else {
        let second = field_pow(a, (e2 - 1) as nat, q);
        lemma_field_pow_adds(a, e1, (e2 - 1) as nat, q);
        lemma_field_mul_associative(first, second, a, q);
        assert(field_pow(a, e1 + e2, q) == field_mul(
            field_pow(a, (e1 + e2 - 1) as nat, q),
            a,
            q,
        ));
    }
}

/// A power of a power is the power to the product of the exponents.
pub proof fn lemma_field_pow_multiplies(a: nat, e1: nat, e2: nat, q: nat)
    requires
        q > 0,
    ensures
        field_pow(field_pow(a, e1, q), e2, q) == field_pow(a, e1 * e2, q),
    decreases e2,
{
    if e2 == 0 {
        assert(e1 * e2 == 0) by (nonlinear_arith)
            requires
                e2 == 0,
        ;
    } else {
        lemma_field_pow_multiplies(a, e1, (e2 - 1) as nat, q);
        lemma_field_pow_adds(a, e1 * ((e2 - 1) as nat), e1, q);
        assert(e1 * ((e2 - 1) as nat) + e1 == e1 * e2) by (nonlinear_arith)
            requires
                e2 > 0,
        ;
    }
}

/// Squaring `s` times and then multiplying: exponents double `s` times, then add.
pub proof fn lemma_field_pow_square_multiply(a: nat, e1: nat, s: nat, e2: nat, q: nat)
    requires
        q > 0,
    ensures
        field_mul(
            field_pow(field_pow(a, e1, q), crate::math::nat_pow(2, s), q),
            field_pow(a, e2, q),
            q,
        ) == field_pow(a, e1 * crate::math::nat_pow(2, s) + e2, q),
{
    lemma_field_pow_multiplies(a, e1, crate::math::nat_pow(2, s), q);
    lemma_field_pow_adds(a, e1 * crate::math::nat_pow(2, s), e2, q);
}

/// Every power of one is one.
pub proof fn lemma_field_pow_of_one(e: nat, q: nat)
    requires
        q > 1,
    ensures
        field_pow(1, e, q) == 1,
    decreases e,
{
    crate::math::lemma_mod_small(1, q);
    if e > 0 {
        lemma_field_pow_of_one((e - 1) as nat, q);
        assert(1nat * 1nat == 1) by (nonlinear_arith);
    }
}

/// One times a finite point is the point as it is.
pub proof fn lemma_mul_by_one(p: JacobianPoint, q: nat)
    requires
        q > 0,
        !p.is_infinity(),
    ensures
        jacobian_mul(1, p, q) == p,
{
    lemma_double_infinity(q);
    assert(jacobian_mul(0, p, q) == JacobianPoint::infinity());
    assert(1nat / 2 == 0);
}

/// A point with `z == 1` has its own `x` and `y` as affine coordinates.
pub proof fn lemma_affine_of_normalized(p: JacobianPoint, q: nat)
    requires
        q > 3,
        p.reduced(q),
        p.z == 1,
    ensures
        affine_coordinates(p, q) == (p.x, p.y),
{
    lemma_field_pow_of_one((q - 3) as nat, q);
    crate::math::lemma_mod_small(1, q);
    assert(1nat * 1nat == 1) by (nonlinear_arith);
    assert(p.x * 1 == p.x) by (nonlinear_arith);
    assert(p.y * 1 == p.y) by (nonlinear_arith);
    crate::math::lemma_mod_small(p.x, q);
    crate::math::lemma_mod_small(p.y, q);
}

/// Doubling the point at infinity, in the representation that the operations
/// produce, gives it again.
pub proof fn lemma_double_infinity(q: nat)
    requires
        q > 0,
    ensures
        jacobian_double(JacobianPoint::infinity(), q) == JacobianPoint::infinity(),
{
    assert(0nat * 0nat == 0) by (nonlinear_arith);
    assert(3nat * 0nat == 0) by (nonlinear_arith);
    assert(4nat * 0nat == 0) by (nonlinear_arith);
    assert(8nat * 0nat == 0) by (nonlinear_arith);
    assert(0nat % q == 0);
    assert(0int % (q as int) == 0);
}

/// Adding the point at infinity changes nothing: on the right for every
/// point, on the left for every finite point.
pub proof fn lemma_add_infinity(p: JacobianPoint, infinity: JacobianPoint, q: nat)
    requires
        infinity.is_infinity(),
    ensures
        jacobian_add(p, infinity, q) == p,
        !p.is_infinity() ==> jacobian_add(infinity, p, q) == p,
{
}

/// Adding a finite point to itself doubles it.
pub proof fn lemma_add_same(p: JacobianPoint, q: nat)
    requires
        q > 0,
        !p.is_infinity(),
    ensures
        jacobian_add(p, p, q) == jacobian_double(p, q),
{
    assert(0int % (q as int) == 0);
}

} // verus!

//! The curve equation in Jacobian coordinates, and that the group law keeps
//! to it: doubles, sums and multiples of points on the curve are on the curve.
//!
//! A point `(x, y, z)` is on the curve with coefficients `-3` and `b` when
//! `y^2 = x^3 - 3 * x * z^4 + b * z^6` modulo `q`.

use crate::ec::suite_b::ops::jacobian::{
    affine_coordinates,
    field_add,
    field_mul,
    field_pow,
    field_sub,
    is_on_curve,
    jacobian_add,
    jacobian_double,
    jacobian_mul,
    JacobianPoint,
};
use crate::math::{congruent, lemma_congruent_mul, lemma_congruent_sum, lemma_congruent_to_remainder};
use vstd::prelude::*;

verus! {

/// What the curve equation asks to be zero, over the integers.
pub open spec fn curve_polynomial(x: int, y: int, z: int, b: int) -> int {
    y * y - x * x * x + 3 * (x * (z * z * z * z)) - b * (z * z * z * z * z * z)
}

/// Whether `p` satisfies the curve equation modulo `q`.
pub open spec fn is_on_curve_jacobian(p: JacobianPoint, b: nat, q: nat) -> bool {
    congruent(curve_polynomial(p.x as int, p.y as int, p.z as int, b as int), 0, q as int)
}

/// The curve polynomial with the even powers of `z` given: `d` for `z^2`.
spec fn curve_polynomial_in(x: int, g: int, d: int, b: int) -> int {
    g - x * x * x + 3 * (x * (d * d)) - b * (d * d * d)
}

/// The curve polynomial in `y^2` and `z^2`.
proof fn lemma_curve_polynomial_in(x: int, y: int, z: int, b: int)
    ensures
        curve_polynomial(x, y, z, b) == curve_polynomial_in(x, y * y, z * z, b),
{
    let d = z * z;
    assert(z * z * z * z == d * d) by (nonlinear_arith)
        requires
            d == z * z,
    ;
    assert(z * z * z * z * z * z == d * d * d) by (nonlinear_arith)
        requires
            d == z * z,
    ;
}

/// `(p - q)^2`.
proof fn lemma_square_of_difference(p: int, q: int)
    by (nonlinear_arith)
    ensures
        (p - q) * (p - q) == p * p - 2 * (p * q) + q * q,
{
}

/// `(p - q)^3`.
proof fn lemma_cube_of_difference(p: int, q: int)
    by (nonlinear_arith)
    ensures
        (p - q) * (p - q) * (p - q) == p * p * p - 3 * ((p * p) * q) + 3 * (p * (q * q)) - q * q * q,
{
}

/// `(a * b) * c == (a * c) * b == a * (b * c)`.
proof fn lemma_mul_rearranged(a: int, b: int, c: int)
    by (nonlinear_arith)
    ensures
        (a * b) * c == (a * c) * b,
        (a * b) * c == a * (b * c),
        (a * b) * c == c * (a * b),
        a * b == b * a,
{
}

/// `(a - b) * c` and `(a + b) * c`.
proof fn lemma_mul_distributes(a: int, b: int, c: int)
    by (nonlinear_arith)
    ensures
        (a - b) * c == a * c - b * c,
        (a + b) * c == a * c + b * c,
        c * (a - b) == c * a - c * b,
        c * (a + b) == c * a + c * b,
{
}

/// A constant factor can be moved through a product.
proof fn lemma_mul_scaled(k: int, a: int, b: int)
    by (nonlinear_arith)
    ensures
        (k * a) * b == k * (a * b),
        a * (k * b) == k * (a * b),
{
}

/// `(a * b) * (c * d) == (a * c) * (b * d)`.
proof fn lemma_mul_pairs(a: int, b: int, c: int, d: int)
    by (nonlinear_arith)
    ensures
        (a * b) * (c * d) == (a * c) * (b * d),
{
}

/// `y3^2 - x3^3` of the doubling formulas, in `a = alpha`, `bt = beta` and
/// `gg = gamma^2`.
proof fn lemma_double_square_minus_cube(a: int, bt: int, gg: int, x3: int, y3: int)
    requires
        x3 == a * a - 8 * bt,
        y3 == a * (4 * bt - x3) - 8 * gg,
    ensures
        y3 * y3 - x3 * x3 * x3 == -48 * ((a * a) * (bt * bt)) + 512 * (bt * bt * bt) - 192 * ((a
            * bt) * gg) + 16 * ((a * (a * a)) * gg) + 64 * (gg * gg),
{
    let a2 = a * a;
    let k = 12 * bt - a2;
    let ak = a * k;
    let g8 = 8 * gg;
    // y3 = a * k - 8 * gg
    lemma_square_of_difference(ak, g8);
    assert(y3 * y3 == ak * ak - 2 * (ak * g8) + g8 * g8);
    // (a k)^2 = a^2 * k^2, k^2 = (12 bt - a^2)^2
    lemma_mul_pairs(a, k, a, k);
    let b12 = 12 * bt;
    lemma_square_of_difference(b12, a2);
    lemma_mul_scaled(12, bt, b12);
    lemma_mul_scaled(12, bt, bt);
    assert(b12 * b12 == 144 * (bt * bt));
    lemma_mul_scaled(12, bt, a2);
    assert(k * k == 144 * (bt * bt) - 24 * (bt * a2) + a2 * a2);
    lemma_mul_distributes(144 * (bt * bt) - 24 * (bt * a2), a2 * a2, a2);
    lemma_mul_distributes(144 * (bt * bt), 24 * (bt * a2), a2);
    lemma_mul_scaled(144, bt * bt, a2);
    lemma_mul_scaled(24, bt * a2, a2);
    lemma_mul_rearranged(bt * bt, a2, 1);
    lemma_mul_rearranged(a2, bt, a2);
    lemma_mul_rearranged(a2, bt * bt, 1);
    assert(a2 * (144 * (bt * bt)) == 144 * (a2 * (bt * bt)));
    assert(a2 * (24 * (bt * a2)) == 24 * (a2 * (bt * a2)));
    lemma_mul_rearranged(bt, a2, a2);
    assert(a2 * (bt * a2) == (a2 * a2) * bt) by {
        lemma_mul_rearranged(a2, bt, a2);
        lemma_mul_rearranged(a2, a2, bt);
    }
    assert(ak * ak == 144 * (a2 * (bt * bt)) - 24 * ((a2 * a2) * bt) + a2 * (a2 * a2));
    // (a k) * (8 gg) = 8 * ((a k) * gg), a k = 12 (a bt) - a a2
    lemma_mul_scaled(8, ak, gg);
    lemma_mul_distributes(b12, a2, a);
    lemma_mul_scaled(12, a, bt);
    assert(ak == 12 * (a * bt) - a * a2);
    lemma_mul_distributes(12 * (a * bt), a * a2, gg);
    lemma_mul_scaled(12, a * bt, gg);
    assert(ak * gg == 12 * ((a * bt) * gg) - (a * a2) * gg);
    lemma_mul_scaled(8, gg, g8);
    lemma_mul_scaled(8, gg, gg);
    assert(g8 * g8 == 64 * (gg * gg));
    // x3^3 = (a2 - 8 bt)^3
    let b8 = 8 * bt;
    lemma_cube_of_difference(a2, b8);
    lemma_mul_scaled(8, a2 * a2, bt);
    lemma_mul_scaled(8, bt, b8);
    lemma_mul_scaled(8, bt, bt);
    assert(b8 * b8 == 64 * (bt * bt));
    lemma_mul_scaled(64, a2, bt * bt);
    lemma_mul_scaled(64, bt * bt, b8);
    lemma_mul_scaled(8, bt * bt, bt);
    assert(b8 * b8 * b8 == 512 * (bt * bt * bt));
    assert(x3 * x3 * x3 == a2 * a2 * a2 - 24 * ((a2 * a2) * bt) + 192 * (a2 * (bt * bt)) - 512 * (bt
        * bt * bt));
    lemma_mul_rearranged(a2, a2, a2);
}

/// The doubling formulas over the integers, as a triple of coordinates.
spec fn double_formulas(x: int, y: int, z: int) -> (int, int, int) {
    let alpha = 3 * ((x - z * z) * (x + z * z));
    let beta = x * (y * y);
    let x3 = alpha * alpha - 8 * beta;
    let z3 = (y + z) * (y + z) - y * y - z * z;
    let y3 = alpha * (4 * beta - x3) - 8 * ((y * y) * (y * y));
    (x3, y3, z3)
}

/// The doubling formulas over the integers multiply the curve polynomial by
/// `64 * y^6`.
proof fn lemma_double_polynomial(x: int, y: int, z: int, b: int)
    ensures
        curve_polynomial(
            double_formulas(x, y, z).0,
            double_formulas(x, y, z).1,
            double_formulas(x, y, z).2,
            b,
        ) == (64 * ((y * y) * ((y * y) * (y * y)))) * curve_polynomial(x, y, z, b),
{
    let g = y * y;
    let d = z * z;
    let xx = x * x;
    let dd = d * d;
    let gg = g * g;
    let m = xx - dd;
    let a = 3 * m;
    let a2 = a * a;
    let bt = x * g;
    let x3 = a2 - 8 * bt;
    let z3 = (y + z) * (y + z) - g - d;
    let y3 = a * (4 * bt - x3) - 8 * gg;
    let e = curve_polynomial_in(x, g, d, b);
    lemma_curve_polynomial_in(x, y, z, b);
    lemma_curve_polynomial_in(x3, y3, z3, b);
    // alpha
    lemma_mul_distributes(x, d, x + d);
    lemma_mul_distributes(x, d, x);
    lemma_mul_distributes(x, d, d);
    lemma_mul_rearranged(x, d, 1);
    assert((x - d) * (x + d) == m);
    assert(double_formulas(x, y, z) == (x3, y3, z3));
    // z3^2 = 4 g d
    let zz = z3 * z3;
    lemma_mul_distributes(y, z, y + z);
    lemma_mul_distributes(y, z, y);
    lemma_mul_distributes(y, z, z);
    lemma_mul_rearranged(y, z, 1);
    let yz = y * z;
    assert(z3 == 2 * yz);
    lemma_mul_scaled(2, yz, z3);
    lemma_mul_scaled(2, yz, yz);
    lemma_mul_pairs(y, z, y, z);
    assert(zz == 4 * (g * d));
    let gd = g * d;
    lemma_mul_scaled(4, gd, zz);
    lemma_mul_scaled(4, gd, gd);
    lemma_mul_pairs(g, d, g, d);
    assert(zz * zz == 16 * (gg * dd));
    lemma_mul_scaled(16, gg * dd, zz);
    lemma_mul_scaled(4, gg * dd, gd);
    lemma_mul_pairs(gg, dd, g, d);
    let g3 = gg * g;
    let d3 = dd * d;
    assert(zz * zz * zz == 64 * (g3 * d3));
    lemma_double_square_minus_cube(a, bt, gg, x3, y3);
    // in terms of bt, xx, dd, gg: bt^2 = xx gg
    lemma_mul_pairs(x, g, x, g);
    assert(bt * bt == xx * gg);
    lemma_mul_rearranged(a2, xx, gg);
    lemma_mul_rearranged(bt, xx, gg);
    lemma_mul_rearranged(bt, bt, bt);
    assert(bt * bt * bt == (bt * xx) * gg);
    assert(a2 * (bt * bt) == (a2 * xx) * gg);
    // a = 3 (xx - dd)
    lemma_mul_distributes(xx, dd, a2);
    lemma_mul_scaled(3, m, a2);
    lemma_mul_rearranged(a, a2, 1);
    lemma_mul_rearranged(a2, xx, 1);
    lemma_mul_rearranged(a2, dd, 1);
    assert(a * a2 == 3 * (a2 * xx) - 3 * (a2 * dd));
    lemma_mul_distributes(3 * (a2 * xx), 3 * (a2 * dd), gg);
    lemma_mul_scaled(3, a2 * xx, gg);
    lemma_mul_scaled(3, a2 * dd, gg);
    assert((a * a2) * gg == 3 * ((a2 * xx) * gg) - 3 * ((a2 * dd) * gg));
    lemma_mul_distributes(xx, dd, bt);
    lemma_mul_scaled(3, m, bt);
    lemma_mul_rearranged(bt, xx, 1);
    lemma_mul_rearranged(bt, dd, 1);
    assert(a * bt == 3 * (bt * xx) - 3 * (bt * dd));
    lemma_mul_distributes(3 * (bt * xx), 3 * (bt * dd), gg);
    lemma_mul_scaled(3, bt * xx, gg);
    lemma_mul_scaled(3, bt * dd, gg);
    assert((a * bt) * gg == 3 * ((bt * xx) * gg) - 3 * ((bt * dd) * gg));
    // 3 x3 zz^2
    lemma_mul_distributes(a2, 8 * bt, gg * dd);
    lemma_mul_scaled(8, bt, gg * dd);
    lemma_mul_rearranged(a2, gg, dd);
    lemma_mul_rearranged(a2, dd, gg);
    lemma_mul_rearranged(bt, gg, dd);
    lemma_mul_rearranged(bt, dd, gg);
    assert(x3 * (gg * dd) == (a2 * dd) * gg - 8 * ((bt * dd) * gg));
    lemma_mul_scaled(16, x3, gg * dd);
    assert(x3 * (zz * zz) == 16 * (x3 * (gg * dd)));
    // b zz^3
    lemma_mul_scaled(64, b, g3 * d3);
    lemma_mul_rearranged(b, g3, d3);
    lemma_mul_rearranged(b, d3, g3);
    assert(b * (zz * zz * zz) == 64 * ((b * d3) * g3));
    // what remains is 64 g^3 times the curve polynomial
    let xxx = x * x * x;
    lemma_mul_pairs(x, g, xx, gg);
    lemma_mul_rearranged(x, xx, 1);
    lemma_mul_rearranged(g, gg, 1);
    assert((bt * xx) * gg == xxx * g3) by {
        lemma_mul_rearranged(bt, xx, gg);
        lemma_mul_rearranged(x, x, x);
    }
    lemma_mul_pairs(x, g, dd, gg);
    assert((bt * dd) * gg == (x * dd) * g3) by {
        lemma_mul_rearranged(bt, dd, gg);
    }
    lemma_mul_rearranged(g, g, gg);
    assert(gg * gg == g * g3) by {
        lemma_mul_rearranged(g, gg, g);
        lemma_mul_rearranged(gg, g, g);
    }
    assert(e == g - xxx + 3 * (x * dd) - b * d3);
    lemma_mul_distributes(g - xxx + 3 * (x * dd), b * d3, g3);
    lemma_mul_distributes(g - xxx, 3 * (x * dd), g3);
    lemma_mul_distributes(g, xxx, g3);
    lemma_mul_scaled(3, x * dd, g3);
    assert(e * g3 == g * g3 - xxx * g3 + 3 * ((x * dd) * g3) - (b * d3) * g3);
    assert(y3 * y3 - x3 * x3 * x3 + 3 * (x3 * (zz * zz)) - b * (zz * zz * zz) == 64 * (e * g3));
    lemma_mul_scaled(64, g3, e);
    lemma_mul_rearranged(g3, e, 1);
    lemma_mul_rearranged(g, g, g);
    lemma_mul_rearranged(gg, g, 1);
    assert(g3 == g * gg);
    assert(curve_polynomial_in(x3, y3 * y3, zz, b) == y3 * y3 - x3 * x3 * x3 + 3 * (x3 * (zz * zz))
        - b * (zz * zz * zz));
    assert(curve_polynomial_in(x3, y3 * y3, z3 * z3, b) == (64 * g3) * e);
}

/// The X coordinate of the chord formulas, over the integers.
spec fn chord_x(u1: int, u2: int, s1: int, s2: int) -> int {
    let h = u2 - u1;
    let r = s2 - s1;
    r * r - h * h * h - 2 * (u1 * (h * h))
}

/// The Y coordinate of the chord formulas, over the integers.
spec fn chord_y(u1: int, u2: int, s1: int, s2: int) -> int {
    let h = u2 - u1;
    let r = s2 - s1;
    r * (u1 * (h * h) - chord_x(u1, u2, s1, s2)) - s1 * (h * h * h)
}

/// The second factor of the chord identity is `h^3` times the difference of
/// the two curve polynomials, in which the terms in `b` cancel.
proof fn lemma_chord_factor(
    u1: int,
    u2: int,
    s1: int,
    s2: int,
    w4: int,
    h: int,
    r: int,
    v: int,
    k: int,
)
    requires
        h == u2 - u1,
        r == s2 - s1,
        v == u1 * (h * h),
        k == 3 * v + h * h * h - r * r,
    ensures
        k * (r * r) - 2 * ((r * s1) * (h * h * h)) + (3 * (v * v) - 3 * (v * k) + k * k) - 3 * (((h
            * h) * (h * h)) * w4) == (h * h * h) * ((s1 * s1 - u1 * u1 * u1 + 3 * (u1 * w4)) - (s2
            * s2 - u2 * u2 * u2 + 3 * (u2 * w4))),
{
    let h3 = h * h * h;
    let hh = h * h;
    let h4 = hh * hh;
    // k * r^2 - 3 * v * k + k^2 = k * (r^2 + k - 3 * v) = k * h^3
    assert(k * (r * r) - 3 * (v * k) + k * k == k * h3) by (nonlinear_arith)
        requires
            r * r + k - 3 * v == h3,
    ;
    assert(3 * (v * v) == h3 * (3 * ((u1 * u1) * h))) by (nonlinear_arith)
        requires
            v == u1 * (h * h),
            h3 == h * h * h,
    ;
    assert(h4 * w4 == h3 * (h * w4)) by (nonlinear_arith)
        requires
            h4 == (h * h) * (h * h),
            h3 == h * h * h,
    ;
    lemma_mul_rearranged(k, h3, 1);
    assert(k * h3 == h3 * (3 * (u1 * hh) + h3 - r * r));
    lemma_mul_rearranged(r * s1, h3, 1);
    let inner = 3 * (u1 * hh) + h3 - r * r + 3 * ((u1 * u1) * h) - 2 * (r * s1) - 3 * (h * w4);
    let first = 3 * (u1 * hh) + h3 - r * r;
    lemma_mul_distributes(first + 3 * ((u1 * u1) * h) - 2 * (r * s1), 3 * (h * w4), h3);
    lemma_mul_distributes(first + 3 * ((u1 * u1) * h), 2 * (r * s1), h3);
    lemma_mul_distributes(first, 3 * ((u1 * u1) * h), h3);
    lemma_mul_scaled(2, h3, r * s1);
    lemma_mul_scaled(3, h3, h * w4);
    assert(h3 * inner == h3 * first + h3 * (3 * ((u1 * u1) * h)) - 2 * (h3 * (r * s1)) - 3 * (h3
        * (h * w4)));
    // the difference of the two curve polynomials
    assert(s1 * s1 - s2 * s2 == -(r * r) - 2 * (r * s1)) by (nonlinear_arith)
        requires
            r == s2 - s1,
    ;
    assert(u2 * u2 * u2 - u1 * u1 * u1 == 3 * ((u1 * u1) * h) + 3 * (u1 * hh) + h3)
        by (nonlinear_arith)
        requires
            h == u2 - u1,
            hh == h * h,
            h3 == h * h * h,
    ;
    assert(u1 * w4 - u2 * w4 == -(h * w4)) by (nonlinear_arith)
        requires
            h == u2 - u1,
    ;
}

/// The chord formulas over the integers, applied to two points with the
/// same `z`, give a curve polynomial that is a combination of those of the
/// two points.
proof fn lemma_chord_polynomial(u1: int, u2: int, s1: int, s2: int, w: int, b: int)
    ensures
        ({
            let h = u2 - u1;
            let k = u1 * (h * h) - chord_x(u1, u2, s1, s2);
            let e1 = curve_polynomial(u1, s1, w, b);
            let e2 = curve_polynomial(u2, s2, w, b);
            curve_polynomial(chord_x(u1, u2, s1, s2), chord_y(u1, u2, s1, s2), h * w, b) == e1 * ((h
                * h * h) * (h * h * h)) + k * ((h * h * h) * (e1 - e2))
        }),
{
    let h = u2 - u1;
    let r = s2 - s1;
    let hh = h * h;
    let h3 = h * h * h;
    let h4 = hh * hh;
    let h6 = h3 * h3;
    let v = u1 * hh;
    let x3 = chord_x(u1, u2, s1, s2);
    let y3 = chord_y(u1, u2, s1, s2);
    let z3 = h * w;
    let k = v - x3;
    let w4 = w * w * w * w;
    let w6 = w * w * w * w * w * w;
    let e1 = curve_polynomial(u1, s1, w, b);
    let e2 = curve_polynomial(u2, s2, w, b);
    let z4 = h4 * w4;
    let z6 = h6 * w6;
    assert(z3 * z3 * z3 * z3 == z4) by (nonlinear_arith)
        requires
            z3 == h * w,
            z4 == ((h * h) * (h * h)) * (w * w * w * w),
    ;
    assert(z3 * z3 * z3 * z3 * z3 * z3 == z6) by (nonlinear_arith)
        requires
            z3 == h * w,
            z6 == ((h * h * h) * (h * h * h)) * (w * w * w * w * w * w),
    ;
    lemma_chord_factor(u1, u2, s1, s2, w4, h, r, v, k);
    // the square of y3
    assert(y3 == r * k - s1 * h3);
    let rk = r * k;
    let sh = s1 * h3;
    assert(y3 * y3 == rk * rk - 2 * (rk * sh) + sh * sh) by (nonlinear_arith)
        requires
            y3 == rk - sh,
    ;
    assert(rk * rk == k * (k * (r * r))) by (nonlinear_arith)
        requires
            rk == r * k,
    ;
    lemma_mul_pairs(r, k, s1, h3);
    lemma_mul_rearranged(r * s1, k, h3);
    lemma_mul_rearranged(k, r * s1, h3);
    assert(rk * sh == k * ((r * s1) * h3));
    assert(sh * sh == (s1 * s1) * h6) by (nonlinear_arith)
        requires
            sh == s1 * h3,
            h6 == h3 * h3,
    ;
    assert(s1 * s1 == e1 + u1 * u1 * u1 - 3 * (u1 * w4) + b * w6);
    lemma_mul_distributes(e1 + u1 * u1 * u1 - 3 * (u1 * w4), b * w6, h6);
    lemma_mul_distributes(e1 + u1 * u1 * u1, 3 * (u1 * w4), h6);
    lemma_mul_distributes(e1, u1 * u1 * u1, h6);
    lemma_mul_scaled(3, u1 * w4, h6);
    assert((s1 * s1) * h6 == e1 * h6 + (u1 * u1 * u1) * h6 - 3 * ((u1 * w4) * h6) + (b * w6) * h6);
    assert((u1 * u1 * u1) * h6 == v * v * v) by (nonlinear_arith)
        requires
            v == u1 * (h * h),
            h6 == (h * h * h) * (h * h * h),
    ;
    assert((u1 * w4) * h6 == v * z4) by (nonlinear_arith)
        requires
            v == u1 * (h * h),
            h6 == (h * h * h) * (h * h * h),
            z4 == ((h * h) * (h * h)) * w4,
    ;
    assert((b * w6) * h6 == b * z6) by (nonlinear_arith)
        requires
            z6 == h6 * w6,
    ;
    assert(v * v * v - x3 * x3 * x3 == k * (3 * (v * v) - 3 * (v * k) + k * k))
        by (nonlinear_arith)
        requires
            k == v - x3,
    ;
    lemma_mul_distributes(v, x3, z4);
    let t = k * (r * r) - 2 * ((r * s1) * h3) + (3 * (v * v) - 3 * (v * k) + k * k) - 3 * z4;
    let cubic = 3 * (v * v) - 3 * (v * k) + k * k;
    lemma_mul_distributes(k * (r * r) - 2 * ((r * s1) * h3) + cubic, 3 * z4, k);
    lemma_mul_distributes(k * (r * r) - 2 * ((r * s1) * h3), cubic, k);
    lemma_mul_distributes(k * (r * r), 2 * ((r * s1) * h3), k);
    lemma_mul_scaled(2, k, (r * s1) * h3);
    lemma_mul_scaled(3, k, z4);
    assert(k * t == k * (k * (r * r)) - 2 * (k * ((r * s1) * h3)) + k * cubic - 3 * (k * z4));
    assert(e1 - e2 == (s1 * s1 - u1 * u1 * u1 + 3 * (u1 * w4)) - (s2 * s2 - u2 * u2 * u2 + 3 * (u2
        * w4)));
    assert(t == h3 * (e1 - e2));
    assert(curve_polynomial(x3, y3, z3, b) == y3 * y3 - x3 * x3 * x3 + 3 * (x3 * z4) - b * z6);
    assert(curve_polynomial(x3, y3, z3, b) == e1 * h6 + k * t);
}

/// Scaling the coordinates of a point by powers of `t` scales its curve
/// polynomial by `t^6`.
proof fn lemma_scaled_polynomial(x: int, y: int, z: int, t: int, b: int)
    ensures
        curve_polynomial(x * (t * t), (y * t) * (t * t), z * t, b) == ((t * t) * (t * t) * (t * t))
            * curve_polynomial(x, y, z, b),
{
    let tt = t * t;
    let t6 = (t * t) * (t * t) * (t * t);
    let u = x * tt;
    let s = (y * t) * tt;
    let w = z * t;
    let z4 = z * z * z * z;
    let z6 = z * z * z * z * z * z;
    assert(s * s == t6 * (y * y)) by (nonlinear_arith)
        requires
            s == (y * t) * (t * t),
            t6 == (t * t) * (t * t) * (t * t),
    ;
    assert(u * u * u == t6 * (x * x * x)) by (nonlinear_arith)
        requires
            u == x * (t * t),
            t6 == (t * t) * (t * t) * (t * t),
    ;
    assert(w * w * w * w == (tt * tt) * z4) by (nonlinear_arith)
        requires
            w == z * t,
            tt == t * t,
            z4 == z * z * z * z,
    ;
    assert(u * ((tt * tt) * z4) == t6 * (x * z4)) by (nonlinear_arith)
        requires
            u == x * tt,
            t6 == tt * tt * tt,
    ;
    assert(w * w * w * w * w * w == t6 * z6) by (nonlinear_arith)
        requires
            w == z * t,
            t6 == (t * t) * (t * t) * (t * t),
            z6 == z * z * z * z * z * z,
    ;
    assert(b * (t6 * z6) == t6 * (b * z6)) by (nonlinear_arith);
    lemma_mul_distributes(y * y - x * x * x + 3 * (x * z4), b * z6, t6);
    lemma_mul_distributes(y * y - x * x * x, 3 * (x * z4), t6);
    lemma_mul_distributes(y * y, x * x * x, t6);
    lemma_mul_scaled(3, t6, x * z4);
}

/// A field product is congruent to the product of what its factors are
/// congruent to.
proof fn lemma_field_mul_congruent(a: nat, b: nat, ai: int, bi: int, q: nat)
    requires
        q > 0,
        congruent(a as int, ai, q as int),
        congruent(b as int, bi, q as int),
    ensures
        congruent(field_mul(a, b, q) as int, ai * bi, q as int),
{
    lemma_congruent_mul(a as int, ai, b as int, bi, q as int);
    lemma_congruent_to_remainder((a * b) as int, q as int);
}

/// A field sum is congruent to the sum of what its terms are congruent to.
proof fn lemma_field_add_congruent(a: nat, b: nat, ai: int, bi: int, q: nat)
    requires
        q > 0,
        congruent(a as int, ai, q as int),
        congruent(b as int, bi, q as int),
    ensures
        congruent(field_add(a, b, q) as int, ai + bi, q as int),
{
    lemma_congruent_sum(a as int, ai, b as int, bi, q as int);
    lemma_congruent_to_remainder((a + b) as int, q as int);
}

/// A field difference is congruent to the difference of what its terms are
/// congruent to.
proof fn lemma_field_sub_congruent(a: nat, b: nat, ai: int, bi: int, q: nat)
    requires
        q > 0,
        congruent(a as int, ai, q as int),
        congruent(b as int, bi, q as int),
    ensures
        congruent(field_sub(a, b, q) as int, ai - bi, q as int),
{
    lemma_congruent_sum(a as int, ai, b as int, bi, q as int);
    lemma_congruent_to_remainder(a - b, q as int);
}

/// The curve polynomial of congruent coordinates is congruent.
proof fn lemma_curve_polynomial_congruent(
    x1: int,
    y1: int,
    z1: int,
    x2: int,
    y2: int,
    z2: int,
    b: int,
    q: int,
)
    requires
        q > 0,
        congruent(x1, x2, q),
        congruent(y1, y2, q),
        congruent(z1, z2, q),
    ensures
        congruent(curve_polynomial(x1, y1, z1, b), curve_polynomial(x2, y2, z2, b), q),
{
    lemma_congruent_mul(y1, y2, y1, y2, q);
    lemma_congruent_mul(x1, x2, x1, x2, q);
    lemma_congruent_mul(x1 * x1, x2 * x2, x1, x2, q);
    lemma_congruent_mul(z1, z2, z1, z2, q);
    lemma_congruent_mul(z1 * z1, z2 * z2, z1, z2, q);
    lemma_congruent_mul(z1 * z1 * z1, z2 * z2 * z2, z1, z2, q);
    lemma_congruent_mul(z1 * z1 * z1 * z1, z2 * z2 * z2 * z2, z1, z2, q);
    lemma_congruent_mul(z1 * z1 * z1 * z1 * z1, z2 * z2 * z2 * z2 * z2, z1, z2, q);
    lemma_congruent_mul(x1, x2, z1 * z1 * z1 * z1, z2 * z2 * z2 * z2, q);
    lemma_congruent_mul(3, 3, x1 * (z1 * z1 * z1 * z1), x2 * (z2 * z2 * z2 * z2), q);
    lemma_congruent_mul(b, b, z1 * z1 * z1 * z1 * z1 * z1, z2 * z2 * z2 * z2 * z2 * z2, q);
    lemma_congruent_sum(y1 * y1, y2 * y2, x1 * x1 * x1, x2 * x2 * x2, q);
    lemma_congruent_sum(
        y1 * y1 - x1 * x1 * x1,
        y2 * y2 - x2 * x2 * x2,
        3 * (x1 * (z1 * z1 * z1 * z1)),
        3 * (x2 * (z2 * z2 * z2 * z2)),
        q,
    );
    lemma_congruent_sum(
        y1 * y1 - x1 * x1 * x1 + 3 * (x1 * (z1 * z1 * z1 * z1)),
        y2 * y2 - x2 * x2 * x2 + 3 * (x2 * (z2 * z2 * z2 * z2)),
        b * (z1 * z1 * z1 * z1 * z1 * z1),
        b * (z2 * z2 * z2 * z2 * z2 * z2),
        q,
    );
}

/// The double of a point on the curve is on the curve.
pub proof fn lemma_double_on_curve(p: JacobianPoint, b: nat, q: nat)
    requires
        q > 0,
        is_on_curve_jacobian(p, b, q),
    ensures
        is_on_curve_jacobian(jacobian_double(p, q), b, q),
{
    let x = p.x as int;
    let y = p.y as int;
    let z = p.z as int;
    let m = q as int;
    let doubled = jacobian_double(p, q);
    lemma_double_polynomial(x, y, z, b as int);
    let (xi, yi, zi) = double_formulas(x, y, z);
    let delta = field_mul(p.z, p.z, q);
    let gamma = field_mul(p.y, p.y, q);
    let beta = field_mul(p.x, gamma, q);
    let product = field_mul(field_sub(p.x, delta, q), field_add(p.x, delta, q), q);
    let alpha = field_mul(3, product, q);
    let ai = 3 * ((x - z * z) * (x + z * z));
    let bi = x * (y * y);
    lemma_field_mul_congruent(p.z, p.z, z, z, q);
    lemma_field_mul_congruent(p.y, p.y, y, y, q);
    lemma_field_mul_congruent(p.x, gamma, x, y * y, q);
    lemma_field_sub_congruent(p.x, delta, x, z * z, q);
    lemma_field_add_congruent(p.x, delta, x, z * z, q);
    lemma_field_mul_congruent(
        field_sub(p.x, delta, q),
        field_add(p.x, delta, q),
        x - z * z,
        x + z * z,
        q,
    );
    lemma_field_mul_congruent(3, product, 3, (x - z * z) * (x + z * z), q);
    // x3
    lemma_field_mul_congruent(alpha, alpha, ai, ai, q);
    lemma_field_mul_congruent(8, beta, 8, bi, q);
    lemma_field_sub_congruent(
        field_mul(alpha, alpha, q),
        field_mul(8, beta, q),
        ai * ai,
        8 * bi,
        q,
    );
    assert(congruent(doubled.x as int, xi, m));
    // z3
    let y_plus_z = field_add(p.y, p.z, q);
    lemma_field_add_congruent(p.y, p.z, y, z, q);
    lemma_field_mul_congruent(y_plus_z, y_plus_z, y + z, y + z, q);
    lemma_field_sub_congruent(
        field_mul(y_plus_z, y_plus_z, q),
        gamma,
        (y + z) * (y + z),
        y * y,
        q,
    );
    lemma_field_sub_congruent(
        field_sub(field_mul(y_plus_z, y_plus_z, q), gamma, q),
        delta,
        (y + z) * (y + z) - y * y,
        z * z,
        q,
    );
    assert(congruent(doubled.z as int, zi, m));
    // y3
    lemma_field_mul_congruent(4, beta, 4, bi, q);
    lemma_field_sub_congruent(field_mul(4, beta, q), doubled.x, 4 * bi, xi, q);
    lemma_field_mul_congruent(
        alpha,
        field_sub(field_mul(4, beta, q), doubled.x, q),
        ai,
        4 * bi - xi,
        q,
    );
    lemma_field_mul_congruent(gamma, gamma, y * y, y * y, q);
    lemma_field_mul_congruent(8, field_mul(gamma, gamma, q), 8, (y * y) * (y * y), q);
    lemma_field_sub_congruent(
        field_mul(alpha, field_sub(field_mul(4, beta, q), doubled.x, q), q),
        field_mul(8, field_mul(gamma, gamma, q), q),
        ai * (4 * bi - xi),
        8 * ((y * y) * (y * y)),
        q,
    );
    assert(congruent(doubled.y as int, yi, m));
    lemma_curve_polynomial_congruent(
        doubled.x as int,
        doubled.y as int,
        doubled.z as int,
        xi,
        yi,
        zi,
        b as int,
        m,
    );
    let factor = 64 * ((y * y) * ((y * y) * (y * y)));
    lemma_congruent_mul(factor, factor, curve_polynomial(x, y, z, b as int), 0, m);
    assert(factor * 0 == 0) by (nonlinear_arith);
}

/// A multiple of a number congruent to zero is congruent to zero.
proof fn lemma_multiple_of_zero(x: int, k: int, q: int)
    requires
        q > 0,
        congruent(x, 0, q),
    ensures
        congruent(k * x, 0, q),
        congruent(x * k, 0, q),
{
    lemma_congruent_mul(k, k, x, 0, q);
    lemma_congruent_mul(x, 0, k, k, q);
    lemma_mul_rearranged(k, 0, 1);
    assert(k * 0 == 0 && 0 * k == 0) by (nonlinear_arith);
}

/// The point at infinity, with every coordinate zero, is on the curve.
pub proof fn lemma_infinity_on_curve(b: nat, q: nat)
    requires
        q > 0,
    ensures
        is_on_curve_jacobian(JacobianPoint::infinity(), b, q),
{
    assert(curve_polynomial(0, 0, 0, b as int) == 0) by (nonlinear_arith);
}

/// The sum of two points on the curve is on the curve.
pub proof fn lemma_add_on_curve(left: JacobianPoint, right: JacobianPoint, b: nat, q: nat)
    requires
        q > 0,
        is_on_curve_jacobian(left, b, q),
        is_on_curve_jacobian(right, b, q),
    ensures
        is_on_curve_jacobian(jacobian_add(left, right, q), b, q),
{
    let sum = jacobian_add(left, right, q);
    let m = q as int;
    let x1 = left.x as int;
    let y1 = left.y as int;
    let z1 = left.z as int;
    let x2 = right.x as int;
    let y2 = right.y as int;
    let z2 = right.z as int;
    let z1z1 = field_mul(left.z, left.z, q);
    let z2z2 = field_mul(right.z, right.z, q);
    let u1 = field_mul(left.x, z2z2, q);
    let u2 = field_mul(right.x, z1z1, q);
    let s1 = field_mul(field_mul(left.y, right.z, q), z2z2, q);
    let s2 = field_mul(field_mul(right.y, left.z, q), z1z1, q);
    let h = field_sub(u2, u1, q);
    let r = field_sub(s2, s1, q);
    if right.is_infinity() || left.is_infinity() {
    } else if h == 0 {
        if r == 0 {
            lemma_double_on_curve(left, b, q);
        } else {
            lemma_infinity_on_curve(b, q);
        }
    } else {
        let ui1 = x1 * (z2 * z2);
        let ui2 = x2 * (z1 * z1);
        let si1 = (y1 * z2) * (z2 * z2);
        let si2 = (y2 * z1) * (z1 * z1);
        let hi = ui2 - ui1;
        let ri = si2 - si1;
        let w = z1 * z2;
        let xi = chord_x(ui1, ui2, si1, si2);
        let yi = chord_y(ui1, ui2, si1, si2);
        let zi = hi * w;
        let vi = ui1 * (hi * hi);
        let h3 = hi * hi * hi;
        lemma_field_mul_congruent(left.z, left.z, z1, z1, q);
        lemma_field_mul_congruent(right.z, right.z, z2, z2, q);
        lemma_field_mul_congruent(left.x, z2z2, x1, z2 * z2, q);
        lemma_field_mul_congruent(right.x, z1z1, x2, z1 * z1, q);
        lemma_field_mul_congruent(left.y, right.z, y1, z2, q);
        lemma_field_mul_congruent(field_mul(left.y, right.z, q), z2z2, y1 * z2, z2 * z2, q);
        lemma_field_mul_congruent(right.y, left.z, y2, z1, q);
        lemma_field_mul_congruent(field_mul(right.y, left.z, q), z1z1, y2 * z1, z1 * z1, q);
        lemma_field_sub_congruent(u2, u1, ui2, ui1, q);
        lemma_field_sub_congruent(s2, s1, si2, si1, q);
        let hh = field_mul(h, h, q);
        let hhh = field_mul(h, hh, q);
        let v = field_mul(u1, hh, q);
        lemma_field_mul_congruent(h, h, hi, hi, q);
        lemma_field_mul_congruent(h, hh, hi, hi * hi, q);
        lemma_mul_rearranged(hi, hi, hi);
        assert(hi * (hi * hi) == h3);
        lemma_field_mul_congruent(u1, hh, ui1, hi * hi, q);
        // x3
        lemma_field_mul_congruent(r, r, ri, ri, q);
        lemma_field_sub_congruent(field_mul(r, r, q), hhh, ri * ri, h3, q);
        lemma_field_mul_congruent(2, v, 2, vi, q);
        lemma_field_sub_congruent(
            field_sub(field_mul(r, r, q), hhh, q),
            field_mul(2, v, q),
            ri * ri - h3,
            2 * vi,
            q,
        );
        assert(congruent(sum.x as int, xi, m));
        // y3
        lemma_field_sub_congruent(v, sum.x, vi, xi, q);
        lemma_field_mul_congruent(r, field_sub(v, sum.x, q), ri, vi - xi, q);
        lemma_field_mul_congruent(s1, hhh, si1, h3, q);
        lemma_field_sub_congruent(
            field_mul(r, field_sub(v, sum.x, q), q),
            field_mul(s1, hhh, q),
            ri * (vi - xi),
            si1 * h3,
            q,
        );
        assert(congruent(sum.y as int, yi, m));
        // z3
        lemma_field_mul_congruent(h, left.z, hi, z1, q);
        lemma_field_mul_congruent(field_mul(h, left.z, q), right.z, hi * z1, z2, q);
        lemma_mul_rearranged(hi, z1, z2);
        assert(congruent(sum.z as int, zi, m));
        lemma_curve_polynomial_congruent(
            sum.x as int,
            sum.y as int,
            sum.z as int,
            xi,
            yi,
            zi,
            b as int,
            m,
        );
        // the two curve polynomials, scaled to the common z
        let e1 = curve_polynomial(ui1, si1, w, b as int);
        let e2 = curve_polynomial(ui2, si2, w, b as int);
        lemma_chord_polynomial(ui1, ui2, si1, si2, w, b as int);
        lemma_scaled_polynomial(x1, y1, z1, z2, b as int);
        lemma_scaled_polynomial(x2, y2, z2, z1, b as int);
        lemma_mul_rearranged(z2, z1, 1);
        assert(z2 * z1 == w);
        lemma_multiple_of_zero(
            curve_polynomial(x1, y1, z1, b as int),
            (z2 * z2) * (z2 * z2) * (z2 * z2),
            m,
        );
        lemma_multiple_of_zero(
            curve_polynomial(x2, y2, z2, b as int),
            (z1 * z1) * (z1 * z1) * (z1 * z1),
            m,
        );
        assert(congruent(e1, 0, m));
        assert(congruent(e2, 0, m));
        lemma_multiple_of_zero(e1, h3 * h3, m);
        lemma_congruent_sum(e1, 0, e2, 0, m);
        lemma_multiple_of_zero(e1 - e2, h3, m);
        lemma_multiple_of_zero(h3 * (e1 - e2), vi - xi, m);
        lemma_congruent_sum(e1 * (h3 * h3), 0, (vi - xi) * (h3 * (e1 - e2)), 0, m);
    }
}

/// Every multiple of a point on the curve is on the curve.
pub proof fn lemma_mul_on_curve(k: nat, p: JacobianPoint, b: nat, q: nat)
    requires
        q > 0,
        is_on_curve_jacobian(p, b, q),
    ensures
        is_on_curve_jacobian(jacobian_mul(k, p, q), b, q),
    decreases k,
{
    if k == 0 {
        lemma_infinity_on_curve(b, q);
    } else {
        lemma_mul_on_curve(k / 2, p, b, q);
        let doubled = jacobian_double(jacobian_mul(k / 2, p, q), q);
        lemma_double_on_curve(jacobian_mul(k / 2, p, q), b, q);
        if k % 2 == 1 {
            lemma_add_on_curve(doubled, p, b, q);
        }
    }
}

/// An affine point that satisfies the curve equation, taken as a Jacobian
/// point with `z == 1`, is on the curve.
pub proof fn lemma_affine_point_on_curve(x: nat, y: nat, b: nat, q: nat)
    requires
        q > 3,
        is_on_curve(x, y, b, q),
    ensures
        is_on_curve_jacobian(JacobianPoint { x, y, z: 1 }, b, q),
{
    let m = q as int;
    let xi = x as int;
    let yi = y as int;
    // the right side of the affine equation
    let xx = field_mul(x, x, q);
    let shifted = field_add(xx, (q - 3) as nat, q);
    let cubic = field_mul(shifted, x, q);
    lemma_field_mul_congruent(x, x, xi, xi, q);
    crate::math::lemma_mod_of_sum_with_multiple(-3, 1, m);
    assert(congruent(q - 3, -3, m));
    lemma_field_add_congruent(xx, (q - 3) as nat, xi * xi, -3, q);
    lemma_field_mul_congruent(shifted, x, xi * xi + (-3), xi, q);
    lemma_field_add_congruent(cubic, b, (xi * xi + (-3)) * xi, b as int, q);
    lemma_field_mul_congruent(y, y, yi, yi, q);
    // so y^2 is congruent to (x^2 - 3) * x + b
    let right = (xi * xi + (-3)) * xi + b;
    assert(congruent(yi * yi, right, m));
    lemma_congruent_sum(yi * yi, right, right, right, m);
    assert(congruent(yi * yi - right, 0, m));
    lemma_mul_distributes(xi * xi, -3, xi);
    lemma_mul_rearranged(xi, 1, 1);
    assert(curve_polynomial(xi, yi, 1, b as int) == yi * yi - right) by {
        assert(1int * 1 * 1 * 1 == 1 && 1int * 1 * 1 * 1 * 1 * 1 == 1) by (nonlinear_arith);
        assert(xi * 1 == xi && (b as int) * 1 == b) by (nonlinear_arith);
        assert((-3) * xi == -(3 * xi)) by (nonlinear_arith);
    }
}

/// The curve polynomial, scaled by the cube of `i`, in `t = x * i` and
/// `c = z^2 * i`.
proof fn lemma_normalized_polynomial(x: int, y: int, z: int, i: int, b: int)
    ensures
        ({
            let t = x * i;
            let c = (z * z) * i;
            (y * y) * (i * i * i) == (i * i * i) * curve_polynomial(x, y, z, b) + t * t * t - 3 * (t
                * (c * c)) + b * (c * c * c)
        }),
        ({
            let c = (z * z) * i;
            (y * (z * (i * i))) * (y * (z * (i * i))) == ((y * y) * (i * i * i)) * c
        }),
{
    let t = x * i;
    let c = (z * z) * i;
    let i3 = i * i * i;
    let z4 = z * z * z * z;
    let z6 = z * z * z * z * z * z;
    let e = curve_polynomial(x, y, z, b);
    assert(t * t * t == (x * x * x) * i3) by (nonlinear_arith)
        requires
            t == x * i,
            i3 == i * i * i,
    ;
    assert(c * c == z4 * (i * i)) by (nonlinear_arith)
        requires
            c == (z * z) * i,
            z4 == z * z * z * z,
    ;
    assert(c * c * c == z6 * i3) by (nonlinear_arith)
        requires
            c == (z * z) * i,
            z6 == z * z * z * z * z * z,
            i3 == i * i * i,
    ;
    let ii = i * i;
    lemma_mul_pairs(x, i, z4, ii);
    lemma_mul_rearranged(i, i, i);
    assert(t * (c * c) == (x * z4) * i3);
    lemma_mul_rearranged(b, z6, i3);
    lemma_mul_distributes(y * y - x * x * x + 3 * (x * z4), b * z6, i3);
    lemma_mul_distributes(y * y - x * x * x, 3 * (x * z4), i3);
    lemma_mul_distributes(y * y, x * x * x, i3);
    lemma_mul_scaled(3, i3, x * z4);
    lemma_mul_rearranged(y * y, i3, 1);
    lemma_mul_rearranged(x * x * x, i3, 1);
    lemma_mul_rearranged(x * z4, i3, 1);
    lemma_mul_rearranged(b * z6, i3, 1);
    assert(i3 * e == (y * y) * i3 - (x * x * x) * i3 + 3 * ((x * z4) * i3) - (b * z6) * i3);
    // the square of y * z * i^2
    let zi = z * ii;
    lemma_mul_pairs(y, zi, y, zi);
    assert(zi * zi == i3 * c) by (nonlinear_arith)
        requires
            zi == z * (i * i),
            i3 == i * i * i,
            c == (z * z) * i,
    ;
    lemma_mul_rearranged(y * y, i3, c);
}

/// The affine coordinates of a finite point on the curve satisfy the affine
/// curve equation, provided that the power taken for the inverse of `z^2`
/// is that inverse. For a prime `q` it is, by Fermat's theorem.
pub proof fn lemma_affine_coordinates_on_curve(p: JacobianPoint, b: nat, q: nat)
    requires
        q > 3,
        is_on_curve_jacobian(p, b, q),
        field_mul(field_mul(p.z, p.z, q), field_pow(p.z, (q - 3) as nat, q), q) == 1,
    ensures
        is_on_curve(affine_coordinates(p, q).0, affine_coordinates(p, q).1, b, q),
{
    let m = q as int;
    let x = p.x as int;
    let y = p.y as int;
    let z = p.z as int;
    let inverse = field_pow(p.z, (q - 3) as nat, q);
    let i = inverse as int;
    let t = x * i;
    let c = (z * z) * i;
    let i3 = i * i * i;
    let e = curve_polynomial(x, y, z, b as int);
    // the affine coordinates
    let zzzz_inv = field_mul(inverse, inverse, q);
    let zzz_inv = field_mul(p.z, zzzz_inv, q);
    let xa = field_mul(p.x, inverse, q);
    let ya = field_mul(p.y, zzz_inv, q);
    lemma_field_mul_congruent(p.x, inverse, x, i, q);
    lemma_field_mul_congruent(inverse, inverse, i, i, q);
    lemma_field_mul_congruent(p.z, zzzz_inv, z, i * i, q);
    lemma_field_mul_congruent(p.y, zzz_inv, y, z * (i * i), q);
    // the two sides of the affine equation
    lemma_field_mul_congruent(ya, ya, y * (z * (i * i)), y * (z * (i * i)), q);
    let xx = field_mul(xa, xa, q);
    let shifted = field_add(xx, (q - 3) as nat, q);
    let cubic = field_mul(shifted, xa, q);
    lemma_field_mul_congruent(xa, xa, t, t, q);
    crate::math::lemma_mod_of_sum_with_multiple(-3, 1, m);
    lemma_field_add_congruent(xx, (q - 3) as nat, t * t, -3, q);
    lemma_field_mul_congruent(shifted, xa, t * t + (-3), t, q);
    lemma_field_add_congruent(cubic, b, (t * t + (-3)) * t, b as int, q);
    let right = (t * t + (-3)) * t + b;
    lemma_mul_distributes(t * t, -3, t);
    assert((-3) * t == -(3 * t)) by (nonlinear_arith);
    assert(right == t * t * t - 3 * t + b);
    // c is congruent to one, and so are its powers
    lemma_field_mul_congruent(p.z, p.z, z, z, q);
    lemma_field_mul_congruent(field_mul(p.z, p.z, q), inverse, z * z, i, q);
    crate::math::lemma_mod_small(1, q);
    assert(congruent(c, 1, m));
    lemma_congruent_mul(c, 1, c, 1, m);
    lemma_congruent_mul(c * c, 1, c, 1, m);
    assert(1int * 1 == 1);
    lemma_congruent_mul(t, t, c * c, 1, m);
    lemma_congruent_mul(3, 3, t * (c * c), t * 1, m);
    lemma_congruent_mul(b as int, b as int, c * c * c, 1, m);
    assert(t * 1 == t && (b as int) * 1 == b) by (nonlinear_arith);
    // y^2 * i^3 is congruent to the right side
    lemma_normalized_polynomial(x, y, z, i, b as int);
    lemma_multiple_of_zero(e, i3, m);
    lemma_congruent_sum(i3 * e, 0, t * t * t, t * t * t, m);
    lemma_congruent_sum(i3 * e + t * t * t, 0 + t * t * t, 3 * (t * (c * c)), 3 * t, m);
    lemma_congruent_sum(
        i3 * e + t * t * t - 3 * (t * (c * c)),
        0 + t * t * t - 3 * t,
        b * (c * c * c),
        b as int,
        m,
    );
    assert(congruent((y * y) * i3, right, m));
    lemma_congruent_mul((y * y) * i3, right, c, 1, m);
    assert(right * 1 == right) by (nonlinear_arith);
    assert(congruent((y * (z * (i * i))) * (y * (z * (i * i))), right, m));
    // both sides are remainders, so they are equal
    crate::math::lemma_congruent_to_remainder((ya * ya) as int, m);
    crate::math::lemma_congruent_to_remainder((cubic + b) as int, m);
}

} // verus!

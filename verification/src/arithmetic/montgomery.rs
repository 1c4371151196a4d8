//! Montgomery multiplication, and the encodings of a residue that it relates.
//!
//! For a modulus `m` of `n` limbs, `R` is the weight of limb `n`. The
//! Montgomery product of `a` and `b` is `a * b / R` modulo `m`.

use crate::arithmetic::modular::limbs_reduce_once;
use crate::constant_time::{add_with_carry, mul_add, mul_low};
use crate::limb::{limb_radix, limb_weight, limbs_clear, limbs_value, Limb};
use crate::limb_lemmas::{
    lemma_value_bound,
    lemma_value_concat,
    lemma_value_push,
    lemma_value_take_all,
    lemma_value_take_step,
    lemma_value_zero,
    lemma_weight_step,
};
use crate::math::{
    lemma_div_mod_unique,
    lemma_mod_of_sum_with_multiple,
    lemma_mod_small,
    lemma_mul_congruent,
    lemma_pow_adds,
    lemma_pow_step,
    nat_pow,
};
use vstd::prelude::*;

verus! {

/// The encoding of a residue as itself.
pub struct Unencoded;

/// The encoding of a residue `x` as `x * R`.
pub struct R;

/// The encoding of a residue `x` as `x * R * R`.
pub struct RR;

/// An encoding of a residue: the residue times some power of `R`.
pub trait Encoding {
    /// The power of `R` that an encoded value carries.
    spec fn factors() -> nat;
}

impl Encoding for Unencoded {
    open spec fn factors() -> nat {
        0
    }
}

impl Encoding for R {
    open spec fn factors() -> nat {
        1
    }
}

impl Encoding for RR {
    open spec fn factors() -> nat {
        2
    }
}

/// The pairs of encodings that may be multiplied. A Montgomery product
/// divides by `R` once, so the product carries one factor of `R` less than
/// its two operands together. A pair without an impl does not compile.
pub trait ProductEncoding<EA: Encoding, EB: Encoding> {
    /// The encoding of the product.
    type Output: Encoding;

    proof fn product_factors()
        ensures
            Self::Output::factors() + 1 == EA::factors() + EB::factors(),
    ;
}

impl<E: Encoding> ProductEncoding<R, E> for (R, E) {
    type Output = E;

    proof fn product_factors() {
    }
}

impl ProductEncoding<Unencoded, R> for (Unencoded, R) {
    type Output = Unencoded;

    proof fn product_factors() {
    }
}

impl ProductEncoding<Unencoded, RR> for (Unencoded, RR) {
    type Output = R;

    proof fn product_factors() {
    }
}

impl ProductEncoding<RR, Unencoded> for (RR, Unencoded) {
    type Output = R;

    proof fn product_factors() {
    }
}

/// The inverse of the radix modulo `m`, where `n0` is the negated inverse of
/// `m` modulo the radix.
pub open spec fn radix_inverse(m: nat, n0: nat) -> nat {
    ((m * n0 + 1) / limb_radix()) % m
}

/// The inverse of `R` modulo `m`, for `R` the weight of limb `num_limbs`.
pub open spec fn r_inverse(m: nat, n0: nat, num_limbs: nat) -> nat {
    nat_pow(radix_inverse(m, n0), num_limbs) % m
}

/// The residue that `stored` encodes with `factors` factors of `R`.
pub open spec fn decoded(stored: nat, factors: nat, m: nat, r_inv: nat) -> nat {
    (stored * nat_pow(r_inv, factors)) % m
}

/// `radix_inverse` is the inverse of the radix.
pub proof fn lemma_radix_inverse(m: nat, n0: nat)
    requires
        m > 1,
        (m * n0 + 1) % limb_radix() == 0,
    ensures
        (limb_radix() * radix_inverse(m, n0)) % m == 1,
{
    let radix = limb_radix() as int;
    let c = ((m * n0 + 1) / limb_radix()) as int;
    vstd::arithmetic::div_mod::lemma_fundamental_div_mod((m * n0 + 1) as int, radix);
    assert(radix * c == 1 + n0 * m) by (nonlinear_arith)
        requires
            m * n0 + 1 == radix * c,
    ;
    lemma_mod_of_sum_with_multiple(1, n0 as int, m as int);
    lemma_mod_small(1, m);
    crate::math::lemma_mul_mod(radix, c, m as int);
}

/// `r_inverse` is the inverse of `R`.
pub proof fn lemma_r_inverse(m: nat, n0: nat, num_limbs: nat)
    requires
        m > 1,
        (m * n0 + 1) % limb_radix() == 0,
    ensures
        (limb_weight(num_limbs) * r_inverse(m, n0, num_limbs)) % m == 1,
        r_inverse(m, n0, num_limbs) < m,
{
    lemma_radix_inverse(m, n0);
    lemma_powers_of_inverses(limb_radix(), radix_inverse(m, n0), num_limbs, m);
    crate::math::lemma_mul_mod(
        limb_weight(num_limbs) as int,
        nat_pow(radix_inverse(m, n0), num_limbs) as int,
        m as int,
    );
}

/// Equal powers of two numbers that are inverse to each other modulo `m`
/// are inverse to each other.
pub proof fn lemma_powers_of_inverses(x: nat, y: nat, e: nat, m: nat)
    requires
        m > 1,
        (x * y) % m == 1,
    ensures
        (nat_pow(x, e) * nat_pow(y, e)) % m == 1,
    decreases e,
{
    lemma_mod_small(1, m);
    if e == 0 {
        assert(nat_pow(x, e) == 1 && nat_pow(y, e) == 1);
        assert(nat_pow(x, e) * nat_pow(y, e) == 1) by (nonlinear_arith)
            requires
                nat_pow(x, e) == 1 && nat_pow(y, e) == 1,
        ;
    } else {
        let px = nat_pow(x, (e - 1) as nat);
        let py = nat_pow(y, (e - 1) as nat);
        lemma_powers_of_inverses(x, y, (e - 1) as nat, m);
        lemma_mul_congruent((x * y) as int, 1, (px * py) as int, 1, m as int);
        assert(nat_pow(x, e) == x * px);
        assert(nat_pow(y, e) == y * py);
        assert((x * px) * (y * py) == (x * y) * (px * py)) by (nonlinear_arith);
        assert(1int * 1int == 1);
    }
}

/// The Montgomery product of two stored values decodes to the product of
/// what they decode to.
pub proof fn lemma_decoded_product(
    stored: nat,
    a: nat,
    b: nat,
    factors: nat,
    factors_a: nat,
    factors_b: nat,
    m: nat,
    r: nat,
    r_inv: nat,
)
    requires
        m > 1,
        (r * r_inv) % m == 1,
        (stored * r) % m == (a * b) % m,
        factors + 1 == factors_a + factors_b,
    ensures
        decoded(stored, factors, m, r_inv) == (decoded(a, factors_a, m, r_inv) * decoded(
            b,
            factors_b,
            m,
            r_inv,
        )) % m,
{
    let p = nat_pow(r_inv, factors) as int;
    let pa = nat_pow(r_inv, factors_a) as int;
    let pb = nat_pow(r_inv, factors_b) as int;
    let mi = m as int;
    lemma_pow_adds(r_inv, factors_a, factors_b);
    lemma_pow_step(r_inv, factors);
    assert(pa * pb == r_inv * p);
    crate::math::lemma_mul_mod(a * pa, b * pb, mi);
    assert((a * pa) * (b * pb) == (a * b) * (r_inv * p)) by (nonlinear_arith)
        requires
            pa * pb == r_inv * p,
    ;
    lemma_mul_congruent((a * b) as int, (stored * r) as int, r_inv * p, r_inv * p, mi);
    assert((stored * r) * (r_inv * p) == (r * r_inv) * (stored * p)) by (nonlinear_arith);
    lemma_mod_small(1, m);
    lemma_mul_congruent((r * r_inv) as int, 1, stored * p, stored * p, mi);
    assert(1 * (stored * p) == stored * p) by (nonlinear_arith);
}

/// The sum of two stored values, reduced, decodes to the sum of what they
/// decode to.
pub proof fn lemma_decoded_sum(a: nat, b: nat, factors: nat, m: nat, r_inv: nat)
    requires
        m > 0,
    ensures
        decoded((a + b) % m, factors, m, r_inv) == (decoded(a, factors, m, r_inv) + decoded(
            b,
            factors,
            m,
            r_inv,
        )) % m,
{
    let p = nat_pow(r_inv, factors) as int;
    let mi = m as int;
    crate::math::lemma_mul_mod((a + b) as int, p, mi);
    assert((a + b) * p == a * p + b * p) by (nonlinear_arith);
    vstd::arithmetic::div_mod::lemma_add_mod_noop(a * p, b * p, mi);
}

/// The difference of two stored values, reduced, decodes to the difference
/// of what they decode to.
pub proof fn lemma_decoded_difference(a: nat, b: nat, factors: nat, m: nat, r_inv: nat)
    requires
        m > 0,
    ensures
        decoded(((a - b) % (m as int)) as nat, factors, m, r_inv) == (decoded(
            a,
            factors,
            m,
            r_inv,
        ) - decoded(b, factors, m, r_inv)) % (m as int),
{
    let p = nat_pow(r_inv, factors) as int;
    let mi = m as int;
    crate::math::lemma_mul_mod(a - b, p, mi);
    assert((a - b) * p == a * p - b * p) by (nonlinear_arith);
    vstd::arithmetic::div_mod::lemma_sub_mod_noop(a * p, b * p, mi);
}

/// Two stored values below the modulus that decode to the same residue are
/// the same.
pub proof fn lemma_decoded_injective(a: nat, b: nat, factors: nat, m: nat, r: nat, r_inv: nat)
    requires
        m > 1,
        (r * r_inv) % m == 1,
        a < m,
        b < m,
        decoded(a, factors, m, r_inv) == decoded(b, factors, m, r_inv),
    ensures
        a == b,
{
    let p = nat_pow(r_inv, factors) as int;
    let w = nat_pow(r, factors) as int;
    let mi = m as int;
    lemma_powers_of_inverses(r, r_inv, factors, m);
    lemma_mod_small(1, m);
    lemma_mul_congruent(a * p, b * p, w, w, mi);
    assert((a * p) * w == (w * p) * a) by (nonlinear_arith);
    assert((b * p) * w == (w * p) * b) by (nonlinear_arith);
    lemma_mul_congruent(w * p, 1, a as int, a as int, mi);
    lemma_mul_congruent(w * p, 1, b as int, b as int, mi);
    assert(1 * (a as int) == a && 1 * (b as int) == b) by (nonlinear_arith);
    lemma_mod_small(a, m);
    lemma_mod_small(b, m);
}

/// A residue times the matching power of `R` decodes to the residue.
pub proof fn lemma_decoded_encoded(v: nat, factors: nat, m: nat, r: nat, r_inv: nat)
    requires
        m > 1,
        (r * r_inv) % m == 1,
    ensures
        decoded((v * nat_pow(r, factors)) % m, factors, m, r_inv) == v % m,
{
    let p = nat_pow(r_inv, factors) as int;
    let w = nat_pow(r, factors) as int;
    let mi = m as int;
    lemma_powers_of_inverses(r, r_inv, factors, m);
    lemma_mod_small(1, m);
    crate::math::lemma_mul_mod(v * w, p, mi);
    assert((v * w) * p == (w * p) * v) by (nonlinear_arith);
    lemma_mul_congruent(w * p, 1, v as int, v as int, mi);
    assert(1 * (v as int) == v) by (nonlinear_arith);
}

/// Without a factor of `R`, a stored value below the modulus is the residue.
pub proof fn lemma_decoded_unencoded(a: nat, m: nat, r_inv: nat)
    requires
        a < m,
    ensures
        decoded(a, 0, m, r_inv) == a,
{
    assert(nat_pow(r_inv, 0) == 1);
    assert(a * 1 == a) by (nonlinear_arith);
    lemma_mod_small(a, m);
}

/// A stored value below the modulus is zero exactly when its residue is.
pub proof fn lemma_decoded_zero(a: nat, factors: nat, m: nat, r: nat, r_inv: nat)
    requires
        m > 1,
        (r * r_inv) % m == 1,
        a < m,
    ensures
        decoded(a, factors, m, r_inv) == 0 <==> a == 0,
{
    assert(0 * nat_pow(r_inv, factors) == 0) by (nonlinear_arith);
    lemma_mod_small(0, m);
    if decoded(a, factors, m, r_inv) == 0 {
        lemma_decoded_injective(a, 0, factors, m, r, r_inv);
    }
}

/// One step of a multiply-and-add chain, scaled by the weight `w` of the limb.
proof fn lemma_mul_add_step(
    r_low: int,
    old_low: int,
    a_low: int,
    ai: int,
    ri: int,
    b: int,
    carry_in: int,
    lo: int,
    hi: int,
    w: int,
)
    by (nonlinear_arith)
    requires
        lo + hi * 0x1_0000_0000_0000_0000 == ai * b + ri + carry_in,
        r_low + carry_in * w == old_low + a_low * b,
    ensures
        r_low + lo * w + hi * (0x1_0000_0000_0000_0000 * w) == (old_low + ri * w) + (a_low + ai
            * w) * b,
{
}

/// `r = r + a * b` for a single limb `b`; returns the limb carried out of the top.
pub fn limbs_mul_add_limb(r: &mut [Limb], a: &[Limb], b: Limb) -> (carry: Limb)
    requires
        old(r)@.len() == a@.len(),
    ensures
        final(r)@.len() == old(r)@.len(),
        limbs_value(final(r)@) + carry * limb_weight(a@.len()) == limbs_value(old(r)@)
            + limbs_value(a@) * b,
        a@.len() > 0 ==> final(r)@[0] == (old(r)@[0] + a@[0] * b) % 0x1_0000_0000_0000_0000,
{
    let n = a.len();
    let mut carry: Limb = 0;
    proof {
        assert(0 * limb_weight(0) == 0) by (nonlinear_arith);
        assert(0 * b == 0) by (nonlinear_arith);
    }
    for i in 0..n
        invariant
            n == a@.len(),
            n == r@.len(),
            n == old(r)@.len(),
            forall|j: int| i <= j < n ==> r@[j] == old(r)@[j],
            limbs_value(r@.take(i as int)) + carry * limb_weight(i as nat) == limbs_value(
                old(r)@.take(i as int),
            ) + limbs_value(a@.take(i as int)) * b,
            i > 0 ==> r@[0] == (old(r)@[0] + a@[0] * b) % 0x1_0000_0000_0000_0000,
            i == 0 ==> carry == 0,
    {
        let ghost before = r@;
        let (lo, hi) = mul_add(a[i], b, r[i], carry);
        r[i] = lo;
        proof {
            assert(r@.take(i as int) =~= before.take(i as int));
            lemma_value_take_step(r@, i as int);
            lemma_value_take_step(old(r)@, i as int);
            lemma_value_take_step(a@, i as int);
            lemma_weight_step(i as nat);
            lemma_mul_add_step(
                limbs_value(before.take(i as int)) as int,
                limbs_value(old(r)@.take(i as int)) as int,
                limbs_value(a@.take(i as int)) as int,
                a@[i as int] as int,
                before[i as int] as int,
                b as int,
                carry as int,
                lo as int,
                hi as int,
                limb_weight(i as nat) as int,
            );
            if i == 0 {
                assert(hi * 0x1_0000_0000_0000_0000 == 0x1_0000_0000_0000_0000 * hi)
                    by (nonlinear_arith);
                lemma_div_mod_unique(
                    old(r)@[0] + a@[0] * b,
                    0x1_0000_0000_0000_0000,
                    hi as int,
                    lo as int,
                );
            }
        }
        carry = hi;
    }
    proof {
        lemma_value_take_all(r@);
        lemma_value_take_all(old(r)@);
        lemma_value_take_all(a@);
    }
    carry
}

/// With `n0` the negated inverse of `m0` modulo the radix, adding `u * m0`
/// for `u = x * n0` clears the low limb `x`.
proof fn lemma_low_limb_cleared(x: int, m0: int, n0: int, u: int)
    requires
        u == (x * n0) % 0x1_0000_0000_0000_0000,
        (m0 * n0 + 1) % 0x1_0000_0000_0000_0000 == 0,
    ensures
        (x + m0 * u) % 0x1_0000_0000_0000_0000 == 0,
{
    let radix = 0x1_0000_0000_0000_0000int;
    let q1 = (x * n0) / radix;
    let q2 = (m0 * n0 + 1) / radix;
    vstd::arithmetic::div_mod::lemma_fundamental_div_mod(x * n0, radix);
    vstd::arithmetic::div_mod::lemma_fundamental_div_mod(m0 * n0 + 1, radix);
    assert(x + m0 * u == (x * q2 - m0 * q1) * radix + 0) by (nonlinear_arith)
        requires
            x * n0 == radix * q1 + u,
            m0 * n0 + 1 == radix * q2,
    ;
    lemma_div_mod_unique(x + m0 * u, radix, x * q2 - m0 * q1, 0);
}

/// Dropping the cleared low limb and putting the carries on top divides the
/// running total by the radix.
proof fn lemma_shifted_total(
    v0: int,
    v1: int,
    v2: int,
    s: int,
    c1: int,
    c2: int,
    overflow: int,
    top: int,
    overflow_out: int,
    wl: int,
    wn: int,
    ab: int,
    mu: int,
)
    requires
        wn == 0x1_0000_0000_0000_0000 * wl,
        v2 == 0x1_0000_0000_0000_0000 * s,
        top + overflow_out * 0x1_0000_0000_0000_0000 == c1 + c2 + overflow,
        v1 + c1 * wn == v0 + ab,
        v2 + c2 * wn == v1 + mu,
    ensures
        0x1_0000_0000_0000_0000 * (s + top * wl + overflow_out * wn) == (v0 + overflow * wn) + ab
            + mu,
{
    let radix = 0x1_0000_0000_0000_0000int;
    assert(radix * (s + top * wl + overflow_out * wn) == radix * s + (top + overflow_out * radix)
        * (radix * wl)) by (nonlinear_arith)
        requires
            wn == radix * wl,
    ;
    assert((c1 + c2 + overflow) * wn == c1 * wn + c2 * wn + overflow * wn) by (nonlinear_arith);
}

/// One round of the multiplication: the running total stays below `2 * m`,
/// and stays congruent to the part of the product taken in so far.
proof fn lemma_round(
    t0: int,
    a: int,
    bi: int,
    m: int,
    u: int,
    t3: int,
    wi: int,
    bvi: int,
    k: int,
)
    requires
        0x1_0000_0000_0000_0000 * t3 == t0 + a * bi + m * u,
        t0 * wi == a * bvi + k * m,
        0 <= t0 < 2 * m,
        0 <= a < m,
        0 <= bi < 0x1_0000_0000_0000_0000,
        0 <= u < 0x1_0000_0000_0000_0000,
    ensures
        t3 < 2 * m,
        t3 * (0x1_0000_0000_0000_0000 * wi) == a * (bvi + bi * wi) + (k + u * wi) * m,
{
    let radix = 0x1_0000_0000_0000_0000int;
    assert(a * bi <= (m - 1) * (radix - 1)) by (nonlinear_arith)
        requires
            0 <= a <= m - 1,
            0 <= bi <= radix - 1,
    ;
    assert(m * u <= m * (radix - 1)) by (nonlinear_arith)
        requires
            0 < m,
            0 <= u <= radix - 1,
    ;
    assert(t3 * (radix * wi) == (radix * t3) * wi) by (nonlinear_arith);
    assert((t0 + a * bi + m * u) * wi == t0 * wi + a * (bi * wi) + (u * wi) * m)
        by (nonlinear_arith);
    assert(a * (bvi + bi * wi) + (k + u * wi) * m == a * bvi + k * m + a * (bi * wi) + (u * wi)
        * m) by (nonlinear_arith);
}

/// The Montgomery product: `r = a * b / R mod m`, where `R` is the weight of
/// the limb above the top of `m`.
///
/// `n0` is the negated inverse of the lowest limb of `m` modulo the radix,
/// which exists for odd `m`.
pub fn limbs_mul_mont(r: &mut [Limb], a: &[Limb], b: &[Limb], m: &[Limb], n0: Limb)
    requires
        old(r)@.len() == a@.len(),
        a@.len() == b@.len(),
        b@.len() == m@.len(),
        m@.len() > 0,
        (m@[0] * n0 + 1) % 0x1_0000_0000_0000_0000 == 0,
        limbs_value(a@) < limbs_value(m@),
    ensures
        final(r)@.len() == old(r)@.len(),
        limbs_value(final(r)@) < limbs_value(m@),
        (limbs_value(final(r)@) * limb_weight(m@.len())) % limbs_value(m@) == (limbs_value(a@)
            * limbs_value(b@)) % limbs_value(m@),
{
    let n = a.len();
    limbs_clear(r);
    let mut overflow: Limb = 0;
    let ghost mut k: int = 0;
    let ghost av = limbs_value(a@) as int;
    let ghost mv = limbs_value(m@) as int;
    let ghost wn = limb_weight(n as nat) as int;
    proof {
        lemma_value_zero(r@);
        lemma_weight_step(0);
        lemma_weight_step(n as nat);
        assert(0 * wn == 0) by (nonlinear_arith);
        assert(0 * limb_weight(0) == 0) by (nonlinear_arith);
        assert(av * 0 + 0 * mv == 0) by (nonlinear_arith);
    }
    for i in 0..n
        invariant
            n == a@.len(),
            n == b@.len(),
            n == m@.len(),
            n == r@.len(),
            n > 0,
            av == limbs_value(a@),
            mv == limbs_value(m@),
            wn == limb_weight(n as nat),
            av < mv,
            (m@[0] * n0 + 1) % 0x1_0000_0000_0000_0000 == 0,
            overflow <= 1,
            limbs_value(r@) + overflow * wn < 2 * mv,
            (limbs_value(r@) + overflow * wn) * limb_weight(i as nat) == av * limbs_value(
                b@.take(i as int),
            ) + k * mv,
    {
        let ghost v0 = limbs_value(r@) as int;
        let ghost t0 = v0 + overflow * wn;
        let c1 = limbs_mul_add_limb(r, a, b[i]);
        let ghost v1 = limbs_value(r@) as int;
        let ghost x = r@[0] as int;
        let u = mul_low(r[0], n0);
        let c2 = limbs_mul_add_limb(r, m, u);
        let ghost v2 = limbs_value(r@) as int;
        let ghost cleared = r@;
        proof {
            lemma_low_limb_cleared(x, m@[0] as int, n0 as int, u as int);
            assert(cleared[0] == 0);
        }
        for j in 0..(n - 1)
            invariant
                n == r@.len(),
                n == cleared.len(),
                n > 0,
                forall|t: int| 0 <= t < j ==> r@[t] == cleared[t + 1],
                forall|t: int| j <= t < n ==> r@[t] == cleared[t],
        {
            r[j] = r[j + 1];
        }
        let (top, overflow_out) = add_with_carry(c1, c2, overflow);
        r[n - 1] = top;
        proof {
            let rest = cleared.skip(1);
            assert(r@ =~= rest.push(top));
            lemma_value_push(rest, top);
            let zero = seq![0u64];
            assert(cleared =~= zero + rest);
            lemma_value_concat(zero, rest);
            crate::limb_lemmas::lemma_value_single(0u64);
            lemma_weight_step((n - 1) as nat);
            let s = limbs_value(rest) as int;
            let wl = limb_weight((n - 1) as nat) as int;
            let v3 = limbs_value(r@) as int;
            let t3 = v3 + overflow_out * wn;
            lemma_shifted_total(
                v0,
                v1,
                v2,
                s,
                c1 as int,
                c2 as int,
                overflow as int,
                top as int,
                overflow_out as int,
                wl,
                wn,
                av * b@[i as int],
                mv * u,
            );
            lemma_value_take_step(b@, i as int);
            lemma_weight_step(i as nat);
            lemma_round(
                t0,
                av,
                b@[i as int] as int,
                mv,
                u as int,
                t3,
                limb_weight(i as nat) as int,
                limbs_value(b@.take(i as int)) as int,
                k,
            );
            k = k + u * limb_weight(i as nat);
            lemma_value_bound(m@);
            assert(overflow_out >= 2 ==> overflow_out * wn >= 2 * wn) by (nonlinear_arith)
                requires
                    wn > 0,
            ;
        }
        overflow = overflow_out;
    }
    let ghost total = limbs_value(r@) + overflow * wn;
    limbs_reduce_once(r, overflow, m);
    proof {
        lemma_value_take_all(b@);
        let bv = limbs_value(b@) as int;
        let rv = limbs_value(r@) as int;
        if total < mv {
            lemma_mod_of_sum_with_multiple(av * bv, k, mv);
        } else {
            assert(rv * wn == av * bv + (k - wn) * mv) by (nonlinear_arith)
                requires
                    rv == total - mv,
                    total * wn == av * bv + k * mv,
            ;
            lemma_mod_of_sum_with_multiple(av * bv, k - wn, mv);
        }
    }
}

} // verus!

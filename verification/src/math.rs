//! Arithmetic on natural numbers that the limb and field proofs share: powers
//! and the few facts about products and remainders that the solver needs to
//! be told.

use vstd::arithmetic::div_mod::{
    lemma_fundamental_div_mod_converse,
    lemma_mod_multiples_vanish,
    lemma_mul_mod_noop_general,
    lemma_small_mod,
};
use vstd::prelude::*;

verus! {

/// `b` to the power `e`.
pub open spec fn nat_pow(b: nat, e: nat) -> nat
    decreases e,
{
    if e == 0 {
        1
    } else {
        b * nat_pow(b, (e - 1) as nat)
    }
}

/// A power of a positive number is positive.
pub(crate) proof fn lemma_pow_positive(b: nat, e: nat)
    requires
        b > 0,
    ensures
        nat_pow(b, e) > 0,
    decreases e,
{
    if e > 0 {
        lemma_pow_positive(b, (e - 1) as nat);
        lemma_product_positive(b, nat_pow(b, (e - 1) as nat));
    }
}

/// Powers of one base multiply by adding their exponents.
pub(crate) proof fn lemma_pow_adds(b: nat, e1: nat, e2: nat)
    ensures
        nat_pow(b, e1 + e2) == nat_pow(b, e1) * nat_pow(b, e2),
    decreases e1,
{
    if e1 == 0 {
        assert(nat_pow(b, e1) == 1);
        assert(e1 + e2 == e2);
    } else {
        lemma_pow_adds(b, (e1 - 1) as nat, e2);
        let x = nat_pow(b, (e1 - 1) as nat);
        let y = nat_pow(b, e2);
        assert(nat_pow(b, e1 + e2) == b * nat_pow(b, (e1 + e2 - 1) as nat));
        assert((e1 + e2 - 1) as nat == ((e1 - 1) as nat) + e2);
        assert(b * (x * y) == (b * x) * y) by (nonlinear_arith);
    }
}

/// One more factor raises the exponent by one.
pub(crate) proof fn lemma_pow_step(b: nat, e: nat)
    ensures
        nat_pow(b, e + 1) == nat_pow(b, e) * b,
        nat_pow(b, e + 1) == b * nat_pow(b, e),
{
    assert(nat_pow(b, e + 1) == b * nat_pow(b, ((e + 1) - 1) as nat));
    assert(((e + 1) - 1) as nat == e);
    assert(b * nat_pow(b, e) == nat_pow(b, e) * b) by (nonlinear_arith);
}

/// Powers of a positive base do not fall as the exponent grows.
pub(crate) proof fn lemma_pow_monotonic(b: nat, e1: nat, e2: nat)
    requires
        b > 0,
        e1 <= e2,
    ensures
        nat_pow(b, e1) <= nat_pow(b, e2),
    decreases e2 - e1,
{
    if e1 < e2 {
        lemma_pow_monotonic(b, e1, (e2 - 1) as nat);
        lemma_pow_step(b, (e2 - 1) as nat);
        let x = nat_pow(b, (e2 - 1) as nat);
        assert(x <= b * x) by (nonlinear_arith)
            requires
                b > 0,
        ;
    }
}

/// A power of a power is the power to the product of the exponents.
pub(crate) proof fn lemma_pow_multiplies(b: nat, e1: nat, e2: nat)
    ensures
        nat_pow(nat_pow(b, e1), e2) == nat_pow(b, e1 * e2),
    decreases e2,
{
    if e2 == 0 {
        assert(e1 * e2 == 0) by (nonlinear_arith)
            requires
                e2 == 0,
        ;
    } else {
        lemma_pow_multiplies(b, e1, (e2 - 1) as nat);
        assert(e1 * e2 == e1 + e1 * ((e2 - 1) as nat)) by (nonlinear_arith)
            requires
                e2 > 0,
        ;
        lemma_pow_adds(b, e1, e1 * ((e2 - 1) as nat));
    }
}

/// A product of positive numbers is positive.
pub(crate) proof fn lemma_product_positive(x: nat, y: nat)
    by (nonlinear_arith)
    requires
        x > 0,
        y > 0,
    ensures
        x * y > 0,
{
}

/// A multiple of `w` plus something smaller than `w` in size has the sign of
/// the multiple, or that of the small part when the multiple is zero.
pub(crate) proof fn lemma_sign_of_scaled_sum(k: int, w: int, d: int)
    by (nonlinear_arith)
    requires
        w > 0,
        -w < d < w,
    ensures
        k * w + d < 0 <==> (k < 0 || (k == 0 && d < 0)),
        k * w + d == 0 <==> (k == 0 && d == 0),
{
}

/// Whether `x` and `y` leave the same remainder modulo `m`.
pub open spec fn congruent(x: int, y: int, m: int) -> bool {
    x % m == y % m
}

/// Sums and differences of congruent numbers are congruent.
pub(crate) proof fn lemma_congruent_sum(x1: int, x2: int, y1: int, y2: int, m: int)
    requires
        m > 0,
        congruent(x1, x2, m),
        congruent(y1, y2, m),
    ensures
        congruent(x1 + y1, x2 + y2, m),
        congruent(x1 - y1, x2 - y2, m),
{
    vstd::arithmetic::div_mod::lemma_add_mod_noop(x1, y1, m);
    vstd::arithmetic::div_mod::lemma_add_mod_noop(x2, y2, m);
    vstd::arithmetic::div_mod::lemma_sub_mod_noop(x1, y1, m);
    vstd::arithmetic::div_mod::lemma_sub_mod_noop(x2, y2, m);
}

/// Products of congruent numbers are congruent.
pub(crate) proof fn lemma_congruent_mul(x1: int, x2: int, y1: int, y2: int, m: int)
    requires
        m > 0,
        congruent(x1, x2, m),
        congruent(y1, y2, m),
    ensures
        congruent(x1 * y1, x2 * y2, m),
{
    lemma_mul_congruent(x1, x2, y1, y2, m);
}

/// A number is congruent to its remainder.
pub(crate) proof fn lemma_congruent_to_remainder(x: int, m: int)
    requires
        m > 0,
    ensures
        congruent(x % m, x, m),
        0 <= x % m < m,
{
    vstd::arithmetic::div_mod::lemma_mod_twice(x, m);
    vstd::arithmetic::div_mod::lemma_mod_bound(x, m);
}

/// `x` is congruent to `y` modulo `m` when they differ by a multiple of `m`.
pub(crate) proof fn lemma_mod_of_sum_with_multiple(x: int, k: int, m: int)
    requires
        m > 0,
    ensures
        (x + k * m) % m == x % m,
{
    assert(m * k + x == x + k * m) by (nonlinear_arith);
    lemma_mod_multiples_vanish(k, x, m);
}

/// The remainder of a product is that of the product of the remainders.
pub(crate) proof fn lemma_mul_mod(x: int, y: int, m: int)
    requires
        m > 0,
    ensures
        (x * y) % m == ((x % m) * (y % m)) % m,
        (x * y) % m == ((x % m) * y) % m,
        (x * y) % m == (x * (y % m)) % m,
{
    lemma_mul_mod_noop_general(x, y, m);
}

/// Congruent factors give congruent products.
pub(crate) proof fn lemma_mul_congruent(x1: int, x2: int, y1: int, y2: int, m: int)
    requires
        m > 0,
        x1 % m == x2 % m,
        y1 % m == y2 % m,
    ensures
        (x1 * y1) % m == (x2 * y2) % m,
{
    lemma_mul_mod(x1, y1, m);
    lemma_mul_mod(x2, y2, m);
}

/// A number below the modulus is its own remainder.
pub(crate) proof fn lemma_mod_small(x: nat, m: nat)
    requires
        x < m,
    ensures
        x % m == x,
{
    lemma_small_mod(x, m);
}

/// Quotient and remainder are the only pair that fits.
pub(crate) proof fn lemma_div_mod_unique(x: int, d: int, q: int, r: int)
    requires
        d > 0,
        0 <= r < d,
        x == q * d + r,
    ensures
        x / d == q,
        x % d == r,
{
    lemma_fundamental_div_mod_converse(x, d, q, r);
}

} // verus!

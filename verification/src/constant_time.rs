//! Word-level building blocks whose work does not depend on the values they
//! are given: carries, borrows, masks and selection.

use crate::limb::Limb;
use vstd::prelude::*;

verus! {

/// The mask with every bit set.
pub const MASK_TRUE: Limb = 0xffff_ffff_ffff_ffff;

/// The mask with no bit set.
pub const MASK_FALSE: Limb = 0;

/// The number of values that one limb can hold.
const RADIX: u128 = 0x1_0000_0000_0000_0000;

/// Whether `mask` is one of the two masks.
pub open spec fn is_mask(mask: Limb) -> bool {
    mask == MASK_TRUE || mask == MASK_FALSE
}

/// `a + b + carry`, as a limb and the carry out of it.
pub fn add_with_carry(a: Limb, b: Limb, carry: Limb) -> (r: (Limb, Limb))
    requires
        carry <= 1,
    ensures
        r.0 + r.1 * 0x1_0000_0000_0000_0000 == a + b + carry,
        r.1 <= 1,
{
    let wide: u128 = a as u128 + b as u128 + carry as u128;
    ((wide % RADIX) as Limb, (wide / RADIX) as Limb)
}

/// `a - b - borrow`, as a limb and the borrow out of it.
pub fn sub_with_borrow(a: Limb, b: Limb, borrow: Limb) -> (r: (Limb, Limb))
    requires
        borrow <= 1,
    ensures
        r.0 - r.1 * 0x1_0000_0000_0000_0000 == a - b - borrow,
        r.1 <= 1,
{
    let wide: u128 = RADIX + a as u128 - b as u128 - borrow as u128;
    ((wide % RADIX) as Limb, 1 - (wide / RADIX) as Limb)
}

/// `a * b + c + d`, as its low and its high limb. The sum always fits.
pub fn mul_add(a: Limb, b: Limb, c: Limb, d: Limb) -> (r: (Limb, Limb))
    ensures
        r.0 + r.1 * 0x1_0000_0000_0000_0000 == a * b + c + d,
{
    assert(a * b <= 0xffff_ffff_ffff_ffff * 0xffff_ffff_ffff_ffff) by (nonlinear_arith)
        requires
            a <= 0xffff_ffff_ffff_ffff,
            b <= 0xffff_ffff_ffff_ffff,
    ;
    let wide: u128 = a as u128 * b as u128 + c as u128 + d as u128;
    ((wide % RADIX) as Limb, (wide / RADIX) as Limb)
}

/// The low limb of `a * b`.
pub fn mul_low(a: Limb, b: Limb) -> (r: Limb)
    ensures
        r == (a * b) % 0x1_0000_0000_0000_0000,
{
    assert(a * b <= 0xffff_ffff_ffff_ffff * 0xffff_ffff_ffff_ffff) by (nonlinear_arith)
        requires
            a <= 0xffff_ffff_ffff_ffff,
            b <= 0xffff_ffff_ffff_ffff,
    ;
    let wide: u128 = a as u128 * b as u128;
    (wide % RADIX) as Limb
}

/// The mask for a truth value given as 1 or 0.
pub fn mask_from_bit(bit: Limb) -> (mask: Limb)
    requires
        bit <= 1,
    ensures
        mask == (if bit == 1 {
            MASK_TRUE
        } else {
            MASK_FALSE
        }),
{
    bit * MASK_TRUE
}

/// 1 if `a` is zero, else 0.
pub fn is_zero_bit(a: Limb) -> (bit: Limb)
    ensures
        bit == (if a == 0 {
            1u64
        } else {
            0u64
        }),
{
    let wide: u128 = a as u128 + MASK_TRUE as u128;
    1 - (wide / RADIX) as Limb
}

/// `a` where `mask` is set, `b` where it is not.
pub fn select(mask: Limb, a: Limb, b: Limb) -> (r: Limb)
    requires
        is_mask(mask),
    ensures
        r == (if mask == MASK_TRUE {
            a
        } else {
            b
        }),
{
    proof {
        lemma_select(mask, a, b);
    }
    (mask & a) | (!mask & b)
}

/// What `select` computes, for each of the two masks.
proof fn lemma_select(mask: Limb, a: Limb, b: Limb)
    by (bit_vector)
    ensures
        mask == 0xffff_ffff_ffff_ffffu64 ==> (mask & a) | (!mask & b) == a,
        mask == 0u64 ==> (mask & a) | (!mask & b) == b,
{
}

/// The bits set in `a` or in `b`; zero only if both are.
pub fn either(a: Limb, b: Limb) -> (r: Limb)
    ensures
        r == a | b,
        r == 0 <==> (a == 0 && b == 0),
{
    proof {
        lemma_either(a, b);
    }
    a | b
}

/// No bit is set in `a | b` only if none is set in `a` or in `b`.
proof fn lemma_either(a: Limb, b: Limb)
    by (bit_vector)
    ensures
        (a | b) == 0 <==> (a == 0 && b == 0),
{
}

/// The bits in which `a` and `b` differ; zero only if they are equal.
pub fn difference(a: Limb, b: Limb) -> (r: Limb)
    ensures
        r == a ^ b,
        r == 0 <==> a == b,
{
    proof {
        lemma_difference(a, b);
    }
    a ^ b
}

/// No bit is set in `a ^ b` only if `a` and `b` are equal.
proof fn lemma_difference(a: Limb, b: Limb)
    by (bit_vector)
    ensures
        (a ^ b) == 0 <==> a == b,
{
}

} // verus!

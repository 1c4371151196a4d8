//! Addition and subtraction of limb arrays, plain and modulo a modulus of the
//! same length. Every function visits every limb, whatever the limbs hold.

use crate::constant_time::{
    add_with_carry,
    is_mask,
    mask_from_bit,
    select,
    sub_with_borrow,
    MASK_TRUE,
};
use crate::limb::{limb_weight, limbs_value, Limb};
use crate::limb_lemmas::{
    lemma_value_bound,
    lemma_value_less_step,
    lemma_value_take_all,
    lemma_value_take_step,
    lemma_weight_step,
};
use vstd::prelude::*;

verus! {

/// One step of a carry chain, scaled by the weight `w` of the limb.
proof fn lemma_chain_step(low: int, x: int, carry_in: int, s: int, carry_out: int, w: int, total: int)
    by (nonlinear_arith)
    requires
        s + carry_out * 0x1_0000_0000_0000_0000 == x + carry_in,
        low + carry_in * w == total,
    ensures
        low + s * w + carry_out * (0x1_0000_0000_0000_0000 * w) == total + x * w,
{
}

/// `r = a + b`; returns the carry out of the top limb.
pub fn limbs_add(r: &mut [Limb], a: &[Limb], b: &[Limb]) -> (carry: Limb)
    requires
        old(r)@.len() == a@.len(),
        a@.len() == b@.len(),
    ensures
        final(r)@.len() == old(r)@.len(),
        carry <= 1,
        limbs_value(final(r)@) + carry * limb_weight(a@.len()) == limbs_value(a@) + limbs_value(
            b@,
        ),
{
    let n = a.len();
    let mut carry: Limb = 0;
    proof {
        assert(0 * limb_weight(0) == 0) by (nonlinear_arith);
    }
    for i in 0..n
        invariant
            n == a@.len(),
            n == b@.len(),
            n == r@.len(),
            carry <= 1,
            limbs_value(r@.take(i as int)) + carry * limb_weight(i as nat) == limbs_value(
                a@.take(i as int),
            ) + limbs_value(b@.take(i as int)),
    {
        let ghost before = r@;
        let (s, carry_out) = add_with_carry(a[i], b[i], carry);
        r[i] = s;
        proof {
            assert(r@.take(i as int) =~= before.take(i as int));
            lemma_value_take_step(r@, i as int);
            lemma_value_take_step(a@, i as int);
            lemma_value_take_step(b@, i as int);
            lemma_weight_step(i as nat);
            let w = limb_weight(i as nat) as int;
            lemma_chain_step(
                limbs_value(before.take(i as int)) as int,
                a@[i as int] + b@[i as int],
                carry as int,
                s as int,
                carry_out as int,
                w,
                (limbs_value(a@.take(i as int)) + limbs_value(b@.take(i as int))) as int,
            );
            assert((a@[i as int] + b@[i as int]) * w == a@[i as int] * w + b@[i as int] * w)
                by (nonlinear_arith);
        }
        carry = carry_out;
    }
    proof {
        lemma_value_take_all(r@);
        lemma_value_take_all(a@);
        lemma_value_take_all(b@);
    }
    carry
}

/// One step of a borrow chain, scaled by the weight `w` of the limb.
proof fn lemma_borrow_step(
    low: int,
    x: int,
    borrow_in: int,
    d: int,
    borrow_out: int,
    w: int,
    total: int,
)
    by (nonlinear_arith)
    requires
        d - borrow_out * 0x1_0000_0000_0000_0000 == x - borrow_in,
        low - borrow_in * w == total,
    ensures
        low + d * w - borrow_out * (0x1_0000_0000_0000_0000 * w) == total + x * w,
{
}

/// `r = a - b`; returns the borrow out of the top limb.
pub fn limbs_sub(r: &mut [Limb], a: &[Limb], b: &[Limb]) -> (borrow: Limb)
    requires
        old(r)@.len() == a@.len(),
        a@.len() == b@.len(),
    ensures
        final(r)@.len() == old(r)@.len(),
        borrow <= 1,
        limbs_value(final(r)@) - borrow * limb_weight(a@.len()) == limbs_value(a@) - limbs_value(
            b@,
        ),
        borrow == 1 <==> limbs_value(a@) < limbs_value(b@),
{
    let n = a.len();
    let mut borrow: Limb = 0;
    proof {
        assert(0 * limb_weight(0) == 0) by (nonlinear_arith);
    }
    for i in 0..n
        invariant
            n == a@.len(),
            n == b@.len(),
            n == r@.len(),
            borrow <= 1,
            limbs_value(r@.take(i as int)) - borrow * limb_weight(i as nat) == limbs_value(
                a@.take(i as int),
            ) - limbs_value(b@.take(i as int)),
    {
        let ghost before = r@;
        let (d, borrow_out) = sub_with_borrow(a[i], b[i], borrow);
        r[i] = d;
        proof {
            assert(r@.take(i as int) =~= before.take(i as int));
            lemma_value_take_step(r@, i as int);
            lemma_value_take_step(a@, i as int);
            lemma_value_take_step(b@, i as int);
            lemma_weight_step(i as nat);
            let w = limb_weight(i as nat) as int;
            lemma_borrow_step(
                limbs_value(before.take(i as int)) as int,
                a@[i as int] - b@[i as int],
                borrow as int,
                d as int,
                borrow_out as int,
                w,
                limbs_value(a@.take(i as int)) - limbs_value(b@.take(i as int)),
            );
            assert((a@[i as int] - b@[i as int]) * w == a@[i as int] * w - b@[i as int] * w)
                by (nonlinear_arith);
        }
        borrow = borrow_out;
    }
    proof {
        lemma_value_take_all(r@);
        lemma_value_take_all(a@);
        lemma_value_take_all(b@);
        lemma_value_bound(r@);
        lemma_weight_step(n as nat);
        assert(1 * limb_weight(n as nat) == limb_weight(n as nat)) by (nonlinear_arith);
        assert(0 * limb_weight(n as nat) == 0) by (nonlinear_arith);
    }
    borrow
}

/// Subtracts `b` from `r` where `mask` is set and leaves `r` as it is where
/// it is not; returns the borrow out of the top limb.
pub fn limbs_sub_where(r: &mut [Limb], b: &[Limb], mask: Limb) -> (borrow: Limb)
    requires
        old(r)@.len() == b@.len(),
        is_mask(mask),
    ensures
        final(r)@.len() == old(r)@.len(),
        borrow <= 1,
        mask == MASK_TRUE ==> limbs_value(final(r)@) - borrow * limb_weight(b@.len())
            == limbs_value(old(r)@) - limbs_value(b@),
        mask != MASK_TRUE ==> final(r)@ == old(r)@ && borrow == 0,
{
    let n = b.len();
    let mut borrow: Limb = 0;
    proof {
        assert(0 * limb_weight(0) == 0) by (nonlinear_arith);
    }
    for i in 0..n
        invariant
            n == b@.len(),
            n == r@.len(),
            n == old(r)@.len(),
            is_mask(mask),
            borrow <= 1,
            forall|j: int| i <= j < n ==> r@[j] == old(r)@[j],
            mask == MASK_TRUE ==> limbs_value(r@.take(i as int)) - borrow * limb_weight(i as nat)
                == limbs_value(old(r)@.take(i as int)) - limbs_value(b@.take(i as int)),
            mask != MASK_TRUE ==> r@ == old(r)@ && borrow == 0,
    {
        let ghost before = r@;
        let subtrahend = select(mask, b[i], 0);
        let (d, borrow_out) = sub_with_borrow(r[i], subtrahend, borrow);
        r[i] = d;
        proof {
            if mask == MASK_TRUE {
                assert(r@.take(i as int) =~= before.take(i as int));
                lemma_value_take_step(r@, i as int);
                lemma_value_take_step(old(r)@, i as int);
                lemma_value_take_step(b@, i as int);
                lemma_weight_step(i as nat);
                let w = limb_weight(i as nat) as int;
                lemma_borrow_step(
                    limbs_value(before.take(i as int)) as int,
                    old(r)@[i as int] - b@[i as int],
                    borrow as int,
                    d as int,
                    borrow_out as int,
                    w,
                    limbs_value(old(r)@.take(i as int)) - limbs_value(b@.take(i as int)),
                );
                let x = old(r)@[i as int] as int;
                let y = b@[i as int] as int;
                assert((x - y) * w == x * w - y * w) by (nonlinear_arith);
            } else {
                assert(r@ =~= old(r)@);
            }
        }
        borrow = borrow_out;
    }
    proof {
        lemma_value_take_all(r@);
        lemma_value_take_all(old(r)@);
        lemma_value_take_all(b@);
    }
    borrow
}

/// Adds `b` to `r` where `mask` is set and leaves `r` as it is where it is
/// not; returns the carry out of the top limb.
pub fn limbs_add_where(r: &mut [Limb], b: &[Limb], mask: Limb) -> (carry: Limb)
    requires
        old(r)@.len() == b@.len(),
        is_mask(mask),
    ensures
        final(r)@.len() == old(r)@.len(),
        carry <= 1,
        mask == MASK_TRUE ==> limbs_value(final(r)@) + carry * limb_weight(b@.len())
            == limbs_value(old(r)@) + limbs_value(b@),
        mask != MASK_TRUE ==> final(r)@ == old(r)@ && carry == 0,
{
    let n = b.len();
    let mut carry: Limb = 0;
    proof {
        assert(0 * limb_weight(0) == 0) by (nonlinear_arith);
    }
    for i in 0..n
        invariant
            n == b@.len(),
            n == r@.len(),
            n == old(r)@.len(),
            is_mask(mask),
            carry <= 1,
            forall|j: int| i <= j < n ==> r@[j] == old(r)@[j],
            mask == MASK_TRUE ==> limbs_value(r@.take(i as int)) + carry * limb_weight(i as nat)
                == limbs_value(old(r)@.take(i as int)) + limbs_value(b@.take(i as int)),
            mask != MASK_TRUE ==> r@ == old(r)@ && carry == 0,
    {
        let ghost before = r@;
        let addend = select(mask, b[i], 0);
        let (s, carry_out) = add_with_carry(r[i], addend, carry);
        r[i] = s;
        proof {
            if mask == MASK_TRUE {
                assert(r@.take(i as int) =~= before.take(i as int));
                lemma_value_take_step(r@, i as int);
                lemma_value_take_step(old(r)@, i as int);
                lemma_value_take_step(b@, i as int);
                lemma_weight_step(i as nat);
                let w = limb_weight(i as nat) as int;
                lemma_chain_step(
                    limbs_value(before.take(i as int)) as int,
                    old(r)@[i as int] + b@[i as int],
                    carry as int,
                    s as int,
                    carry_out as int,
                    w,
                    (limbs_value(old(r)@.take(i as int)) + limbs_value(b@.take(i as int))) as int,
                );
                let x = old(r)@[i as int] as int;
                let y = b@[i as int] as int;
                assert((x + y) * w == x * w + y * w) by (nonlinear_arith);
            } else {
                assert(r@ =~= old(r)@);
            }
        }
        carry = carry_out;
    }
    proof {
        lemma_value_take_all(r@);
        lemma_value_take_all(old(r)@);
        lemma_value_take_all(b@);
    }
    carry
}

/// 1 if `a` is less than `b` as a number, else 0.
pub fn limbs_less_than_bit(a: &[Limb], b: &[Limb]) -> (bit: Limb)
    requires
        a@.len() == b@.len(),
    ensures
        bit <= 1,
        bit == 1 <==> limbs_value(a@) < limbs_value(b@),
{
    let n = a.len();
    let mut borrow: Limb = 0;
    for i in 0..n
        invariant
            n == a@.len(),
            n == b@.len(),
            borrow <= 1,
            borrow == 1 <==> limbs_value(a@.take(i as int)) < limbs_value(b@.take(i as int)),
    {
        proof {
            lemma_value_less_step(a@, b@, i as int);
        }
        let (_, borrow_out) = sub_with_borrow(a[i], b[i], borrow);
        borrow = borrow_out;
    }
    proof {
        lemma_value_take_all(a@);
        lemma_value_take_all(b@);
    }
    borrow
}

/// Brings `r`, a number below twice `m` whose limb above the top is
/// `overflow`, into the range below `m` by subtracting `m` at most once.
pub fn limbs_reduce_once(r: &mut [Limb], overflow: Limb, m: &[Limb])
    requires
        old(r)@.len() == m@.len(),
        overflow <= 1,
        limbs_value(old(r)@) + overflow * limb_weight(m@.len()) < 2 * limbs_value(m@),
    ensures
        final(r)@.len() == old(r)@.len(),
        limbs_value(final(r)@) < limbs_value(m@),
        limbs_value(final(r)@) == (if limbs_value(old(r)@) + overflow * limb_weight(m@.len())
            < limbs_value(m@) {
            limbs_value(old(r)@) + overflow * limb_weight(m@.len())
        } else {
            limbs_value(old(r)@) + overflow * limb_weight(m@.len()) - limbs_value(m@)
        }),
{
    let below = limbs_less_than_bit(r, m);
    // Subtract unless the number is already below `m`: that is, where the
    // limb above the top is set or the limbs alone reach `m`.
    let reduce = select(mask_from_bit(overflow), 1, 1 - below);
    proof {
        let w = limb_weight(m@.len());
        lemma_value_bound(r@);
        lemma_value_bound(m@);
        lemma_weight_step(m@.len());
        assert(1 * w == w) by (nonlinear_arith);
        assert(0 * w == 0) by (nonlinear_arith);
        assert(overflow == 0 || overflow == 1);
    }
    let mask = mask_from_bit(reduce);
    let borrow = limbs_sub_where(r, m, mask);
    proof {
        let w = limb_weight(m@.len());
        lemma_value_bound(r@);
        assert(1 * w == w) by (nonlinear_arith);
        assert(0 * w == 0) by (nonlinear_arith);
        assert(borrow == 0 || borrow == 1);
    }
}

/// `r = (a + b) mod m`, for `a` and `b` below `m`.
pub fn limbs_add_mod(r: &mut [Limb], a: &[Limb], b: &[Limb], m: &[Limb])
    requires
        old(r)@.len() == a@.len(),
        a@.len() == b@.len(),
        b@.len() == m@.len(),
        limbs_value(a@) < limbs_value(m@),
        limbs_value(b@) < limbs_value(m@),
    ensures
        final(r)@.len() == old(r)@.len(),
        limbs_value(final(r)@) == (limbs_value(a@) + limbs_value(b@)) % limbs_value(m@),
{
    let carry = limbs_add(r, a, b);
    limbs_reduce_once(r, carry, m);
    proof {
        let sum = (limbs_value(a@) + limbs_value(b@)) as int;
        let mv = limbs_value(m@) as int;
        if sum < mv {
            crate::math::lemma_div_mod_unique(sum, mv, 0, sum);
        } else {
            crate::math::lemma_div_mod_unique(sum, mv, 1, sum - mv);
        }
    }
}

/// `r = (a - b) mod m`, for `a` and `b` below `m`.
pub fn limbs_sub_mod(r: &mut [Limb], a: &[Limb], b: &[Limb], m: &[Limb])
    requires
        old(r)@.len() == a@.len(),
        a@.len() == b@.len(),
        b@.len() == m@.len(),
        limbs_value(a@) < limbs_value(m@),
        limbs_value(b@) < limbs_value(m@),
    ensures
        final(r)@.len() == old(r)@.len(),
        limbs_value(final(r)@) == (limbs_value(a@) - limbs_value(b@)) % (limbs_value(m@) as int),
{
    let borrow = limbs_sub(r, a, b);
    let mask = mask_from_bit(borrow);
    let ghost mid = r@;
    let carry = limbs_add_where(r, m, mask);
    proof {
        let w = limb_weight(m@.len());
        let diff = limbs_value(a@) - limbs_value(b@);
        let mv = limbs_value(m@) as int;
        lemma_value_bound(r@);
        lemma_value_bound(mid);
        lemma_value_bound(m@);
        assert(1 * w == w) by (nonlinear_arith);
        assert(0 * w == 0) by (nonlinear_arith);
        assert(carry == 0 || carry == 1);
        if diff < 0 {
            crate::math::lemma_div_mod_unique(diff, mv, -1, diff + mv);
        } else {
            crate::math::lemma_div_mod_unique(diff, mv, 0, diff);
        }
    }
}

/// Copies `a` into `r` where `mask` is set and leaves `r` as it is where it
/// is not.
pub fn limbs_copy_where(r: &mut [Limb], a: &[Limb], mask: Limb)
    requires
        old(r)@.len() == a@.len(),
        is_mask(mask),
    ensures
        final(r)@ == (if mask == MASK_TRUE {
            a@
        } else {
            old(r)@
        }),
{
    let n = a.len();
    for i in 0..n
        invariant
            n == a@.len(),
            n == r@.len(),
            n == old(r)@.len(),
            is_mask(mask),
            forall|j: int| i <= j < n ==> r@[j] == old(r)@[j],
            forall|j: int|
                0 <= j < i ==> r@[j] == (if mask == MASK_TRUE {
                    a@[j]
                } else {
                    old(r)@[j]
                }),
    {
        r[i] = select(mask, a[i], r[i]);
    }
    proof {
        if mask == MASK_TRUE {
            assert(r@ =~= a@);
        } else {
            assert(r@ =~= old(r)@);
        }
    }
}

} // verus!

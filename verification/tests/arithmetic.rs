use suite_b::arithmetic::modular::{
    limbs_add, limbs_add_mod, limbs_add_where, limbs_copy_where, limbs_reduce_once, limbs_sub,
    limbs_sub_mod, limbs_sub_where,
};
use suite_b::arithmetic::montgomery::{limbs_mul_add_limb, limbs_mul_mont};
use suite_b::constant_time::{
    add_with_carry, difference, either, is_zero_bit, mask_from_bit, mul_add, mul_low, select,
    sub_with_borrow, MASK_FALSE, MASK_TRUE,
};
use suite_b::limb::Limb;

#[test]
fn carry_and_borrow_of_single_limbs() {
    assert_eq!(add_with_carry(u64::MAX, 0, 1), (0, 1));
    assert_eq!(add_with_carry(u64::MAX, u64::MAX, 1), (u64::MAX, 1));
    assert_eq!(add_with_carry(1, 2, 0), (3, 0));
    assert_eq!(sub_with_borrow(0, 0, 1), (u64::MAX, 1));
    assert_eq!(sub_with_borrow(0, u64::MAX, 1), (0, 1));
    assert_eq!(sub_with_borrow(5, 3, 1), (1, 0));
}

#[test]
fn multiply_and_add_never_overflows() {
    assert_eq!(mul_add(u64::MAX, u64::MAX, u64::MAX, u64::MAX), (u64::MAX, u64::MAX));
    assert_eq!(mul_add(3, 4, 5, 6), (23, 0));
    assert_eq!(mul_low(1 << 63, 2), 0);
    assert_eq!(mul_low(3, 5), 15);
}

#[test]
fn masks_and_selection() {
    assert_eq!(mask_from_bit(1), MASK_TRUE);
    assert_eq!(mask_from_bit(0), MASK_FALSE);
    assert_eq!(is_zero_bit(0), 1);
    assert_eq!(is_zero_bit(1), 0);
    assert_eq!(is_zero_bit(u64::MAX), 0);
    assert_eq!(select(MASK_TRUE, 3, 4), 3);
    assert_eq!(select(MASK_FALSE, 3, 4), 4);
    assert_eq!(either(0, 0), 0);
    assert_eq!(either(2, 1), 3);
    assert_eq!(difference(9, 9), 0);
    assert_ne!(difference(9, 8), 0);
}

#[test]
fn add_carries_through_limbs() {
    let mut r = [0 as Limb; 2];
    assert_eq!(limbs_add(&mut r, &[u64::MAX, 0], &[1, 0]), 0);
    assert_eq!(r, [0, 1]);
    assert_eq!(limbs_add(&mut r, &[u64::MAX, u64::MAX], &[1, 0]), 1);
    assert_eq!(r, [0, 0]);
}

#[test]
fn sub_borrows_through_limbs() {
    let mut r = [0 as Limb; 2];
    assert_eq!(limbs_sub(&mut r, &[0, 1], &[1, 0]), 0);
    assert_eq!(r, [u64::MAX, 0]);
    assert_eq!(limbs_sub(&mut r, &[0, 0], &[1, 0]), 1);
    assert_eq!(r, [u64::MAX, u64::MAX]);
}

#[test]
fn masked_operations_do_nothing_without_the_mask() {
    let mut r = [5 as Limb, 6];
    assert_eq!(limbs_sub_where(&mut r, &[1, 1], MASK_FALSE), 0);
    assert_eq!(r, [5, 6]);
    assert_eq!(limbs_add_where(&mut r, &[1, 1], MASK_FALSE), 0);
    assert_eq!(r, [5, 6]);
    limbs_copy_where(&mut r, &[1, 1], MASK_FALSE);
    assert_eq!(r, [5, 6]);
    assert_eq!(limbs_sub_where(&mut r, &[6, 1], MASK_TRUE), 0);
    assert_eq!(r, [u64::MAX, 4]);
    assert_eq!(limbs_add_where(&mut r, &[6, 1], MASK_TRUE), 0);
    assert_eq!(r, [5, 6]);
    limbs_copy_where(&mut r, &[1, 1], MASK_TRUE);
    assert_eq!(r, [1, 1]);
}

#[test]
fn reduce_once_subtracts_only_when_needed() {
    let m = [7 as Limb, 1];
    let mut r = [6 as Limb, 1];
    limbs_reduce_once(&mut r, 0, &m);
    assert_eq!(r, [6, 1]);
    let mut r = [7 as Limb, 1];
    limbs_reduce_once(&mut r, 0, &m);
    assert_eq!(r, [0, 0]);
    let mut r = [9 as Limb, 1];
    limbs_reduce_once(&mut r, 0, &m);
    assert_eq!(r, [2, 0]);
    // 2^64 + 3 below two times 2^64 - 1
    let m = [u64::MAX];
    let mut r = [3 as Limb];
    limbs_reduce_once(&mut r, 1, &m);
    assert_eq!(r, [4]);
}

#[test]
fn add_and_sub_modulo_a_small_modulus() {
    let m = [97 as Limb];
    for a in 0..97u64 {
        for b in [0u64, 1, 50, 96] {
            let mut r = [0 as Limb];
            limbs_add_mod(&mut r, &[a], &[b], &m);
            assert_eq!(r[0], (a + b) % 97);
            limbs_sub_mod(&mut r, &[a], &[b], &m);
            assert_eq!(r[0], (a + 97 - b) % 97);
        }
    }
}

#[test]
fn add_modulo_a_modulus_that_fills_its_limbs() {
    let m = [u64::MAX - 58, u64::MAX];
    let a = [u64::MAX - 59, u64::MAX];
    let mut r = [0 as Limb; 2];
    limbs_add_mod(&mut r, &a, &a, &m);
    assert_eq!(r, [u64::MAX - 60, u64::MAX]);
    limbs_sub_mod(&mut r, &[0, 0], &[1, 0], &m);
    assert_eq!(r, [u64::MAX - 59, u64::MAX]);
}

#[test]
fn multiply_and_add_a_limb() {
    let mut r = [1 as Limb, 2];
    let carry = limbs_mul_add_limb(&mut r, &[u64::MAX, u64::MAX], 2);
    // (2^128 - 1) * 2 + (2^65 + 1) = 2^129 + 2^65 - 1
    assert_eq!(r, [u64::MAX, 1]);
    assert_eq!(carry, 2);
}

fn negated_inverse(m0: u64) -> u64 {
    // Newton's iteration for the inverse modulo 2^64.
    let mut inverse: u64 = 1;
    for _ in 0..6 {
        inverse = inverse.wrapping_mul(2u64.wrapping_sub(m0.wrapping_mul(inverse)));
    }
    inverse.wrapping_neg()
}

#[test]
fn montgomery_product_of_one_limb() {
    let m: u64 = 0xffff_ffff_0000_0001;
    let n0 = negated_inverse(m);
    assert_eq!(m.wrapping_mul(n0).wrapping_add(1), 0);
    let samples = [0u64, 1, 2, 0x1234_5678_9abc_def0, m - 1, m - 2, 0xffff_ffff];
    for &a in &samples {
        for &b in &samples {
            let mut r = [0 as Limb];
            limbs_mul_mont(&mut r, &[a], &[b], &[m], n0);
            assert!(r[0] < m);
            // r * 2^64 = a * b modulo m
            let lhs = ((r[0] as u128) << 64) % (m as u128);
            let rhs = (a as u128 * b as u128) % (m as u128);
            assert_eq!(lhs, rhs);
        }
    }
}

#[test]
fn montgomery_product_by_r_is_the_identity() {
    // modulus 2^128 - 159, R = 2^128, R mod m = 159
    let m = [u64::MAX - 158, u64::MAX];
    let n0 = negated_inverse(m[0]);
    let r_mod_m = [159 as Limb, 0];
    let a = [0x0123_4567_89ab_cdef, 0x0fed_cba9_8765_4321];
    let mut r = [0 as Limb; 2];
    limbs_mul_mont(&mut r, &a, &r_mod_m, &m, n0);
    assert_eq!(r, a);
}

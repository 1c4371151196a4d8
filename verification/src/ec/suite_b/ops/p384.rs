//! The tables of the curve P-384.

use crate::arithmetic::montgomery::{lemma_decoded_encoded, R};
use crate::ec::suite_b::ops::elem::MAX_LIMBS;
use crate::ec::suite_b::ops::jacobian::{
    field_pow,
    is_on_curve,
    lemma_field_pow_adds,
    lemma_field_pow_one,
    lemma_field_pow_square_multiply,
};
use crate::ec::suite_b::ops::{
    elem_sqr_mul,
    elem_sqr_mul_acc,
    CommonOps,
    Elem,
    Modulus,
    PrivateKeyOps,
    PrivateScalarOps,
    PublicKeyOps,
    PublicScalarOps,
    ScalarOps,
};
use crate::limb::{limbs_value, Limb, LIMB_BITS};
use crate::limb_lemmas::lemma_value_of_six;
use crate::math::{lemma_div_mod_unique, lemma_pow_adds, nat_pow};
use core::marker::PhantomData;
use vstd::prelude::*;

verus! {

/// The field prime of P-384: `2^384 - 2^128 - 2^96 + 2^32 - 1`.
pub open spec fn p384_q() -> nat {
    0xffffffff_ffffffff_ffffffff_ffffffff_ffffffff_ffffffff_ffffffff_fffffffe_ffffffff_00000000_00000000_ffffffffnat
}

/// The order of the group of P-384.
pub open spec fn p384_n() -> nat {
    0xffffffff_ffffffff_ffffffff_ffffffff_ffffffff_ffffffff_c7634d81_f4372ddf_581a0db2_48b0a77a_ecec196a_ccc52973nat
}

/// The coefficient `b` of P-384.
pub open spec fn p384_b() -> nat {
    0xb3312fa7_e23ee7e4_988e056b_e3f82d19_181d9c6e_fe814112_0314088f_5013875a_c656398d_8a2ed19d_2a85c8ed_d3ec2aefnat
}

/// The affine X coordinate of the generator of P-384.
pub open spec fn p384_generator_x() -> nat {
    0xaa87ca22_be8b0537_8eb1c71e_f320ad74_6e1d3b62_8ba79b98_59f741e0_82542a38_5502f25d_bf55296c_3a545e38_72760ab7nat
}

/// The affine Y coordinate of the generator of P-384.
pub open spec fn p384_generator_y() -> nat {
    0x3617de4a_96262c6f_5d9e98bf_9292dc29_f8f41dbd_289a147c_e9da3113_b5f0b8c0_0a60b1ce_1d7e819d_7a431d7c_90ea0e5fnat
}

/// The generator of P-384 satisfies the curve equation.
pub proof fn p384_generator_is_on_curve()
    ensures
        is_on_curve(p384_generator_x(), p384_generator_y(), p384_b(), p384_q()),
{
    let q = p384_q() as int;
    let x = p384_generator_x() as int;
    let y = p384_generator_y() as int;
    let yy =
        0xdda3f84d36cf26f1e1d86567d28802d3bc27d9e01dd940b9c2701ace3fc91bf708dff93308d2ee64526d1dda240d560eint;
    let xx =
        0x46af925fa51ac496728217df5bc7c1fc3353aca34a380e1ffd8419fe7b13f6a92e8614fee38a288e2222412aca8b019int;
    let t =
        0x46af925fa51ac496728217df5bc7c1fc3353aca34a380e1ffd8419fe7b13f6a92e8614fee38a288e2222412aca8b016int;
    let u =
        0x2a72c8a554903f0d494a5ffbee8fd5baa40a3d711f57ffa7bf5c123eefb5949c4289bfa57ea41cc727e754ec50212b1fint;
    lemma_div_mod_unique(
        y * y,
        q,
        0xb6e140129c487c052b553752f5afaf3663c57ceb12c94101690de08a71a45d4f4e0bdfe11437eac823e5475fd92cecdint,
        yy,
    );
    lemma_div_mod_unique(
        x * x,
        q,
        0x7198a07cf55072f7d9185324b5419eff77a9c6831cfed18efad243bcfaa857d93c85228796f0789fc6db9951cf81e148int,
        xx,
    );
    lemma_div_mod_unique(xx + (q - 3), q, 1, t);
    lemma_div_mod_unique(
        t * x,
        q,
        0x2f161599d581720cdb80e69173508d0adf87d1db065fd5ca4c9f687afd7ee04e3915a9767b9a9871857f33e56866f65int,
        u,
    );
    lemma_div_mod_unique(u + p384_b(), q, 0, yy);
}

/// An element from its limbs.
fn elem_from_limbs<M, E: crate::arithmetic::montgomery::Encoding>(limbs: [Limb; MAX_LIMBS]) -> (r:
    crate::ec::suite_b::ops::elem::Elem<M, E>)
    ensures
        r.limbs == limbs,
{
    crate::ec::suite_b::ops::elem::Elem { limbs, m: PhantomData, encoding: PhantomData }
}

/// That `stored` is `v * R` modulo the prime of P-384, with quotient `k`:
/// then an element that stores it in Montgomery form stands for `v`.
proof fn lemma_encoded(ops: &CommonOps, limbs: Seq<Limb>, v: nat, k: nat)
    requires
        ops.num_limbs == 6,
        ops.q_value() == p384_q(),
        ops.q_value() > 1,
        (ops.r_value() * ops.q_r_inverse()) % ops.q_value() == 1,
        limbs.len() == 6,
        v < p384_q(),
        limbs_value(limbs) < p384_q(),
        v
            * 0x1_0000_0000_0000_0000_0000_0000_0000_0000_0000_0000_0000_0000_0000_0000_0000_0000_0000_0000_0000_0000_0000_0000_0000_0000nat
            == k * p384_q() + limbs_value(limbs),
    ensures
        crate::arithmetic::montgomery::decoded(
            limbs_value(limbs),
            1,
            ops.q_value(),
            ops.q_r_inverse(),
        ) == v,
{
    lemma_value_of_six(limbs);
    let big_r = ops.r_value();
    crate::math::lemma_pow_step(big_r, 0);
    assert(nat_pow(big_r, 0) == 1);
    assert(nat_pow(big_r, 1) == big_r) by (nonlinear_arith)
        requires
            nat_pow(big_r, 1) == big_r * nat_pow(big_r, 0),
            nat_pow(big_r, 0) == 1,
    ;
    lemma_div_mod_unique(
        (v * big_r) as int,
        p384_q() as int,
        k as int,
        limbs_value(limbs) as int,
    );
    lemma_decoded_encoded(v, 1, ops.q_value(), big_r, ops.q_r_inverse());
    crate::math::lemma_mod_small(v, p384_q());
}

/// The constants of P-384.
pub fn common_ops() -> (ops: CommonOps)
    ensures
        ops.wf(),
        ops.num_limbs == 6,
        ops.q_value() == p384_q(),
        ops.n_value() == p384_n(),
        ops.b.value(&ops) == p384_b(),
{
    let ops = CommonOps {
        num_limbs: 384 / LIMB_BITS,
        q: Modulus {
            p: [
                0x00000000ffffffff,
                0xffffffff00000000,
                0xfffffffffffffffe,
                0xffffffffffffffff,
                0xffffffffffffffff,
                0xffffffffffffffff,
            ],
            rr: [
                0xfffffffe00000001,
                0x0000000200000000,
                0xfffffffe00000000,
                0x0000000200000000,
                0x0000000000000001,
                0x0000000000000000,
            ],
            n0: 0x0000000100000001,
        },
        n: elem_from_limbs(
            [
                0xecec196accc52973,
                0x581a0db248b0a77a,
                0xc7634d81f4372ddf,
                0xffffffffffffffff,
                0xffffffffffffffff,
                0xffffffffffffffff,
            ],
        ),
        a: elem_from_limbs(
            [
                0x00000003fffffffc,
                0xfffffffc00000000,
                0xfffffffffffffffb,
                0xffffffffffffffff,
                0xffffffffffffffff,
                0xffffffffffffffff,
            ],
        ),
        b: elem_from_limbs(
            [
                0x081188719d412dcc,
                0xf729add87a4c32ec,
                0x77f2209b1920022e,
                0xe3374bee94938ae2,
                0xb62b21f41f022094,
                0xcd08114b604fbff9,
            ],
        ),
    };
    proof {
        assert(ops.q.p@.take(6) =~= ops.q.p@);
        assert(ops.q.rr@.take(6) =~= ops.q.rr@);
        assert(ops.n.limbs@.take(6) =~= ops.n.limbs@);
        assert(ops.a.limbs@.take(6) =~= ops.a.limbs@);
        assert(ops.b.limbs@.take(6) =~= ops.b.limbs@);
        lemma_value_of_six(ops.q.p@);
        lemma_value_of_six(ops.q.rr@);
        lemma_value_of_six(ops.n.limbs@);
        lemma_value_of_six(ops.a.limbs@);
        lemma_value_of_six(ops.b.limbs@);
        assert(ops.q_value() == p384_q());
        assert(ops.n_value() == p384_n());
        let big_r = ops.r_value();
        assert(big_r * big_r
            == 0x1_00000000_00000000_00000000_00000000_00000000_00000000_00000000_00000000_00000000_00000000_00000000_00000000_00000000_00000000_00000000_00000000_00000000_00000000_00000000_00000000_00000000_00000000_00000000_00000000nat)
            by (nonlinear_arith)
            requires
                big_r
                    == 0x1_0000_0000_0000_0000_0000_0000_0000_0000_0000_0000_0000_0000_0000_0000_0000_0000_0000_0000_0000_0000_0000_0000_0000_0000nat,
        ;
        lemma_div_mod_unique(
            (big_r * big_r) as int,
            p384_q() as int,
            0x1000000000000000000000000000000000000000000000000000000000000000100000000ffffffffffffffff00000001int,
            limbs_value(ops.q.rr@) as int,
        );
        assert((ops.q.p@[0] * ops.q.n0 + 1) % 0x1_0000_0000_0000_0000 == 0);
        crate::arithmetic::montgomery::lemma_r_inverse(p384_q(), ops.q.n0 as nat, 6);
        lemma_encoded(
            &ops,
            ops.a.limbs@,
            (p384_q() - 3) as nat,
            0xfffffffffffffffffffffffffffffffffffffffffffffffffffffffffffffffffffffffffffffffffffffffffffffffcnat,
        );
        lemma_encoded(
            &ops,
            ops.b.limbs@,
            p384_b(),
            0xb3312fa7e23ee7e4988e056be3f82d19181d9c6efe8141120314088f5013875b798769361f9ee929a552b63d9d412dccnat,
        );
    }
    ops
}

/// The operations on private keys of P-384.
pub fn private_key_ops() -> (ops: PrivateKeyOps)
    ensures
        ops.wf(),
        ops.common.n_value() == p384_n(),
        ops.common.b.value(&ops.common) == p384_b(),
        ops.generator_point() == (crate::ec::suite_b::ops::jacobian::JacobianPoint {
            x: p384_generator_x(),
            y: p384_generator_y(),
            z: 1,
        }),
{
    let common = common_ops();
    let ops = PrivateKeyOps {
        common,
        generator: (
            elem_from_limbs(
                [
                    0x3dd0756649c0b528,
                    0x20e378e2a0d6ce38,
                    0x879c3afc541b4d6e,
                    0x6454868459a30eff,
                    0x812ff723614ede2b,
                    0x4d3aadc2299e1513,
                ],
            ),
            elem_from_limbs(
                [
                    0x23043dad4b03a4fe,
                    0xa1bfa8bf7bb4a9ac,
                    0x8bade7562e83b050,
                    0xc6c3521968f4ffd9,
                    0xdd8002263969a840,
                    0x2b78abc25a15c5e9,
                ],
            ),
        ),
    };
    proof {
        assert(ops.generator.0.limbs@.take(6) =~= ops.generator.0.limbs@);
        assert(ops.generator.1.limbs@.take(6) =~= ops.generator.1.limbs@);
        lemma_value_of_six(ops.generator.0.limbs@);
        lemma_value_of_six(ops.generator.1.limbs@);
        ops.common.lemma_r_inverse();
        lemma_encoded(
            &ops.common,
            ops.generator.0.limbs@,
            p384_generator_x(),
            0xaa87ca22be8b05378eb1c71ef320ad746e1d3b628ba79b9859f741e082542a38ff8abc812867f8c687912a8e49c0b528nat,
        );
        lemma_encoded(
            &ops.common,
            ops.generator.1.limbs@,
            p384_generator_y(),
            0x3617de4a96262c6f5d9e98bf9292dc29f8f41dbd289a147ce9da3113b5f0b8c040789018e9bc8c576e07e2ab4b03a4fenat,
        );
        p384_generator_is_on_curve();
    }
    ops
}

/// The operations on public keys of P-384.
pub fn public_key_ops() -> (ops: PublicKeyOps)
    ensures
        ops.common.wf(),
        ops.common.num_limbs == 6,
        ops.common.q_value() == p384_q(),
        ops.common.n_value() == p384_n(),
        ops.common.b.value(&ops.common) == p384_b(),
{
    PublicKeyOps { common: common_ops() }
}

/// The operations on scalars of P-384.
pub fn scalar_ops() -> (ops: ScalarOps)
    ensures
        ops.wf(),
        ops.common.num_limbs == 6,
        ops.common.q_value() == p384_q(),
        ops.common.n_value() == p384_n(),
        ops.common.b.value(&ops.common) == p384_b(),
{
    let ops = ScalarOps { common: common_ops(), n_n0: 0x6ed46089e88fdc45 };
    proof {
        assert((ops.common.n.limbs@[0] * ops.n_n0 + 1) % 0x1_0000_0000_0000_0000 == 0) by {
            assert(ops.common.n.limbs@.take(6) =~= ops.common.n.limbs@);
            lemma_value_of_six(ops.common.n.limbs@);
            let low = ops.common.n.limbs@[0] as int;
            crate::limb_lemmas::lemma_value_low_limb(ops.common.n.limbs@);
            assert(low == 0xecec196accc52973);
            assert(low * 0x6ed46089e88fdc45 + 1 == 0x6691ffc91b8b0ccd * 0x1_0000_0000_0000_0000)
                by (nonlinear_arith)
                requires
                    low == 0xecec196accc52973,
            ;
            lemma_div_mod_unique(
                low * 0x6ed46089e88fdc45 + 1,
                0x1_0000_0000_0000_0000,
                0x6691ffc91b8b0ccd,
                0,
            );
        }
    }
    ops
}

/// The operations on public scalars of P-384.
pub fn public_scalar_ops() -> (ops: PublicScalarOps)
    ensures
        ops.wf(),
        ops.scalar_ops.common.n_value() == p384_n(),
        ops.scalar_ops.common.b.value(&ops.scalar_ops.common) == p384_b(),
        ops.private_key_ops.generator_point() == (crate::ec::suite_b::ops::jacobian::JacobianPoint {
            x: p384_generator_x(),
            y: p384_generator_y(),
            z: 1,
        }),
{
    let scalar_ops = scalar_ops();
    let private_key_ops = private_key_ops();
    let common = private_key_ops.common;
    let ops = PublicScalarOps {
        scalar_ops: ScalarOps { common, n_n0: scalar_ops.n_n0 },
        public_key_ops: PublicKeyOps { common },
        private_key_ops,
        q_minus_n: elem_from_limbs(
            [0x1313e696333ad68c, 0xa7e5f24cb74f5885, 0x389cb27e0bc8d21f, 0, 0, 0],
        ),
    };
    proof {
        assert(ops.q_minus_n.limbs@.take(6) =~= ops.q_minus_n.limbs@);
        lemma_value_of_six(ops.q_minus_n.limbs@);
        assert(common.n.limbs@.take(6) =~= common.n.limbs@);
        lemma_value_of_six(common.n.limbs@);
        crate::limb_lemmas::lemma_value_low_limb(common.n.limbs@);
        crate::limb_lemmas::lemma_value_low_limb(scalar_ops.common.n.limbs@);
        assert(scalar_ops.common.n.limbs@.take(6) =~= scalar_ops.common.n.limbs@);
        lemma_value_of_six(scalar_ops.common.n.limbs@);
    }
    ops
}

/// The operations on private scalars of P-384.
pub fn private_scalar_ops() -> (ops: PrivateScalarOps)
    ensures
        ops.wf(),
        ops.scalar_ops.common.num_limbs == 6,
        ops.scalar_ops.common.q_value() == p384_q(),
        ops.scalar_ops.common.n_value() == p384_n(),
        ops.scalar_ops.common.b.value(&ops.scalar_ops.common) == p384_b(),
{
    let ops = PrivateScalarOps {
        scalar_ops: scalar_ops(),
        oneRR_mod_n: elem_from_limbs(
            [
                0x2d319b2419b409a9,
                0xff3d81e5df1aa419,
                0xbc3e483afcb82947,
                0xd40d49174aab1cc5,
                0x3fb05b7a28266895,
                0x0c84ee012b39bf21,
            ],
        ),
    };
    proof {
        assert(ops.oneRR_mod_n.limbs@.take(6) =~= ops.oneRR_mod_n.limbs@);
        lemma_value_of_six(ops.oneRR_mod_n.limbs@);
        let big_r = ops.scalar_ops.common.r_value();
        assert(big_r * big_r
            == 0x1_00000000_00000000_00000000_00000000_00000000_00000000_00000000_00000000_00000000_00000000_00000000_00000000_00000000_00000000_00000000_00000000_00000000_00000000_00000000_00000000_00000000_00000000_00000000_00000000nat)
            by (nonlinear_arith)
            requires
                big_r
                    == 0x1_0000_0000_0000_0000_0000_0000_0000_0000_0000_0000_0000_0000_0000_0000_0000_0000_0000_0000_0000_0000_0000_0000_0000_0000nat,
        ;
        lemma_div_mod_unique(
            (big_r * big_r) as int,
            p384_n() as int,
            0x1000000000000000000000000000000000000000000000000389cb27e0bc8d220a7e5f24db74f58851313e695333ad68dint,
            limbs_value(ops.oneRR_mod_n.limbs@) as int,
        );
    }
    ops
}

/// The powers of two by which the inversion chain shifts.
proof fn lemma_shifts()
    ensures
        nat_pow(2, 1) == 0x2,
        nat_pow(2, 2) == 0x4,
        nat_pow(2, 3) == 0x8,
        nat_pow(2, 6) == 0x40,
        nat_pow(2, 15) == 0x8000,
        nat_pow(2, 30) == 0x40000000,
        nat_pow(2, 33) == 0x200000000,
        nat_pow(2, 60) == 0x1000000000000000,
        nat_pow(2, 94) == 0x400000000000000000000000,
        nat_pow(2, 120) == 0x1000000000000000000000000000000,
{
    assert(nat_pow(2, 1) == 2 && nat_pow(2, 2) == 4 && nat_pow(2, 3) == 8 && nat_pow(2, 4) == 16)
        by {
        reveal_with_fuel(nat_pow, 6);
    }
    lemma_shift_sum(3, 3, 0x8, 0x8);
    lemma_shift_sum(6, 6, 0x40, 0x40);
    lemma_shift_sum(12, 3, 0x1000, 0x8);
    lemma_shift_sum(15, 15, 0x8000, 0x8000);
    lemma_shift_sum(30, 3, 0x40000000, 0x8);
    lemma_shift_sum(30, 30, 0x40000000, 0x40000000);
    lemma_shift_sum(60, 30, 0x1000000000000000, 0x40000000);
    lemma_shift_sum(90, 4, 0x40000000000000000000000, 0x10);
    lemma_shift_sum(60, 60, 0x1000000000000000, 0x1000000000000000);
}

/// The power of two for a sum of exponents.
proof fn lemma_shift_sum(e1: nat, e2: nat, v1: nat, v2: nat)
    requires
        nat_pow(2, e1) == v1,
        nat_pow(2, e2) == v2,
    ensures
        nat_pow(2, e1 + e2) == v1 * v2,
{
    lemma_pow_adds(2, e1, e2);
}

/// `elem_sqr_mul` on two powers of one element `x`.
fn sqr_mul_powers(
    ops: &CommonOps,
    a: &Elem<R>,
    squarings: usize,
    b: &Elem<R>,
    Ghost(x): Ghost<nat>,
    Ghost(e1): Ghost<nat>,
    Ghost(e2): Ghost<nat>,
) -> (r: Elem<R>)
    requires
        ops.wf(),
        a.wf(ops),
        b.wf(ops),
        squarings >= 1,
        a.value(ops) == field_pow(x, e1, ops.q_value()),
        b.value(ops) == field_pow(x, e2, ops.q_value()),
    ensures
        r.wf(ops),
        r.value(ops) == field_pow(x, e1 * nat_pow(2, squarings as nat) + e2, ops.q_value()),
{
    proof {
        lemma_field_pow_square_multiply(x, e1, squarings as nat, e2, ops.q_value());
    }
    elem_sqr_mul(ops, a, squarings, b)
}

/// `elem_sqr_mul_acc` on two powers of one element `x`.
fn sqr_mul_acc_powers(
    ops: &CommonOps,
    acc: &mut Elem<R>,
    squarings: usize,
    b: &Elem<R>,
    Ghost(x): Ghost<nat>,
    Ghost(e1): Ghost<nat>,
    Ghost(e2): Ghost<nat>,
)
    requires
        ops.wf(),
        old(acc).wf(ops),
        b.wf(ops),
        squarings >= 1,
        old(acc).value(ops) == field_pow(x, e1, ops.q_value()),
        b.value(ops) == field_pow(x, e2, ops.q_value()),
    ensures
        final(acc).wf(ops),
        final(acc).value(ops) == field_pow(
            x,
            e1 * nat_pow(2, squarings as nat) + e2,
            ops.q_value(),
        ),
{
    proof {
        lemma_field_pow_square_multiply(x, e1, squarings as nat, e2, ops.q_value());
    }
    elem_sqr_mul_acc(ops, acc, squarings, b)
}

/// `a` to the power `q - 3`, which for the prime `q` of P-384 is the
/// inverse of the square of `a`.
///
/// The exponent is
/// `ffffffff ffffffff ffffffff ffffffff ffffffff ffffffff ffffffff fffffffe
/// ffffffff 00000000 00000000 fffffffc`; the chain of squarings and
/// multiplications is fixed, whatever `a` is.
pub fn elem_inv_squared(ops: &CommonOps, a: &Elem<R>) -> (r: Elem<R>)
    requires
        ops.wf(),
        ops.q_value() == p384_q(),
        a.wf(ops),
    ensures
        r.wf(ops),
        r.value(ops) == field_pow(a.value(ops), (p384_q() - 3) as nat, p384_q()),
{
    let ghost x = a.value(ops);
    let ghost q = ops.q_value();
    proof {
        lemma_shifts();
        lemma_field_pow_one(x, q);
    }
    let b_1 = a;
    let b_11 = sqr_mul_powers(ops, b_1, 1, b_1, Ghost(x), Ghost(1), Ghost(1));
    let b_111 = sqr_mul_powers(ops, &b_11, 1, b_1, Ghost(x), Ghost(0x3), Ghost(1));
    let f_11 = sqr_mul_powers(ops, &b_111, 3, &b_111, Ghost(x), Ghost(0x7), Ghost(0x7));
    let fff = sqr_mul_powers(ops, &f_11, 6, &f_11, Ghost(x), Ghost(0x3f), Ghost(0x3f));
    let fff_111 = sqr_mul_powers(ops, &fff, 3, &b_111, Ghost(x), Ghost(0xfff), Ghost(0x7));
    let fffffff_11 = sqr_mul_powers(
        ops,
        &fff_111,
        15,
        &fff_111,
        Ghost(x),
        Ghost(0x7fff),
        Ghost(0x7fff),
    );
    let ffffffff = sqr_mul_powers(
        ops,
        &fffffff_11,
        2,
        &b_11,
        Ghost(x),
        Ghost(0x3fffffff),
        Ghost(0x3),
    );
    // 60 ones
    let ones_60 = sqr_mul_powers(
        ops,
        &fffffff_11,
        30,
        &fffffff_11,
        Ghost(x),
        Ghost(0x3fffffff),
        Ghost(0x3fffffff),
    );
    // 120 ones
    let ones_120 = sqr_mul_powers(
        ops,
        &ones_60,
        60,
        &ones_60,
        Ghost(x),
        Ghost(0xfffffffffffffff),
        Ghost(0xfffffffffffffff),
    );
    // 240 ones
    let ones_240 = sqr_mul_powers(
        ops,
        &ones_120,
        120,
        &ones_120,
        Ghost(x),
        Ghost(0xffffffffffffffffffffffffffffff),
        Ghost(0xffffffffffffffffffffffffffffff),
    );
    // 255 ones
    let mut acc = sqr_mul_powers(
        ops,
        &ones_240,
        15,
        &fff_111,
        Ghost(x),
        Ghost(0xffffffffffffffffffffffffffffffffffffffffffffffffffffffffffffnat),
        Ghost(0x7fff),
    );
    // 255 ones, a zero, 32 ones
    sqr_mul_acc_powers(
        ops,
        &mut acc,
        1 + 32,
        &ffffffff,
        Ghost(x),
        Ghost(0x7fffffffffffffffffffffffffffffffffffffffffffffffffffffffffffffffnat),
        Ghost(0xffffffff),
    );
    // 255 ones, a zero, 32 ones, 64 zeros, 30 ones
    sqr_mul_acc_powers(
        ops,
        &mut acc,
        64 + 30,
        &fffffff_11,
        Ghost(x),
        Ghost(0xfffffffffffffffffffffffffffffffffffffffffffffffffffffffffffffffeffffffffnat),
        Ghost(0x3fffffff),
    );
    // and two zeros
    let ghost e =
        0x3fffffffffffffffffffffffffffffffffffffffffffffffffffffffffffffffbfffffffc0000000000000003fffffffnat;
    proof {
        lemma_field_pow_adds(x, e, e, q);
        lemma_field_pow_adds(x, 2 * e, 2 * e, q);
    }
    ops.elem_square(&mut acc);
    ops.elem_square(&mut acc);
    acc
}

} // verus!

//! The curve operation tables: field elements in Montgomery form, points in
//! Jacobian coordinates, and the operations on them.

pub mod elem;
pub mod jacobian;
pub mod on_curve;
pub mod p384;

use crate::arithmetic::modular::{limbs_add_mod, limbs_copy_where, limbs_sub_mod};
use crate::arithmetic::montgomery::{
    decoded,
    lemma_decoded_difference,
    lemma_decoded_encoded,
    lemma_decoded_injective,
    lemma_decoded_product,
    lemma_decoded_sum,
    lemma_decoded_unencoded,
    lemma_decoded_zero,
    lemma_r_inverse,
    limbs_mul_mont,
    r_inverse,
    Encoding,
    ProductEncoding,
    Unencoded,
    R,
    RR,
};
use crate::constant_time::{mask_from_bit, select, MASK_TRUE};
use crate::ec::suite_b::ops::elem::MAX_LIMBS;
use crate::ec::suite_b::ops::jacobian::{
    field_add,
    field_mul,
    field_pow,
    field_sub,
    is_on_curve,
    jacobian_add,
    jacobian_double,
    jacobian_mul,
    lemma_double_infinity,
    JacobianPoint,
};
use crate::error::Unspecified;
use crate::input::{input_bytes, reader_rest};
use crate::limb::{
    big_endian_value,
    limb_radix,
    limb_weight,
    limbs_are_zero_bit,
    limbs_are_zero_constant_time,
    limbs_value,
    parse_big_endian_in_range_and_pad_consttime,
    AllowZero,
    Limb,
    LimbMask,
    LIMB_BYTES,
};
use crate::limb_lemmas::{lemma_value_injective, lemma_value_single, lemma_value_zero_extended};
use vstd::prelude::*;

verus! {

/// Names the field of the curve: the residues modulo the prime `q`.
pub struct Q;

/// Names the scalars of the curve: the residues modulo the group order `n`.
pub struct N;

/// A field element.
pub type Elem<E> = elem::Elem<Q, E>;

/// A scalar.
pub type Scalar<E = Unencoded> = elem::Elem<N, E>;

/// The number of limbs of a point: three coordinates of the widest element.
pub const POINT_LIMBS: usize = 3 * MAX_LIMBS;

/// A point in Jacobian coordinates.
///
/// The limbs of X come first, then those of Y, then those of Z, each
/// coordinate `num_limbs` limbs long and in Montgomery form. The limbs after
/// them are zero. The point at infinity is any point with Z zero.
pub struct Point {
    pub xyz: [Limb; POINT_LIMBS],
}

impl Clone for Point {
    fn clone(&self) -> (r: Self)
        ensures
            r == *self,
    {
        Point { xyz: self.xyz }
    }
}

impl Copy for Point {

}

impl Point {
    /// The point at infinity, with every limb zero.
    pub fn new_at_infinity() -> (r: Point)
        ensures
            forall|i: int| 0 <= i < POINT_LIMBS ==> r.xyz@[i] == 0,
    {
        Point { xyz: [0; POINT_LIMBS] }
    }

    /// The limbs of the coordinate at position `k`: 0 for X, 1 for Y, 2 for Z.
    pub open spec fn coordinate(&self, k: int, num_limbs: int) -> Seq<Limb> {
        if k == 0 {
            self.xyz@.subrange(0, num_limbs)
        } else if k == 1 {
            self.xyz@.subrange(num_limbs, 2 * num_limbs)
        } else {
            self.xyz@.subrange(2 * num_limbs, 3 * num_limbs)
        }
    }

    /// Whether this is a point of the curve's field: every coordinate below
    /// `q`, and the unused limbs zero.
    pub open spec fn wf(&self, ops: &CommonOps) -> bool {
        &&& limbs_value(self.coordinate(0, ops.num_limbs as int)) < ops.q_value()
        &&& limbs_value(self.coordinate(1, ops.num_limbs as int)) < ops.q_value()
        &&& limbs_value(self.coordinate(2, ops.num_limbs as int)) < ops.q_value()
        &&& forall|i: int| 3 * ops.num_limbs <= i < POINT_LIMBS ==> self.xyz@[i] == 0
    }

    /// The residue that the coordinate at position `k` encodes.
    pub open spec fn coordinate_value(&self, k: int, ops: &CommonOps) -> nat {
        decoded(
            limbs_value(self.coordinate(k, ops.num_limbs as int)),
            1,
            ops.q_value(),
            ops.q_r_inverse(),
        )
    }

    /// The point as residues.
    pub open spec fn as_jacobian(&self, ops: &CommonOps) -> JacobianPoint {
        JacobianPoint {
            x: self.coordinate_value(0, ops),
            y: self.coordinate_value(1, ops),
            z: self.coordinate_value(2, ops),
        }
    }
}

/// A modulus with the constants that Montgomery multiplication needs.
#[derive(Clone, Copy)]
pub struct Modulus {
    /// The modulus.
    pub p: [Limb; MAX_LIMBS],
    /// `R * R` modulo the modulus.
    pub rr: [Limb; MAX_LIMBS],
    /// The negated inverse of the modulus modulo the limb radix.
    pub n0: Limb,
}

/// The constants that all operations of a curve need.
#[derive(Clone, Copy)]
pub struct CommonOps {
    pub num_limbs: usize,
    pub q: Modulus,
    pub n: Elem<Unencoded>,
    /// The coefficient `a` of the curve, which is `-3`.
    pub a: Elem<R>,
    /// The coefficient `b` of the curve.
    pub b: Elem<R>,
}

impl<E: Encoding> elem::Elem<Q, E> {
    /// Whether this is a field element of the curve: below `q`, with the
    /// unused limbs zero.
    pub open spec fn wf(&self, ops: &CommonOps) -> bool {
        &&& self.stored(ops.num_limbs as nat) < ops.q_value()
        &&& self.padded(ops.num_limbs as nat)
    }

    /// The residue that this element encodes.
    pub open spec fn value(&self, ops: &CommonOps) -> nat {
        decoded(self.stored(ops.num_limbs as nat), E::factors(), ops.q_value(), ops.q_r_inverse())
    }
}

impl<E: Encoding> elem::Elem<N, E> {
    /// Whether this is a scalar of the curve: below `n`, with the unused
    /// limbs zero.
    pub open spec fn wf(&self, ops: &CommonOps) -> bool {
        &&& self.stored(ops.num_limbs as nat) < ops.n_value()
        &&& self.padded(ops.num_limbs as nat)
    }
}

impl CommonOps {
    /// The field prime `q`.
    pub open spec fn q_value(&self) -> nat {
        limbs_value(self.q.p@.take(self.num_limbs as int))
    }

    /// The group order `n`.
    pub open spec fn n_value(&self) -> nat {
        limbs_value(self.n.limbs@.take(self.num_limbs as int))
    }

    /// `R`: the weight of the limb above the top of an element.
    pub open spec fn r_value(&self) -> nat {
        limb_weight(self.num_limbs as nat)
    }

    /// The inverse of `R` modulo `q`.
    pub open spec fn q_r_inverse(&self) -> nat {
        r_inverse(self.q_value(), self.q.n0 as nat, self.num_limbs as nat)
    }

    /// Whether the table is consistent.
    pub open spec fn wf(&self) -> bool {
        &&& 1 <= self.num_limbs <= MAX_LIMBS
        &&& self.q_value() > 3
        &&& (self.q.p@[0] * self.q.n0 + 1) % (limb_radix() as int) == 0
        &&& forall|i: int| self.num_limbs <= i < MAX_LIMBS ==> self.q.p@[i] == 0
        &&& limbs_value(self.q.rr@.take(self.num_limbs as int)) == (self.r_value()
            * self.r_value()) % self.q_value()
        &&& forall|i: int| self.num_limbs <= i < MAX_LIMBS ==> self.q.rr@[i] == 0
        &&& 1 < self.n_value()
        &&& self.n.wf(self)
        &&& self.a.wf(self)
        &&& self.a.value(self) == self.q_value() - 3
        &&& self.b.wf(self)
    }

    /// `R` and `q_r_inverse` are inverse to each other.
    pub proof fn lemma_r_inverse(&self)
        requires
            self.wf(),
        ensures
            (self.r_value() * self.q_r_inverse()) % self.q_value() == 1,
            self.q_r_inverse() < self.q_value(),
    {
        let p = self.q.p@.take(self.num_limbs as int);
        crate::limb_lemmas::lemma_value_low_limb(p);
        let q = self.q_value() as int;
        let n0 = self.q.n0 as int;
        let radix = limb_radix() as int;
        crate::math::lemma_mul_mod(q, n0, radix);
        crate::math::lemma_mul_mod(p[0] as int, n0, radix);
        vstd::arithmetic::div_mod::lemma_add_mod_noop(q * n0, 1, radix);
        vstd::arithmetic::div_mod::lemma_add_mod_noop(p[0] * n0, 1, radix);
        lemma_r_inverse(self.q_value(), self.q.n0 as nat, self.num_limbs as nat);
    }

    /// Encoding and then decoding gives the element back: where `encoded`
    /// is the product of `x` and `R * R`, and `back` is `encoded` decoded,
    /// `back` is `x`.
    pub proof fn montgomery_round_trip(
        &self,
        x: &Elem<Unencoded>,
        rr: &Elem<RR>,
        encoded: &Elem<R>,
        back: &Elem<Unencoded>,
    )
        requires
            self.wf(),
            x.wf(self),
            rr.limbs == self.q.rr,
            encoded.value(self) == field_mul(x.value(self), rr.value(self), self.q_value()),
            back.wf(self),
            back.value(self) == encoded.value(self),
        ensures
            back.limbs@ == x.limbs@,
    {
        let n = self.num_limbs as nat;
        let q = self.q_value();
        let big_r = self.r_value();
        self.lemma_r_inverse();
        crate::math::lemma_pow_step(big_r, 1);
        crate::math::lemma_pow_step(big_r, 0);
        assert(crate::math::nat_pow(big_r, 0) == 1);
        assert(1 * crate::math::nat_pow(big_r, 2) == big_r * big_r) by (nonlinear_arith)
            requires
                crate::math::nat_pow(big_r, 2) == big_r * crate::math::nat_pow(big_r, 1),
                crate::math::nat_pow(big_r, 1) == big_r * crate::math::nat_pow(big_r, 0),
                crate::math::nat_pow(big_r, 0) == 1,
        ;
        lemma_decoded_encoded(1, 2, q, big_r, self.q_r_inverse());
        crate::math::lemma_mod_small(1, q);
        assert(rr.value(self) == 1);
        lemma_decoded_unencoded(x.stored(n), q, self.q_r_inverse());
        lemma_decoded_unencoded(back.stored(n), q, self.q_r_inverse());
        assert(x.value(self) * 1 == x.value(self)) by (nonlinear_arith);
        crate::math::lemma_mod_small(x.value(self), q);
        lemma_value_injective(x.limbs@.take(n as int), back.limbs@.take(n as int));
        assert forall|i: int| 0 <= i < MAX_LIMBS implies back.limbs@[i] == x.limbs@[i] by {
            if i < n {
                assert(x.limbs@.take(n as int)[i] == back.limbs@.take(n as int)[i]);
            }
        }
        assert(back.limbs@ =~= x.limbs@);
    }

    /// The Montgomery product of the limbs of `a` and `b`, in whatever
    /// encoding the caller knows the result to have.
    fn mul_mont<EA: Encoding, EB: Encoding, EO: Encoding>(&self, a: &Elem<EA>, b: &Elem<EB>) -> (r:
        Elem<EO>)
        requires
            self.wf(),
            a.wf(self),
            b.wf(self),
        ensures
            r.wf(self),
            (r.stored(self.num_limbs as nat) * self.r_value()) % self.q_value() == (a.stored(
                self.num_limbs as nat,
            ) * b.stored(self.num_limbs as nat)) % self.q_value(),
    {
        let n = self.num_limbs;
        let mut r = Elem::zero();
        let (low, _) = r.limbs.split_at_mut(n);
        limbs_mul_mont(low, &a.limbs[0..n], &b.limbs[0..n], &self.q.p[0..n], self.q.n0);
        proof {
            assert(r.limbs@.take(n as int) =~= low@);
        }
        r
    }

    /// `R * R`, the constant that encodes by multiplication: it stands for
    /// the residue one.
    fn rr(&self) -> (r: Elem<RR>)
        requires
            self.wf(),
        ensures
            r.wf(self),
            r.value(self) == 1,
    {
        let r = Elem { limbs: self.q.rr, m: core::marker::PhantomData, encoding: core::marker::PhantomData };
        proof {
            self.lemma_r_inverse();
            let big_r = self.r_value();
            assert(crate::math::nat_pow(big_r, 2) == big_r * big_r) by {
                crate::math::lemma_pow_step(big_r, 1);
                crate::math::lemma_pow_step(big_r, 0);
                assert(crate::math::nat_pow(big_r, 0) == 1);
                assert(big_r * 1 == big_r) by (nonlinear_arith);
            }
            assert(1 * crate::math::nat_pow(big_r, 2) == big_r * big_r) by (nonlinear_arith)
                requires
                    crate::math::nat_pow(big_r, 2) == big_r * big_r,
            ;
            lemma_decoded_encoded(1, 2, self.q_value(), big_r, self.q_r_inverse());
            crate::math::lemma_mod_small(1, self.q_value());
        }
        r
    }

    /// The residue one in Montgomery form.
    fn one_encoded(&self) -> (r: Elem<R>)
        requires
            self.wf(),
        ensures
            r.wf(self),
            r.value(self) == 1,
    {
        let one = self.one();
        let rr = self.rr();
        proof {
            assert(1nat * 1nat == 1) by (nonlinear_arith);
            crate::math::lemma_mod_small(1, self.q_value());
        }
        self.elem_product(&one, &rr)
    }

    /// The element that stores the number one.
    fn one(&self) -> (r: Elem<Unencoded>)
        requires
            self.wf(),
        ensures
            r.wf(self),
            r.stored(self.num_limbs as nat) == 1,
            r.value(self) == 1,
    {
        let mut r = Elem::zero();
        r.limbs[0] = 1;
        proof {
            let low = seq![1u64];
            assert(r.limbs@.take(1) =~= low);
            lemma_value_single(1u64);
            lemma_value_zero_extended(r.limbs@.take(self.num_limbs as int), 1);
            assert(r.limbs@.take(self.num_limbs as int).take(1) =~= r.limbs@.take(1));
            lemma_decoded_unencoded(1, self.q_value(), self.q_r_inverse());
        }
        r
    }

    /// `a = a + b` in the field.
    pub fn elem_add<E: Encoding>(&self, a: &mut Elem<E>, b: &Elem<E>)
        requires
            self.wf(),
            old(a).wf(self),
            b.wf(self),
        ensures
            final(a).wf(self),
            final(a).value(self) == (old(a).value(self) + b.value(self)) % self.q_value(),
    {
        let n = self.num_limbs;
        let lhs = *a;
        let (low, _) = a.limbs.split_at_mut(n);
        limbs_add_mod(low, &lhs.limbs[0..n], &b.limbs[0..n], &self.q.p[0..n]);
        proof {
            assert(a.limbs@.take(n as int) =~= low@);
            lemma_decoded_sum(
                lhs.stored(n as nat),
                b.stored(n as nat),
                E::factors(),
                self.q_value(),
                self.q_r_inverse(),
            );
        }
    }

    /// `a = a - b` in the field.
    pub fn elem_sub<E: Encoding>(&self, a: &mut Elem<E>, b: &Elem<E>)
        requires
            self.wf(),
            old(a).wf(self),
            b.wf(self),
        ensures
            final(a).wf(self),
            final(a).value(self) == (old(a).value(self) - b.value(self)) % (
            self.q_value() as int),
    {
        let n = self.num_limbs;
        let lhs = *a;
        let (low, _) = a.limbs.split_at_mut(n);
        limbs_sub_mod(low, &lhs.limbs[0..n], &b.limbs[0..n], &self.q.p[0..n]);
        proof {
            assert(a.limbs@.take(n as int) =~= low@);
            lemma_decoded_difference(
                lhs.stored(n as nat),
                b.stored(n as nat),
                E::factors(),
                self.q_value(),
                self.q_r_inverse(),
            );
        }
    }

    /// Whether `a` and `b` are the same element.
    pub fn elems_are_equal(&self, a: &Elem<R>, b: &Elem<R>) -> (r: bool)
        requires
            self.wf(),
            a.wf(self),
            b.wf(self),
        ensures
            r == (a.value(self) == b.value(self)),
            r == (a.limbs@ == b.limbs@),
    {
        let n = self.num_limbs;
        let mut differing: Limb = 0;
        for i in 0..n
            invariant
                n == self.num_limbs,
                n <= MAX_LIMBS,
                differing == 0 <==> (forall|j: int| 0 <= j < i ==> a.limbs@[j] == b.limbs@[j]),
        {
            differing = crate::constant_time::either(
                differing,
                crate::constant_time::difference(a.limbs[i], b.limbs[i]),
            );
        }
        proof {
            self.lemma_r_inverse();
            let sa = a.limbs@.take(n as int);
            let sb = b.limbs@.take(n as int);
            if differing == 0 {
                assert(a.limbs@ =~= b.limbs@);
            } else {
                if a.value(self) == b.value(self) {
                    lemma_decoded_injective(
                        a.stored(n as nat),
                        b.stored(n as nat),
                        R::factors(),
                        self.q_value(),
                        self.r_value(),
                        self.q_r_inverse(),
                    );
                    lemma_value_injective(sa, sb);
                    assert forall|j: int| 0 <= j < n implies a.limbs@[j] == b.limbs@[j] by {
                        assert(sa[j] == sb[j]);
                    }
                    assert(false);
                }
            }
        }
        differing == 0
    }

    /// The element `a`, decoded.
    pub fn elem_unencoded(&self, a: &Elem<R>) -> (r: Elem<Unencoded>)
        requires
            self.wf(),
            a.wf(self),
        ensures
            r.wf(self),
            r.value(self) == a.value(self),
            r.stored(self.num_limbs as nat) == a.value(self),
    {
        let one = self.one();
        let r = self.elem_product(a, &one);
        proof {
            assert(a.value(self) * 1 == a.value(self)) by (nonlinear_arith);
            crate::math::lemma_mod_small(a.value(self), self.q_value());
            lemma_decoded_unencoded(
                r.stored(self.num_limbs as nat),
                self.q_value(),
                self.q_r_inverse(),
            );
        }
        r
    }

    /// `a = a * b` in the field.
    pub fn elem_mul(&self, a: &mut Elem<R>, b: &Elem<R>)
        requires
            self.wf(),
            old(a).wf(self),
            b.wf(self),
        ensures
            final(a).wf(self),
            final(a).value(self) == (old(a).value(self) * b.value(self)) % self.q_value(),
    {
        let lhs = *a;
        *a = self.elem_product(&lhs, b);
    }

    /// `a * b` in the field. The encodings of `a` and `b` decide that of
    /// the product.
    pub fn elem_product<EA: Encoding, EB: Encoding>(&self, a: &Elem<EA>, b: &Elem<EB>) -> (r: Elem<
        <(EA, EB) as ProductEncoding<EA, EB>>::Output,
    >) where (EA, EB): ProductEncoding<EA, EB>
        requires
            self.wf(),
            a.wf(self),
            b.wf(self),
        ensures
            r.wf(self),
            r.value(self) == (a.value(self) * b.value(self)) % self.q_value(),
    {
        let r = self.mul_mont(a, b);
        proof {
            self.lemma_r_inverse();
            <(EA, EB) as ProductEncoding<EA, EB>>::product_factors();
            lemma_decoded_product(
                r.stored(self.num_limbs as nat),
                a.stored(self.num_limbs as nat),
                b.stored(self.num_limbs as nat),
                <(EA, EB) as ProductEncoding<EA, EB>>::Output::factors(),
                EA::factors(),
                EB::factors(),
                self.q_value(),
                self.r_value(),
                self.q_r_inverse(),
            );
        }
        r
    }

    /// `a = a * a` in the field.
    pub fn elem_square(&self, a: &mut Elem<R>)
        requires
            self.wf(),
            old(a).wf(self),
        ensures
            final(a).wf(self),
            final(a).value(self) == (old(a).value(self) * old(a).value(self)) % self.q_value(),
    {
        let operand = *a;
        *a = self.elem_product(&operand, &operand);
    }

    /// `a * a` in the field.
    pub fn elem_squared(&self, a: &Elem<R>) -> (r: Elem<R>)
        requires
            self.wf(),
            a.wf(self),
        ensures
            r.wf(self),
            r.value(self) == (a.value(self) * a.value(self)) % self.q_value(),
    {
        self.elem_product(a, a)
    }

    /// Whether the number stored in `a` is zero.
    pub fn is_zero<M, E: Encoding>(&self, a: &elem::Elem<M, E>) -> (r: bool)
        requires
            self.num_limbs <= MAX_LIMBS,
        ensures
            r == (a.stored(self.num_limbs as nat) == 0),
    {
        limbs_are_zero_constant_time(&a.limbs[0..self.num_limbs]) == LimbMask::True
    }

    /// Fails if `a` is zero.
    pub fn elem_verify_is_not_zero(&self, a: &Elem<R>) -> (r: Result<(), Unspecified>)
        requires
            self.wf(),
            a.wf(self),
        ensures
            r is Err <==> a.value(self) == 0,
    {
        proof {
            self.lemma_r_inverse();
            lemma_decoded_zero(
                a.stored(self.num_limbs as nat),
                R::factors(),
                self.q_value(),
                self.r_value(),
                self.q_r_inverse(),
            );
        }
        if self.is_zero(a) {
            Err(Unspecified)
        } else {
            Ok(())
        }
    }
    /// 1 if `a` is zero, else 0.
    fn zero_bit<E: Encoding>(&self, a: &Elem<E>) -> (bit: Limb)
        requires
            self.wf(),
            a.wf(self),
        ensures
            bit <= 1,
            bit == 1 <==> a.value(self) == 0,
    {
        proof {
            self.lemma_r_inverse();
            lemma_decoded_zero(
                a.stored(self.num_limbs as nat),
                E::factors(),
                self.q_value(),
                self.r_value(),
                self.q_r_inverse(),
            );
        }
        limbs_are_zero_bit(&a.limbs[0..self.num_limbs])
    }

    /// `a + b` in the field.
    fn elem_sum(&self, a: &Elem<R>, b: &Elem<R>) -> (r: Elem<R>)
        requires
            self.wf(),
            a.wf(self),
            b.wf(self),
        ensures
            r.wf(self),
            r.value(self) == field_add(a.value(self), b.value(self), self.q_value()),
    {
        let mut r = *a;
        self.elem_add(&mut r, b);
        r
    }

    /// `a - b` in the field.
    fn elem_difference(&self, a: &Elem<R>, b: &Elem<R>) -> (r: Elem<R>)
        requires
            self.wf(),
            a.wf(self),
            b.wf(self),
        ensures
            r.wf(self),
            r.value(self) == field_sub(a.value(self), b.value(self), self.q_value()),
    {
        let mut r = *a;
        self.elem_sub(&mut r, b);
        r
    }

    /// `2 * a` in the field.
    fn elem_doubled(&self, a: &Elem<R>) -> (r: Elem<R>)
        requires
            self.wf(),
            a.wf(self),
        ensures
            r.wf(self),
            r.value(self) == field_mul(2, a.value(self), self.q_value()),
    {
        self.elem_sum(a, a)
    }

    /// `3 * a` in the field.
    fn elem_tripled(&self, a: &Elem<R>) -> (r: Elem<R>)
        requires
            self.wf(),
            a.wf(self),
        ensures
            r.wf(self),
            r.value(self) == field_mul(3, a.value(self), self.q_value()),
    {
        let doubled = self.elem_doubled(a);
        proof {
            let v = a.value(self) as int;
            let q = self.q_value() as int;
            vstd::arithmetic::div_mod::lemma_add_mod_noop(2 * v, v, q);
            crate::math::lemma_mod_small(a.value(self), self.q_value());
        }
        self.elem_sum(&doubled, a)
    }

    /// `4 * a` in the field.
    fn elem_quadrupled(&self, a: &Elem<R>) -> (r: Elem<R>)
        requires
            self.wf(),
            a.wf(self),
        ensures
            r.wf(self),
            r.value(self) == field_mul(4, a.value(self), self.q_value()),
    {
        let doubled = self.elem_doubled(a);
        proof {
            let v = a.value(self) as int;
            let q = self.q_value() as int;
            crate::math::lemma_mul_mod(2, 2 * v, q);
        }
        self.elem_doubled(&doubled)
    }

    /// `8 * a` in the field.
    fn elem_octupled(&self, a: &Elem<R>) -> (r: Elem<R>)
        requires
            self.wf(),
            a.wf(self),
        ensures
            r.wf(self),
            r.value(self) == field_mul(8, a.value(self), self.q_value()),
    {
        let quadrupled = self.elem_quadrupled(a);
        proof {
            let v = a.value(self) as int;
            let q = self.q_value() as int;
            crate::math::lemma_mul_mod(2, 4 * v, q);
        }
        self.elem_doubled(&quadrupled)
    }

    /// The coordinate of `p` that starts at limb `k * num_limbs`.
    fn point_coordinate(&self, p: &Point, k: usize) -> (r: Elem<R>)
        requires
            self.wf(),
            p.wf(self),
            k < 3,
        ensures
            r.wf(self),
            r.limbs@.take(self.num_limbs as int) == p.coordinate(k as int, self.num_limbs as int),
            r.value(self) == p.coordinate_value(k as int, self),
    {
        let n = self.num_limbs;
        let offset = k * n;
        let mut r = Elem::zero();
        proof {
            assert(k == 0 ==> k * n == 0) by (nonlinear_arith);
            assert(k == 1 ==> k * n == n) by (nonlinear_arith);
            assert(k == 2 ==> k * n == 2 * n) by (nonlinear_arith);
        }
        for i in 0..n
            invariant
                n == self.num_limbs,
                1 <= n <= MAX_LIMBS,
                offset == (if k == 0 {
                    0
                } else if k == 1 {
                    n as int
                } else {
                    2 * n
                }),
                k < 3,
                forall|j: int| 0 <= j < i ==> r.limbs@[j] == p.xyz@[offset + j],
                forall|j: int| i <= j < MAX_LIMBS ==> r.limbs@[j] == 0,
        {
            r.limbs[i] = p.xyz[offset + i];
        }
        proof {
            assert(r.limbs@.take(n as int) =~= p.coordinate(k as int, n as int));
        }
        r
    }

    /// The point with the coordinates `x`, `y` and `z`.
    fn point_from_coordinates(&self, x: &Elem<R>, y: &Elem<R>, z: &Elem<R>) -> (r: Point)
        requires
            self.wf(),
            x.wf(self),
            y.wf(self),
            z.wf(self),
        ensures
            r.wf(self),
            r.as_jacobian(self) == (JacobianPoint {
                x: x.value(self),
                y: y.value(self),
                z: z.value(self),
            }),
    {
        let n = self.num_limbs;
        let mut r = Point::new_at_infinity();
        for i in 0..n
            invariant
                n == self.num_limbs,
                1 <= n <= MAX_LIMBS,
                forall|j: int| 0 <= j < i ==> r.xyz@[j] == x.limbs@[j],
                forall|j: int| 0 <= j < i ==> r.xyz@[n + j] == y.limbs@[j],
                forall|j: int| 0 <= j < i ==> r.xyz@[2 * n + j] == z.limbs@[j],
                forall|j: int| 3 * n <= j < POINT_LIMBS ==> r.xyz@[j] == 0,
        {
            r.xyz[i] = x.limbs[i];
            r.xyz[n + i] = y.limbs[i];
            r.xyz[2 * n + i] = z.limbs[i];
        }
        proof {
            assert(r.coordinate(0, n as int) =~= x.limbs@.take(n as int));
            assert(r.coordinate(1, n as int) =~= y.limbs@.take(n as int));
            assert(r.coordinate(2, n as int) =~= z.limbs@.take(n as int));
        }
        r
    }

    /// The X coordinate of `p`.
    pub fn point_x(&self, p: &Point) -> (r: Elem<R>)
        requires
            self.wf(),
            p.wf(self),
        ensures
            r.wf(self),
            r.value(self) == p.as_jacobian(self).x,
    {
        self.point_coordinate(p, 0)
    }

    /// The Y coordinate of `p`.
    pub fn point_y(&self, p: &Point) -> (r: Elem<R>)
        requires
            self.wf(),
            p.wf(self),
        ensures
            r.wf(self),
            r.value(self) == p.as_jacobian(self).y,
    {
        self.point_coordinate(p, 1)
    }

    /// The Z coordinate of `p`.
    pub fn point_z(&self, p: &Point) -> (r: Elem<R>)
        requires
            self.wf(),
            p.wf(self),
        ensures
            r.wf(self),
            r.value(self) == p.as_jacobian(self).z,
    {
        self.point_coordinate(p, 2)
    }

    /// Twice the point `p`.
    pub fn point_double(&self, p: &Point) -> (r: Point)
        requires
            self.wf(),
            p.wf(self),
        ensures
            r.wf(self),
            r.as_jacobian(self) == jacobian_double(p.as_jacobian(self), self.q_value()),
    {
        let x = self.point_x(p);
        let y = self.point_y(p);
        let z = self.point_z(p);
        let delta = self.elem_squared(&z);
        let gamma = self.elem_squared(&y);
        let beta = self.elem_product(&x, &gamma);
        let x_minus_delta = self.elem_difference(&x, &delta);
        let x_plus_delta = self.elem_sum(&x, &delta);
        let alpha = self.elem_tripled(&self.elem_product(&x_minus_delta, &x_plus_delta));
        let x3 = self.elem_difference(&self.elem_squared(&alpha), &self.elem_octupled(&beta));
        let y_plus_z = self.elem_sum(&y, &z);
        let z3 = self.elem_difference(
            &self.elem_difference(&self.elem_squared(&y_plus_z), &gamma),
            &delta,
        );
        let y3 = self.elem_difference(
            &self.elem_product(&alpha, &self.elem_difference(&self.elem_quadrupled(&beta), &x3)),
            &self.elem_octupled(&self.elem_squared(&gamma)),
        );
        self.point_from_coordinates(&x3, &y3, &z3)
    }

    /// Copies `a` into `r` where `mask` is set.
    fn point_copy_where(&self, r: &mut Point, a: &Point, mask: Limb)
        requires
            crate::constant_time::is_mask(mask),
        ensures
            *final(r) == (if mask == MASK_TRUE {
                *a
            } else {
                *old(r)
            }),
    {
        limbs_copy_where(&mut r.xyz, &a.xyz, mask);
        proof {
            if mask == MASK_TRUE {
                assert(r.xyz@ =~= a.xyz@);
                assert(r.xyz == a.xyz);
            } else {
                assert(r.xyz@ =~= old(r).xyz@);
                assert(r.xyz == old(r).xyz);
            }
        }
    }

    /// The sum of the points `a` and `b`.
    ///
    /// The same sequence of field operations is done for every pair of
    /// points; which result is handed back is picked by masks.
    pub fn point_sum(&self, a: &Point, b: &Point) -> (r: Point)
        requires
            self.wf(),
            a.wf(self),
            b.wf(self),
        ensures
            r.wf(self),
            r.as_jacobian(self) == jacobian_add(
                a.as_jacobian(self),
                b.as_jacobian(self),
                self.q_value(),
            ),
            b.as_jacobian(self).is_infinity() ==> r == *a,
            !b.as_jacobian(self).is_infinity() && a.as_jacobian(self).is_infinity() ==> r == *b,
            !a.as_jacobian(self).is_infinity() && a.as_jacobian(self) == b.as_jacobian(self)
                ==> r.as_jacobian(self) == jacobian_double(a.as_jacobian(self), self.q_value()),
    {
        proof {
            if !a.as_jacobian(self).is_infinity() {
                crate::ec::suite_b::ops::jacobian::lemma_add_same(
                    a.as_jacobian(self),
                    self.q_value(),
                );
            }
        }
        let x1 = self.point_x(a);
        let y1 = self.point_y(a);
        let z1 = self.point_z(a);
        let x2 = self.point_x(b);
        let y2 = self.point_y(b);
        let z2 = self.point_z(b);
        let z1z1 = self.elem_squared(&z1);
        let z2z2 = self.elem_squared(&z2);
        let u1 = self.elem_product(&x1, &z2z2);
        let u2 = self.elem_product(&x2, &z1z1);
        let s1 = self.elem_product(&self.elem_product(&y1, &z2), &z2z2);
        let s2 = self.elem_product(&self.elem_product(&y2, &z1), &z1z1);
        let h = self.elem_difference(&u2, &u1);
        let r = self.elem_difference(&s2, &s1);
        let hh = self.elem_squared(&h);
        let hhh = self.elem_product(&h, &hh);
        let v = self.elem_product(&u1, &hh);
        let x3 = self.elem_difference(
            &self.elem_difference(&self.elem_squared(&r), &hhh),
            &self.elem_doubled(&v),
        );
        let y3 = self.elem_difference(
            &self.elem_product(&r, &self.elem_difference(&v, &x3)),
            &self.elem_product(&s1, &hhh),
        );
        let z3 = self.elem_product(&self.elem_product(&h, &z1), &z2);
        let mut sum = self.point_from_coordinates(&x3, &y3, &z3);

        let doubled = self.point_double(a);
        let infinity = Point::new_at_infinity();
        let same_x = mask_from_bit(self.zero_bit(&h));
        let same_y = mask_from_bit(self.zero_bit(&r));
        let a_is_infinity = mask_from_bit(self.zero_bit(&z1));
        let b_is_infinity = mask_from_bit(self.zero_bit(&z2));
        proof {
            self.lemma_infinity(&infinity);
        }
        self.point_copy_where(&mut sum, &doubled, select(same_x, same_y, 0));
        self.point_copy_where(&mut sum, &infinity, select(same_y, 0, same_x));
        self.point_copy_where(&mut sum, b, a_is_infinity);
        self.point_copy_where(&mut sum, a, b_is_infinity);
        sum
    }

    /// The point whose limbs are all zero is the point at infinity, with
    /// every coordinate zero.
    pub proof fn lemma_infinity(&self, p: &Point)
        requires
            self.wf(),
            forall|i: int| 0 <= i < POINT_LIMBS ==> p.xyz@[i] == 0,
        ensures
            p.wf(self),
            p.as_jacobian(self) == JacobianPoint::infinity(),
    {
        let n = self.num_limbs as int;
        crate::limb_lemmas::lemma_value_zero(p.coordinate(0, n));
        crate::limb_lemmas::lemma_value_zero(p.coordinate(1, n));
        crate::limb_lemmas::lemma_value_zero(p.coordinate(2, n));
        self.lemma_r_inverse();
        lemma_decoded_zero(0, 1, self.q_value(), self.r_value(), self.q_r_inverse());
    }
}

/// The operations on private keys.
///
/// The inversion chain is that of P-384, so a table is well-formed only for
/// that field.
#[derive(Clone, Copy)]
pub struct PrivateKeyOps {
    pub common: CommonOps,
    /// The affine coordinates of the generator of the group.
    pub generator: (Elem<R>, Elem<R>),
}

/// The bit of `limb` at position `s`, and the bits above it.
proof fn lemma_next_bit(limb: Limb, s: u64)
    by (bit_vector)
    requires
        s < 64,
    ensures
        (limb >> s) & 1 <= 1,
        s < 63 ==> (limb >> ((s + 1) as u64)) * 2 + ((limb >> s) & 1) == (limb >> s),
        s == 63 ==> (limb >> s) & 1 == (limb >> s),
        s == 0 ==> (limb >> s) == limb,
{
}

impl PrivateKeyOps {
    /// Whether the table is consistent, and is a table of P-384.
    pub open spec fn wf(&self) -> bool {
        &&& self.common.wf()
        &&& self.common.num_limbs == 6
        &&& self.common.q_value() == p384::p384_q()
        &&& self.generator.0.wf(&self.common)
        &&& self.generator.1.wf(&self.common)
        &&& is_on_curve(
            self.generator.0.value(&self.common),
            self.generator.1.value(&self.common),
            self.common.b.value(&self.common),
            self.common.q_value(),
        )
    }

    /// The generator of the group.
    pub open spec fn generator_point(&self) -> JacobianPoint {
        JacobianPoint {
            x: self.generator.0.value(&self.common),
            y: self.generator.1.value(&self.common),
            z: 1,
        }
    }

    /// The inverse of the square of `a`, as the power `a^(q - 3)`.
    pub fn elem_inverse_squared(&self, a: &Elem<R>) -> (r: Elem<R>)
        requires
            self.wf(),
            a.wf(&self.common),
        ensures
            r.wf(&self.common),
            r.value(&self.common) == field_pow(
                a.value(&self.common),
                (self.common.q_value() - 3) as nat,
                self.common.q_value(),
            ),
    {
        p384::elem_inv_squared(&self.common, a)
    }

    /// The scalar `a` times the generator of the group.
    pub fn point_mul_base(&self, a: &Scalar) -> (r: Point)
        requires
            self.wf(),
        ensures
            r.wf(&self.common),
            r.as_jacobian(&self.common) == jacobian_mul(
                a.stored(self.common.num_limbs as nat),
                self.generator_point(),
                self.common.q_value(),
            ),
    {
        self.point_mul(a, &self.generator)
    }

    /// The scalar `p_scalar` times the affine point `p_xy`.
    ///
    /// Every bit of the scalar costs one doubling and one addition; a mask
    /// picks whether the addition counts.
    pub fn point_mul(&self, p_scalar: &Scalar, p_xy: &(Elem<R>, Elem<R>)) -> (r: Point)
        requires
            self.common.wf(),
            p_xy.0.wf(&self.common),
            p_xy.1.wf(&self.common),
        ensures
            r.wf(&self.common),
            r.as_jacobian(&self.common) == jacobian_mul(
                p_scalar.stored(self.common.num_limbs as nat),
                (JacobianPoint {
                    x: p_xy.0.value(&self.common),
                    y: p_xy.1.value(&self.common),
                    z: 1,
                }),
                self.common.q_value(),
            ),
    {
        let ops = &self.common;
        let n = ops.num_limbs;
        let one = ops.one_encoded();
        let p = ops.point_from_coordinates(&p_xy.0, &p_xy.1, &one);
        let ghost pj = p.as_jacobian(ops);
        let ghost q = ops.q_value();
        let ghost digits = p_scalar.limbs@.take(n as int);
        let mut acc = Point::new_at_infinity();
        proof {
            ops.lemma_infinity(&acc);
            assert(digits.subrange(n as int, n as int) =~= Seq::<Limb>::empty());
        }
        let mut j = n;
        while j > 0
            invariant
                ops == &self.common,
                ops.wf(),
                n == ops.num_limbs,
                q == ops.q_value(),
                digits == p_scalar.limbs@.take(n as int),
                p.wf(ops),
                pj == p.as_jacobian(ops),
                j <= n,
                acc.wf(ops),
                acc.as_jacobian(ops) == jacobian_mul(
                    limbs_value(digits.subrange(j as int, n as int)),
                    pj,
                    q,
                ),
            decreases j,
        {
            j -= 1;
            let limb = p_scalar.limbs[j];
            let ghost high = limbs_value(digits.subrange(j + 1, n as int));
            let ghost mut scaled = high;
            let ghost mut scale: nat = 1;
            let mut s: u64 = 64;
            proof {
                assert(high * 1 == high) by (nonlinear_arith);
            }
            while s > 0
                invariant
                    ops.wf(),
                    q == ops.q_value(),
                    p.wf(ops),
                    pj == p.as_jacobian(ops),
                    s <= 64,
                    scaled == high * scale,
                    scale == crate::math::nat_pow(2, (64 - s) as nat),
                    acc.wf(ops),
                    acc.as_jacobian(ops) == jacobian_mul(
                        scaled + (if s == 64 {
                            0
                        } else {
                            (limb >> s) as nat
                        }),
                        pj,
                        q,
                    ),
                decreases s,
            {
                let ghost before = scaled + (if s == 64 {
                    0
                } else {
                    (limb >> s) as nat
                });
                s -= 1;
                let bit = (limb >> s) & 1;
                let doubled = ops.point_double(&acc);
                let sum = ops.point_sum(&doubled, &p);
                proof {
                    lemma_next_bit(limb, s);
                    crate::math::lemma_pow_step(2, (63 - s) as nat);
                    assert(high * (2 * scale) == 2 * (high * scale)) by (nonlinear_arith);
                    let after = 2 * before + bit;
                    assert(after == 2 * scaled + (limb >> s));
                    lemma_double_infinity(q);
                    assert(after / 2 == before);
                    assert(after % 2 == bit as int);
                    scaled = 2 * scaled;
                    scale = 2 * scale;
                }
                acc = doubled;
                ops.point_copy_where(&mut acc, &sum, mask_from_bit(bit));
            }
            proof {
                let low = seq![limb];
                let rest = digits.subrange(j + 1, n as int);
                assert(digits.subrange(j as int, n as int) =~= low + rest);
                crate::limb_lemmas::lemma_value_concat(low, rest);
                lemma_value_single(limb);
                lemma_next_bit(limb, 0);
                crate::limb_lemmas::lemma_two_to_64();
                assert(high * limb_radix() == limb_radix() * high) by (nonlinear_arith);
            }
        }
        proof {
            assert(digits.subrange(0, n as int) =~= digits);
        }
        acc
    }
}

/// `a` squared `squarings` times, times `b`: `a^(2^squarings) * b`.
///
/// The work done depends on `squarings` only, not on `a` or `b`.
pub fn elem_sqr_mul(ops: &CommonOps, a: &Elem<R>, squarings: usize, b: &Elem<R>) -> (r: Elem<R>)
    requires
        ops.wf(),
        a.wf(ops),
        b.wf(ops),
        squarings >= 1,
    ensures
        r.wf(ops),
        r.value(ops) == field_mul(
            field_pow(a.value(ops), crate::math::nat_pow(2, squarings as nat), ops.q_value()),
            b.value(ops),
            ops.q_value(),
        ),
{
    let mut tmp = ops.elem_squared(a);
    proof {
        lemma_squared_is_power(a.value(ops), 0, ops.q_value());
        crate::ec::suite_b::ops::jacobian::lemma_field_pow_one(a.value(ops), ops.q_value());
    }
    for i in 1..squarings
        invariant
            ops.wf(),
            a.wf(ops),
            tmp.wf(ops),
            tmp.value(ops) == field_pow(
                a.value(ops),
                crate::math::nat_pow(2, i as nat),
                ops.q_value(),
            ),
    {
        proof {
            lemma_squared_is_power(a.value(ops), i as nat, ops.q_value());
        }
        ops.elem_square(&mut tmp);
    }
    ops.elem_product(&tmp, b)
}

/// `acc = acc^(2^squarings) * b`.
///
/// The work done depends on `squarings` only, not on `acc` or `b`.
pub fn elem_sqr_mul_acc(ops: &CommonOps, acc: &mut Elem<R>, squarings: usize, b: &Elem<R>)
    requires
        ops.wf(),
        old(acc).wf(ops),
        b.wf(ops),
        squarings >= 1,
    ensures
        final(acc).wf(ops),
        final(acc).value(ops) == field_mul(
            field_pow(
                old(acc).value(ops),
                crate::math::nat_pow(2, squarings as nat),
                ops.q_value(),
            ),
            b.value(ops),
            ops.q_value(),
        ),
{
    let ghost start = acc.value(ops);
    proof {
        crate::ec::suite_b::ops::jacobian::lemma_field_pow_one(start, ops.q_value());
    }
    for i in 0..squarings
        invariant
            ops.wf(),
            acc.wf(ops),
            start < ops.q_value(),
            acc.value(ops) == field_pow(start, crate::math::nat_pow(2, i as nat), ops.q_value()),
    {
        proof {
            lemma_squared_is_power(start, i as nat, ops.q_value());
        }
        ops.elem_square(acc);
    }
    ops.elem_mul(acc, b)
}

/// Parses a field element from `bytes`, which must be exactly as long as an
/// element and stand for a number below `q`. Zero is accepted.
pub fn elem_parse_big_endian_fixed_consttime(ops: &CommonOps, bytes: untrusted::Input) -> (r:
    Result<Elem<Unencoded>, Unspecified>)
    requires
        ops.wf(),
    ensures
        r is Ok <==> {
            &&& input_bytes(bytes).len() == ops.num_limbs * LIMB_BYTES
            &&& big_endian_value(input_bytes(bytes)) < ops.q_value()
        },
        r matches Ok(e) ==> {
            &&& e.wf(ops)
            &&& e.value(ops) == big_endian_value(input_bytes(bytes))
            &&& e.stored(ops.num_limbs as nat) == big_endian_value(input_bytes(bytes))
        },
{
    let r = parse_big_endian_fixed_consttime(
        ops,
        bytes,
        AllowZero::Yes,
        &ops.q.p[0..ops.num_limbs],
    );
    proof {
        if let Ok(e) = r {
            lemma_decoded_unencoded(
                e.stored(ops.num_limbs as nat),
                ops.q_value(),
                ops.q_r_inverse(),
            );
        }
    }
    r
}

/// Parses a scalar from `bytes`, which must be exactly as long as a scalar
/// and stand for a number that is below `n` and not zero.
pub fn scalar_parse_big_endian_fixed_consttime(ops: &CommonOps, bytes: untrusted::Input) -> (r:
    Result<Scalar, Unspecified>)
    requires
        ops.wf(),
    ensures
        r is Ok <==> {
            &&& input_bytes(bytes).len() == ops.num_limbs * LIMB_BYTES
            &&& 0 < big_endian_value(input_bytes(bytes)) < ops.n_value()
        },
        r matches Ok(e) ==> {
            &&& e.wf(ops)
            &&& e.stored(ops.num_limbs as nat) == big_endian_value(input_bytes(bytes))
        },
{
    parse_big_endian_fixed_consttime(ops, bytes, AllowZero::No, &ops.n.limbs[0..ops.num_limbs])
}

/// Parses an element from `bytes`, which must be exactly as long as an
/// element and stand for a number below `max_exclusive`, and not for zero
/// unless `allow_zero` says so.
pub fn parse_big_endian_fixed_consttime<M>(
    ops: &CommonOps,
    bytes: untrusted::Input,
    allow_zero: AllowZero,
    max_exclusive: &[Limb],
) -> (r: Result<elem::Elem<M, Unencoded>, Unspecified>)
    requires
        1 <= ops.num_limbs <= MAX_LIMBS,
        max_exclusive@.len() == ops.num_limbs,
    ensures
        r is Ok <==> {
            &&& input_bytes(bytes).len() == ops.num_limbs * LIMB_BYTES
            &&& big_endian_value(input_bytes(bytes)) < limbs_value(max_exclusive@)
            &&& allow_zero == AllowZero::Yes || big_endian_value(input_bytes(bytes)) != 0
        },
        r matches Ok(e) ==> {
            &&& e.stored(ops.num_limbs as nat) == big_endian_value(input_bytes(bytes))
            &&& e.padded(ops.num_limbs as nat)
        },
{
    assert(LIMB_BYTES == 8);
    if bytes.len() != ops.num_limbs * LIMB_BYTES {
        return Err(Unspecified);
    }
    let mut r = elem::Elem::zero();
    let (low, _) = r.limbs.split_at_mut(ops.num_limbs);
    let parsed = parse_big_endian_in_range_and_pad_consttime(
        bytes,
        allow_zero,
        max_exclusive,
        low,
    );
    proof {
        assert(r.limbs@.take(ops.num_limbs as int) =~= low@);
    }
    match parsed {
        Ok(()) => Ok(r),
        Err(e) => Err(e),
    }
}

/// The operations on public keys.
#[derive(Clone, Copy)]
pub struct PublicKeyOps {
    pub common: CommonOps,
}

impl PublicKeyOps {
    /// Reads one coordinate of a public key from `input`: as many bytes as
    /// an element has, big-endian, zero-padded. Accepts it only if it stands
    /// for a number below `q`, and hands it back in Montgomery form.
    ///
    /// The bytes are consumed whenever there are enough of them.
    pub fn elem_parse(&self, input: &mut untrusted::Reader) -> (r: Result<Elem<R>, Unspecified>)
        requires
            self.common.wf(),
        ensures
            r is Ok <==> {
                &&& self.common.num_limbs * LIMB_BYTES <= reader_rest(*old(input)).len()
                &&& big_endian_value(
                    reader_rest(*old(input)).take(self.common.num_limbs * LIMB_BYTES),
                ) < self.common.q_value()
            },
            r matches Ok(e) ==> {
                &&& e.wf(&self.common)
                &&& e.value(&self.common) == big_endian_value(
                    reader_rest(*old(input)).take(self.common.num_limbs * LIMB_BYTES),
                )
            },
            reader_rest(*final(input)) == (if self.common.num_limbs * LIMB_BYTES <= reader_rest(
                *old(input),
            ).len() {
                reader_rest(*old(input)).skip(self.common.num_limbs * LIMB_BYTES)
            } else {
                reader_rest(*old(input))
            }),
    {
        assert(LIMB_BYTES == 8);
        let encoded_value = match input.skip_and_get_input(self.common.num_limbs * LIMB_BYTES) {
            Ok(taken) => taken,
            Err(e) => {
                return Err(Unspecified::from(e));
            },
        };
        let parsed = elem_parse_big_endian_fixed_consttime(&self.common, encoded_value)?;
        // Encode by multiplying by `R * R`.
        let rr = self.common.rr();
        proof {
            assert(parsed.value(&self.common) * 1 == parsed.value(&self.common))
                by (nonlinear_arith);
            crate::math::lemma_mod_small(parsed.value(&self.common), self.common.q_value());
        }
        Ok(self.common.elem_product(&parsed, &rr))
    }
}

/// The operations on scalars that signing and verification share.
#[derive(Clone, Copy)]
pub struct ScalarOps {
    pub common: CommonOps,
    /// The negated inverse of `n` modulo the limb radix.
    pub n_n0: Limb,
}

impl ScalarOps {
    /// Whether the table is consistent.
    pub open spec fn wf(&self) -> bool {
        &&& self.common.wf()
        &&& (self.common.n.limbs@[0] * self.n_n0 + 1) % (limb_radix() as int) == 0
    }

    /// The inverse of `R` modulo `n`.
    pub open spec fn n_r_inverse(&self) -> nat {
        r_inverse(self.common.n_value(), self.n_n0 as nat, self.common.num_limbs as nat)
    }

    /// The residue modulo `n` that the scalar `a` encodes.
    pub open spec fn scalar_value<E: Encoding>(&self, a: &Scalar<E>) -> nat {
        decoded(
            a.stored(self.common.num_limbs as nat),
            E::factors(),
            self.common.n_value(),
            self.n_r_inverse(),
        )
    }

    /// `a * b` modulo `n`. The encodings of `a` and `b` decide that of the
    /// product.
    pub fn scalar_product<EA: Encoding, EB: Encoding>(&self, a: &Scalar<EA>, b: &Scalar<EB>) -> (r:
        Scalar<<(EA, EB) as ProductEncoding<EA, EB>>::Output>) where
        (EA, EB): ProductEncoding<EA, EB>,

        requires
            self.wf(),
            a.wf(&self.common),
            b.wf(&self.common),
        ensures
            r.wf(&self.common),
            self.scalar_value(&r) == (self.scalar_value(a) * self.scalar_value(b))
                % self.common.n_value(),
    {
        let n = self.common.num_limbs;
        let mut r = elem::Elem::zero();
        let (low, _) = r.limbs.split_at_mut(n);
        limbs_mul_mont(
            low,
            &a.limbs[0..n],
            &b.limbs[0..n],
            &self.common.n.limbs[0..n],
            self.n_n0,
        );
        proof {
            assert(r.limbs@.take(n as int) =~= low@);
            let order = self.common.n.limbs@.take(n as int);
            crate::limb_lemmas::lemma_value_low_limb(order);
            let nv = self.common.n_value() as int;
            let n0 = self.n_n0 as int;
            let radix = limb_radix() as int;
            crate::math::lemma_mul_mod(nv, n0, radix);
            crate::math::lemma_mul_mod(order[0] as int, n0, radix);
            vstd::arithmetic::div_mod::lemma_add_mod_noop(nv * n0, 1, radix);
            vstd::arithmetic::div_mod::lemma_add_mod_noop(order[0] * n0, 1, radix);
            lemma_r_inverse(self.common.n_value(), self.n_n0 as nat, n as nat);
            <(EA, EB) as ProductEncoding<EA, EB>>::product_factors();
            lemma_decoded_product(
                r.stored(n as nat),
                a.stored(n as nat),
                b.stored(n as nat),
                <(EA, EB) as ProductEncoding<EA, EB>>::Output::factors(),
                EA::factors(),
                EB::factors(),
                self.common.n_value(),
                self.common.r_value(),
                self.n_r_inverse(),
            );
        }
        r
    }
}

/// The operations on public scalars that signature verification needs.
pub struct PublicScalarOps {
    pub scalar_ops: ScalarOps,
    pub public_key_ops: PublicKeyOps,
    pub private_key_ops: PrivateKeyOps,
    /// `q - n`.
    pub q_minus_n: Elem<Unencoded>,
}

impl PublicScalarOps {
    /// Whether the table is consistent.
    pub open spec fn wf(&self) -> bool {
        &&& self.scalar_ops.wf()
        &&& self.private_key_ops.wf()
        &&& self.public_key_ops.common == self.scalar_ops.common
        &&& self.private_key_ops.common == self.scalar_ops.common
        &&& self.q_minus_n.wf(&self.scalar_ops.common)
        &&& self.q_minus_n.stored(self.scalar_ops.common.num_limbs as nat)
            == self.scalar_ops.common.q_value() - self.scalar_ops.common.n_value()
    }
}

/// The operations on private scalars that signing needs.
#[allow(non_snake_case)]
pub struct PrivateScalarOps {
    pub scalar_ops: ScalarOps,
    /// `R * R` modulo `n`: the residue one, encoded twice.
    pub oneRR_mod_n: Scalar<RR>,
}

impl PrivateScalarOps {
    /// Whether the table is consistent.
    pub open spec fn wf(&self) -> bool {
        &&& self.scalar_ops.wf()
        &&& self.oneRR_mod_n.wf(&self.scalar_ops.common)
        &&& self.oneRR_mod_n.stored(self.scalar_ops.common.num_limbs as nat) == (
        self.scalar_ops.common.r_value() * self.scalar_ops.common.r_value())
            % self.scalar_ops.common.n_value()
    }
}

/// Squaring the power with exponent `2^i` gives the power with exponent `2^(i + 1)`.
proof fn lemma_squared_is_power(a: nat, i: nat, q: nat)
    requires
        q > 0,
    ensures
        field_mul(
            field_pow(a, crate::math::nat_pow(2, i), q),
            field_pow(a, crate::math::nat_pow(2, i), q),
            q,
        ) == field_pow(a, crate::math::nat_pow(2, i + 1), q),
{
    let e = crate::math::nat_pow(2, i);
    crate::ec::suite_b::ops::jacobian::lemma_field_pow_adds(a, e, e, q);
    crate::math::lemma_pow_step(2, i);
}

} // verus!
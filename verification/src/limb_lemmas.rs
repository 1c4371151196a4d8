//! Facts about the numbers that limb arrays and big-endian byte strings stand for.

use crate::limb::{
    big_endian_bytes,
    big_endian_value,
    limb_radix,
    limb_weight,
    limbs_of_value,
    limbs_value,
    Limb,
};
use crate::math::{lemma_pow_adds, lemma_pow_positive, lemma_pow_step, nat_pow};
use vstd::prelude::*;

verus! {

/// The weight of a limb is the radix times the weight of the limb below.
pub(crate) proof fn lemma_weight_step(i: nat)
    ensures
        limb_weight(i + 1) == limb_weight(i) * limb_radix(),
        limb_weight(i + 1) == limb_radix() * limb_weight(i),
        limb_weight(i) > 0,
        limb_weight(0) == 1,
{
    lemma_pow_step(limb_radix(), i);
    lemma_pow_positive(limb_radix(), i);
}

/// One more limb at the top adds its value times its weight.
pub(crate) proof fn lemma_value_push(limbs: Seq<Limb>, top: Limb)
    ensures
        limbs_value(limbs.push(top)) == limbs_value(limbs) + top as nat * limb_weight(limbs.len()),
{
    assert(limbs.push(top).drop_last() =~= limbs);
}

/// The value of the first `i + 1` limbs, from that of the first `i`.
pub(crate) proof fn lemma_value_take_step(limbs: Seq<Limb>, i: int)
    requires
        0 <= i < limbs.len(),
    ensures
        limbs_value(limbs.take(i + 1)) == limbs_value(limbs.take(i)) + limbs[i] as nat
            * limb_weight(i as nat),
{
    assert(limbs.take(i + 1).drop_last() =~= limbs.take(i));
}

/// All limbs of an array are the array; no limbs stand for zero.
pub(crate) proof fn lemma_value_take_all(limbs: Seq<Limb>)
    ensures
        limbs.take(limbs.len() as int) == limbs,
        limbs_value(limbs.take(0)) == 0,
{
    assert(limbs.take(limbs.len() as int) =~= limbs);
}

/// A number of `n` limbs is below the weight of limb `n`.
pub(crate) proof fn lemma_value_bound(limbs: Seq<Limb>)
    ensures
        limbs_value(limbs) < limb_weight(limbs.len()),
    decreases limbs.len(),
{
    if limbs.len() == 0 {
        lemma_weight_step(0);
    } else {
        let n = (limbs.len() - 1) as nat;
        lemma_value_bound(limbs.drop_last());
        lemma_weight_step(n);
        let w = limb_weight(n);
        let top = limbs.last() as nat;
        assert(top * w + w <= limb_radix() * w) by (nonlinear_arith)
            requires
                top + 1 <= limb_radix(),
                w > 0,
        ;
    }
}

/// The value is zero exactly when every limb is.
pub(crate) proof fn lemma_value_zero(limbs: Seq<Limb>)
    ensures
        limbs_value(limbs) == 0 <==> (forall|i: int| 0 <= i < limbs.len() ==> limbs[i] == 0),
    decreases limbs.len(),
{
    if limbs.len() > 0 {
        let n = (limbs.len() - 1) as nat;
        let low = limbs.drop_last();
        lemma_value_zero(low);
        lemma_weight_step(n);
        let w = limb_weight(n);
        let top = limbs.last() as nat;
        assert(top * w == 0 <==> top == 0) by (nonlinear_arith)
            requires
                w > 0,
        ;
        if limbs_value(limbs) == 0 {
            assert forall|i: int| 0 <= i < limbs.len() implies limbs[i] == 0 by {
                if i < n {
                    assert(low[i] == limbs[i]);
                }
            }
        } else {
            if forall|i: int| 0 <= i < limbs.len() ==> limbs[i] == 0 {
                assert forall|i: int| 0 <= i < low.len() implies low[i] == 0 by {
                    assert(low[i] == limbs[i]);
                }
                assert(false);
            }
        }
    }
}

/// Limbs of value zero above `n` limbs do not change the value.
pub(crate) proof fn lemma_value_zero_extended(limbs: Seq<Limb>, n: int)
    requires
        0 <= n <= limbs.len(),
        forall|i: int| n <= i < limbs.len() ==> limbs[i] == 0,
    ensures
        limbs_value(limbs) == limbs_value(limbs.take(n)),
    decreases limbs.len() - n,
{
    if n == limbs.len() {
        lemma_value_take_all(limbs);
    } else {
        let low = limbs.drop_last();
        lemma_value_zero_extended(low, n);
        assert(low.take(n) =~= limbs.take(n));
        assert(limbs.last() as nat * limb_weight((limbs.len() - 1) as nat) == 0)
            by (nonlinear_arith)
            requires
                limbs.last() == 0,
        ;
    }
}

/// The value of two arrays put end to end.
pub(crate) proof fn lemma_value_concat(low: Seq<Limb>, high: Seq<Limb>)
    ensures
        limbs_value(low + high) == limbs_value(low) + limb_weight(low.len()) * limbs_value(high),
    decreases high.len(),
{
    if high.len() == 0 {
        assert(low + high =~= low);
        assert(limb_weight(low.len()) * 0 == 0) by (nonlinear_arith);
    } else {
        let h = high.drop_last();
        let top = high.last() as nat;
        lemma_value_concat(low, h);
        assert((low + high).drop_last() =~= low + h);
        let wl = limb_weight(low.len());
        let wh = limb_weight(h.len());
        lemma_pow_adds(limb_radix(), low.len(), h.len());
        assert(wl * (limbs_value(h) + top * wh) == wl * limbs_value(h) + top * (wl * wh))
            by (nonlinear_arith);
    }
}

/// Replacing one limb changes the value by the difference times the weight.
pub(crate) proof fn lemma_value_update(limbs: Seq<Limb>, i: int, v: Limb)
    requires
        0 <= i < limbs.len(),
    ensures
        limbs_value(limbs.update(i, v)) + limbs[i] as nat * limb_weight(i as nat) == limbs_value(
            limbs,
        ) + v as nat * limb_weight(i as nat),
    decreases limbs.len(),
{
    let n = limbs.len() - 1;
    if i == n {
        assert(limbs.update(i, v).drop_last() =~= limbs.drop_last());
    } else {
        lemma_value_update(limbs.drop_last(), i, v);
        assert(limbs.update(i, v).drop_last() =~= limbs.drop_last().update(i, v));
    }
}

/// Two arrays of one length that stand for the same number are the same.
pub(crate) proof fn lemma_value_injective(a: Seq<Limb>, b: Seq<Limb>)
    requires
        a.len() == b.len(),
        limbs_value(a) == limbs_value(b),
    ensures
        a == b,
    decreases a.len(),
{
    if a.len() > 0 {
        let n = (a.len() - 1) as nat;
        let w = limb_weight(n);
        lemma_weight_step(n);
        lemma_value_bound(a.drop_last());
        lemma_value_bound(b.drop_last());
        let d = limbs_value(a.drop_last()) - limbs_value(b.drop_last());
        let k = a.last() as int - b.last() as int;
        assert(k * w + d == 0) by (nonlinear_arith)
            requires
                limbs_value(a.drop_last()) + a.last() as nat * w == limbs_value(b.drop_last())
                    + b.last() as nat * w,
                d == limbs_value(a.drop_last()) - limbs_value(b.drop_last()),
                k == a.last() as int - b.last() as int,
        ;
        crate::math::lemma_sign_of_scaled_sum(k, w as int, d);
        lemma_value_injective(a.drop_last(), b.drop_last());
        assert(a =~= a.drop_last().push(a.last()));
        assert(b =~= b.drop_last().push(b.last()));
    } else {
        assert(a =~= b);
    }
}

/// Comparing two numbers of `n + 1` limbs: the top limbs decide, and the
/// lower limbs break a tie.
pub(crate) proof fn lemma_value_less_step(a: Seq<Limb>, b: Seq<Limb>, i: int)
    requires
        0 <= i < a.len(),
        a.len() == b.len(),
    ensures
        limbs_value(a.take(i + 1)) < limbs_value(b.take(i + 1)) <==> (a[i] < b[i] || (a[i] == b[i]
            && limbs_value(a.take(i)) < limbs_value(b.take(i)))),
{
    let w = limb_weight(i as nat);
    lemma_weight_step(i as nat);
    lemma_value_take_step(a, i);
    lemma_value_take_step(b, i);
    lemma_value_bound(a.take(i));
    lemma_value_bound(b.take(i));
    let d = limbs_value(a.take(i)) - limbs_value(b.take(i));
    let k = a[i] as int - b[i] as int;
    assert(limbs_value(a.take(i + 1)) - limbs_value(b.take(i + 1)) == k * w + d)
        by (nonlinear_arith)
        requires
            limbs_value(a.take(i + 1)) == limbs_value(a.take(i)) + a[i] as nat * w,
            limbs_value(b.take(i + 1)) == limbs_value(b.take(i)) + b[i] as nat * w,
            d == limbs_value(a.take(i)) - limbs_value(b.take(i)),
            k == a[i] as int - b[i] as int,
    ;
    crate::math::lemma_sign_of_scaled_sum(k, w as int, d);
}

/// The value of a single limb, and the weight of the limb above it.
pub(crate) proof fn lemma_value_single(limb: Limb)
    ensures
        limbs_value(seq![limb]) == limb,
        limb_weight(1) == limb_radix(),
        limb_weight(0) == 1,
{
    let one = seq![limb];
    assert(one.drop_last() =~= Seq::<Limb>::empty());
    assert(limbs_value(one.drop_last()) == 0);
    assert(one.last() == limb);
    lemma_weight_step(0);
    assert(limbs_value(one) == limbs_value(one.drop_last()) + one.last() as nat * limb_weight(0));
    assert(limb as nat * 1 == limb) by (nonlinear_arith);
    assert(limb_radix() * 1 == limb_radix()) by (nonlinear_arith);
}

/// Modulo the radix, a number is its lowest limb.
pub(crate) proof fn lemma_value_low_limb(limbs: Seq<Limb>)
    requires
        limbs.len() > 0,
    ensures
        limbs_value(limbs) % limb_radix() == limbs[0],
{
    let low = seq![limbs[0]];
    let rest = limbs.skip(1);
    assert(limbs =~= low + rest);
    lemma_value_concat(low, rest);
    lemma_value_single(limbs[0]);
    assert(limbs_value(rest) * limb_radix() == limb_radix() * limbs_value(rest))
        by (nonlinear_arith);
    crate::math::lemma_div_mod_unique(
        limbs_value(limbs) as int,
        limb_radix() as int,
        limbs_value(rest) as int,
        limbs[0] as int,
    );
}

/// The value of six limbs, written out.
pub(crate) proof fn lemma_value_of_six(limbs: Seq<Limb>)
    requires
        limbs.len() == 6,
    ensures
        limbs_value(limbs) == limbs[0] + limbs[1] * 0x1_0000_0000_0000_0000nat + limbs[2]
            * 0x1_0000_0000_0000_0000_0000_0000_0000_0000nat + limbs[3]
            * 0x1_0000_0000_0000_0000_0000_0000_0000_0000_0000_0000_0000_0000nat + limbs[4]
            * 0x1_0000_0000_0000_0000_0000_0000_0000_0000_0000_0000_0000_0000_0000_0000_0000_0000nat
            + limbs[5]
            * 0x1_0000_0000_0000_0000_0000_0000_0000_0000_0000_0000_0000_0000_0000_0000_0000_0000_0000_0000_0000_0000nat,
        limb_weight(6)
            == 0x1_0000_0000_0000_0000_0000_0000_0000_0000_0000_0000_0000_0000_0000_0000_0000_0000_0000_0000_0000_0000_0000_0000_0000_0000nat,
{
    lemma_value_take_all(limbs);
    lemma_value_take_step(limbs, 0);
    lemma_value_take_step(limbs, 1);
    lemma_value_take_step(limbs, 2);
    lemma_value_take_step(limbs, 3);
    lemma_value_take_step(limbs, 4);
    lemma_value_take_step(limbs, 5);
    lemma_weight_step(0);
    lemma_weight_step(1);
    lemma_weight_step(2);
    lemma_weight_step(3);
    lemma_weight_step(4);
    lemma_weight_step(5);
    assert(limb_weight(1) == 0x1_0000_0000_0000_0000nat);
    assert(limb_weight(2) == 0x1_0000_0000_0000_0000_0000_0000_0000_0000nat);
    assert(limb_weight(3) == 0x1_0000_0000_0000_0000_0000_0000_0000_0000_0000_0000_0000_0000nat);
    assert(limb_weight(4)
        == 0x1_0000_0000_0000_0000_0000_0000_0000_0000_0000_0000_0000_0000_0000_0000_0000_0000nat);
    assert(limb_weight(5)
        == 0x1_0000_0000_0000_0000_0000_0000_0000_0000_0000_0000_0000_0000_0000_0000_0000_0000_0000_0000_0000_0000nat);
    assert(limbs[0] as nat * 1 == limbs[0]) by (nonlinear_arith);
}

/// The radix is the 64th power of two.
pub(crate) proof fn lemma_two_to_64()
    ensures
        nat_pow(2, 64) == limb_radix(),
{
    assert(nat_pow(2, 8) == 256) by {
        reveal_with_fuel(nat_pow, 10);
    }
    crate::math::lemma_pow_multiplies(2, 8, 8);
    lemma_byte_radix();
}

/// The powers of 256 up to the radix, which is the eighth.
pub(crate) proof fn lemma_byte_radix()
    ensures
        nat_pow(256, 8) == limb_radix(),
        nat_pow(256, 0) == 1,
        nat_pow(256, 1) == 256,
        nat_pow(256, 2) == 0x1_0000,
        nat_pow(256, 3) == 0x100_0000,
        nat_pow(256, 4) == 0x1_0000_0000,
        nat_pow(256, 5) == 0x100_0000_0000,
        nat_pow(256, 6) == 0x1_0000_0000_0000,
        nat_pow(256, 7) == 0x100_0000_0000_0000,
{
    reveal_with_fuel(nat_pow, 10);
}

/// One more byte at the end multiplies by 256 and adds the byte.
pub(crate) proof fn lemma_big_endian_push(bytes: Seq<u8>, b: u8)
    ensures
        big_endian_value(bytes.push(b)) == 256 * big_endian_value(bytes) + b as nat,
{
    assert(bytes.push(b).drop_last() =~= bytes);
}

/// A number of `n` bytes is below the `n`-th power of 256.
pub(crate) proof fn lemma_big_endian_bound(bytes: Seq<u8>)
    ensures
        big_endian_value(bytes) < nat_pow(256, bytes.len()),
    decreases bytes.len(),
{
    if bytes.len() > 0 {
        lemma_big_endian_bound(bytes.drop_last());
        lemma_pow_step(256, (bytes.len() - 1) as nat);
    }
}

/// The value of two byte strings put end to end.
pub(crate) proof fn lemma_big_endian_concat(high: Seq<u8>, low: Seq<u8>)
    ensures
        big_endian_value(high + low) == big_endian_value(high) * nat_pow(256, low.len())
            + big_endian_value(low),
    decreases low.len(),
{
    if low.len() == 0 {
        assert(high + low =~= high);
        assert(big_endian_value(high) * 1 == big_endian_value(high)) by (nonlinear_arith);
    } else {
        let l = low.drop_last();
        lemma_big_endian_concat(high, l);
        assert((high + low).drop_last() =~= high + l);
        lemma_pow_step(256, l.len());
        let h = big_endian_value(high);
        let p = nat_pow(256, l.len());
        assert(256 * (h * p) == h * (p * 256)) by (nonlinear_arith);
    }
}

/// Two byte strings of one length that stand for the same number are equal.
pub(crate) proof fn lemma_big_endian_injective(a: Seq<u8>, b: Seq<u8>)
    requires
        a.len() == b.len(),
        big_endian_value(a) == big_endian_value(b),
    ensures
        a == b,
    decreases a.len(),
{
    if a.len() > 0 {
        lemma_big_endian_injective(a.drop_last(), b.drop_last());
        assert(a =~= a.drop_last().push(a.last()));
        assert(b =~= b.drop_last().push(b.last()));
    } else {
        assert(a =~= b);
    }
}

/// A number that fits in `len` bytes is the number that its bytes stand for.
pub(crate) proof fn lemma_big_endian_bytes_value(value: nat, len: nat)
    requires
        value < nat_pow(256, len),
    ensures
        big_endian_bytes(value, len).len() == len,
        big_endian_value(big_endian_bytes(value, len)) == value,
    decreases len,
{
    if len > 0 {
        lemma_pow_step(256, (len - 1) as nat);
        lemma_big_endian_bytes_value(value / 256, (len - 1) as nat);
        lemma_big_endian_push(
            big_endian_bytes(value / 256, (len - 1) as nat),
            (value % 256) as u8,
        );
    }
}

/// A byte string is the bytes of the number that it stands for.
pub(crate) proof fn lemma_big_endian_bytes_unique(bytes: Seq<u8>, value: nat)
    requires
        big_endian_value(bytes) == value,
    ensures
        bytes == big_endian_bytes(value, bytes.len()),
{
    lemma_big_endian_bound(bytes);
    lemma_big_endian_bytes_value(value, bytes.len());
    lemma_big_endian_injective(bytes, big_endian_bytes(value, bytes.len()));
}

/// A number that fits in `len` limbs is the number that its limbs stand for.
pub(crate) proof fn lemma_limbs_of_value(value: nat, len: nat)
    requires
        value < limb_weight(len),
    ensures
        limbs_of_value(value, len).len() == len,
        limbs_value(limbs_of_value(value, len)) == value,
    decreases len,
{
    if len > 0 {
        let n = (len - 1) as nat;
        let w = limb_weight(n);
        lemma_weight_step(n);
        let low = value % w;
        let top = value / w;
        vstd::arithmetic::div_mod::lemma_fundamental_div_mod(value as int, w as int);
        vstd::arithmetic::div_mod::lemma_mod_bound(value as int, w as int);
        assert(top < limb_radix()) by (nonlinear_arith)
            requires
                value == w * top + low,
                value < limb_radix() * w,
                w > 0,
                low >= 0,
        ;
        crate::math::lemma_mod_small(top, limb_radix());
        lemma_limbs_of_value(low, n);
        lemma_value_push(limbs_of_value(low, n), top as Limb);
        assert(top * w == w * top) by (nonlinear_arith);
    }
}

/// A limb array is the limbs of the number that it stands for.
pub(crate) proof fn lemma_limbs_of_value_unique(limbs: Seq<Limb>, value: nat)
    requires
        limbs_value(limbs) == value,
    ensures
        limbs == limbs_of_value(value, limbs.len()),
{
    lemma_value_bound(limbs);
    lemma_limbs_of_value(value, limbs.len());
    lemma_value_injective(limbs, limbs_of_value(value, limbs.len()));
}

} // verus!

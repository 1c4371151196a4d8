//! Unsigned multi-precision integers.
//!
//! A number is an array of limbs, least significant limb first. Its external
//! form is a big-endian byte string.

use crate::constant_time::{difference, either, is_zero_bit, sub_with_borrow};
use crate::error::Unspecified;
use crate::input::{input_bytes, reader_rest};
use crate::limb_lemmas::{
    lemma_big_endian_concat,
    lemma_big_endian_push,
    lemma_byte_radix,
    lemma_value_less_step,
    lemma_value_take_all,
    lemma_value_take_step,
    lemma_value_update,
    lemma_value_zero,
    lemma_weight_step,
};
use crate::math::{lemma_pow_monotonic, nat_pow};
use vstd::prelude::*;

verus! {

/// One word of a multi-precision integer.
pub type Limb = u64;

/// The width of a limb in bits.
pub const LIMB_BITS: usize = 64;

/// The width of a limb in bytes.
pub const LIMB_BYTES: usize = (LIMB_BITS + 7) / 8;

/// A truth value as a limb-sized mask: all bits set, or none.
#[derive(Clone, Copy, Debug, PartialEq, Eq, Structural)]
pub enum LimbMask {
    True,
    False,
}

/// Whether a parsed value may be zero.
#[derive(Clone, Copy, Debug, PartialEq, Eq, Structural)]
pub enum AllowZero {
    No,
    Yes,
}

/// The number of values that one limb can hold.
pub open spec fn limb_radix() -> nat {
    0x1_0000_0000_0000_0000
}

/// The weight of the limb at index `i`.
pub open spec fn limb_weight(i: nat) -> nat {
    nat_pow(limb_radix(), i)
}

/// The number that `limbs` stands for, least significant limb first.
pub open spec fn limbs_value(limbs: Seq<Limb>) -> nat
    decreases limbs.len(),
{
    if limbs.len() == 0 {
        0
    } else {
        limbs_value(limbs.drop_last()) + limbs.last() as nat * limb_weight(
            (limbs.len() - 1) as nat,
        )
    }
}

/// The number `value` as `len` limbs, least significant limb first. Where
/// `value` does not fit, its most significant part is cut off.
pub open spec fn limbs_of_value(value: nat, len: nat) -> Seq<Limb>
    decreases len,
{
    if len == 0 {
        Seq::empty()
    } else {
        limbs_of_value(value % limb_weight((len - 1) as nat), (len - 1) as nat).push(
            (value / limb_weight((len - 1) as nat) % limb_radix()) as Limb,
        )
    }
}

/// The number that `bytes` stands for, most significant byte first.
pub open spec fn big_endian_value(bytes: Seq<u8>) -> nat
    decreases bytes.len(),
{
    if bytes.len() == 0 {
        0
    } else {
        256 * big_endian_value(bytes.drop_last()) + bytes.last() as nat
    }
}

/// The number `value` as `len` bytes, most significant byte first. Where
/// `value` does not fit, its most significant part is cut off.
pub open spec fn big_endian_bytes(value: nat, len: nat) -> Seq<u8>
    decreases len,
{
    if len == 0 {
        Seq::empty()
    } else {
        big_endian_bytes(value / 256, (len - 1) as nat).push((value % 256) as u8)
    }
}

/// The number of limbs that `num_bytes` bytes fill, the last one perhaps in part.
pub open spec fn limbs_for_bytes(num_bytes: nat) -> nat {
    (num_bytes + 7) / 8
}

/// Whether `bytes` can be parsed into `num_limbs` limbs: it is not empty and
/// does not hold more limbs than that.
pub open spec fn fits_in_limbs(bytes: Seq<u8>, num_limbs: nat) -> bool {
    0 < bytes.len() && limbs_for_bytes(bytes.len()) <= num_limbs
}

/// The byte of `limb` with weight `256^k`.
pub open spec fn limb_byte(limb: Limb, k: nat) -> u8 {
    ((limb as nat / nat_pow(256, k)) % 256) as u8
}

impl LimbMask {
    /// The truth value that the mask stands for.
    pub open spec fn as_bool(self) -> bool {
        self == LimbMask::True
    }

    /// The mask for a truth value given as 1 or 0.
    fn from_bit(bit: Limb) -> (r: LimbMask)
        requires
            bit <= 1,
        ensures
            r.as_bool() == (bit == 1),
    {
        if bit == 1 {
            LimbMask::True
        } else {
            LimbMask::False
        }
    }
}

/// Whether `a` is less than `b` as a number.
///
/// Every limb of both is visited, whatever they hold.
pub fn limbs_less_than_limbs_consttime(a: &[Limb], b: &[Limb]) -> (r: LimbMask)
    requires
        a@.len() == b@.len(),
    ensures
        r.as_bool() == (limbs_value(a@) < limbs_value(b@)),
{
    let n = a.len();
    let mut borrow: Limb = 0;
    for i in 0..n
        invariant
            n == a@.len(),
            n == b@.len(),
            borrow <= 1,
            borrow == 1 <==> limbs_value(a@.take(i as int)) < limbs_value(b@.take(i as int)),
    {
        proof {
            lemma_value_less_step(a@, b@, i as int);
        }
        let (_, borrow_out) = sub_with_borrow(a[i], b[i], borrow);
        borrow = borrow_out;
    }
    proof {
        lemma_value_take_all(a@);
        lemma_value_take_all(b@);
    }
    LimbMask::from_bit(borrow)
}

/// Whether every limb of `limbs` is zero.
///
/// Every limb is visited, whatever it holds.
pub fn limbs_are_zero_constant_time(limbs: &[Limb]) -> (r: LimbMask)
    ensures
        r.as_bool() == (forall|i: int| 0 <= i < limbs@.len() ==> limbs@[i] == 0),
        r.as_bool() == (limbs_value(limbs@) == 0),
{
    LimbMask::from_bit(limbs_are_zero_bit(limbs))
}

/// 1 if every limb of `limbs` is zero, else 0.
pub fn limbs_are_zero_bit(limbs: &[Limb]) -> (bit: Limb)
    ensures
        bit <= 1,
        bit == 1 <==> (forall|i: int| 0 <= i < limbs@.len() ==> limbs@[i] == 0),
        bit == 1 <==> limbs_value(limbs@) == 0,
{
    let n = limbs.len();
    let mut accumulated: Limb = 0;
    for i in 0..n
        invariant
            n == limbs@.len(),
            accumulated == 0 <==> (forall|j: int| 0 <= j < i ==> limbs@[j] == 0),
    {
        accumulated = either(accumulated, limbs[i]);
    }
    proof {
        lemma_value_zero(limbs@);
    }
    is_zero_bit(accumulated)
}

/// Whether `a` as a number is the single limb `b`.
///
/// Every limb of `a` is visited, whatever it holds.
pub fn limbs_equal_limb_constant_time(a: &[Limb], b: Limb) -> (r: LimbMask)
    ensures
        r.as_bool() == (limbs_value(a@) == b),
{
    let n = a.len();
    if n == 0 {
        return LimbMask::from_bit(is_zero_bit(b));
    }
    let mut accumulated: Limb = difference(a[0], b);
    proof {
        lemma_value_take_step(a@, 0);
        lemma_weight_step(0);
        assert(a@[0] as nat * 1 == a@[0]) by (nonlinear_arith);
    }
    for i in 1..n
        invariant
            n == a@.len(),
            accumulated == 0 <==> limbs_value(a@.take(i as int)) == b,
    {
        proof {
            lemma_value_take_step(a@, i as int);
            crate::limb_lemmas::lemma_value_bound(a@.take(i as int));
            lemma_weight_step(i as nat);
            lemma_pow_monotonic(limb_radix(), 1, i as nat);
            crate::math::lemma_pow_step(limb_radix(), 0);
            let top = a@[i as int] as nat;
            let w = limb_weight(i as nat);
            assert(top == 0 ==> top * w == 0) by (nonlinear_arith);
            assert(top > 0 ==> top * w >= w) by (nonlinear_arith);
        }
        accumulated = either(accumulated, a[i]);
    }
    proof {
        lemma_value_take_all(a@);
    }
    LimbMask::from_bit(is_zero_bit(accumulated))
}

/// Shifting a byte into a limb that has room for it.
proof fn lemma_shift_in_byte(limb: Limb, b: u8)
    by (bit_vector)
    requires
        limb < 0x100_0000_0000_0000,
    ensures
        (limb << 8) | (b as Limb) == limb * 256 + b,
{
}

/// Sets every limb of `limbs` to zero.
pub fn limbs_clear(limbs: &mut [Limb])
    ensures
        final(limbs)@.len() == old(limbs)@.len(),
        forall|i: int| 0 <= i < final(limbs)@.len() ==> final(limbs)@[i] == 0,
{
    let n = limbs.len();
    for i in 0..n
        invariant
            n == limbs@.len(),
            forall|j: int| 0 <= j < i ==> limbs@[j] == 0,
    {
        limbs[i] = 0;
    }
}

/// Parses `input`, a big-endian number, into `result`, padding `result` with
/// zeros to its length.
///
/// Fails, leaving `result` as it was, when `input` is empty or holds more
/// limbs than `result` has room for. The work done depends on the two
/// lengths only, not on the bytes.
pub fn parse_big_endian_and_pad_consttime(input: untrusted::Input, result: &mut [Limb]) -> (r:
    Result<(), Unspecified>)
    ensures
        final(result)@.len() == old(result)@.len(),
        r is Ok <==> fits_in_limbs(input_bytes(input), old(result)@.len()),
        r is Ok ==> limbs_value(final(result)@) == big_endian_value(input_bytes(input)),
        r is Ok ==> final(result)@ == limbs_of_value(
            big_endian_value(input_bytes(input)),
            old(result)@.len(),
        ),
        r is Err ==> final(result)@ == old(result)@,
{
    assert(LIMB_BYTES == 8);
    if input.is_empty() {
        return Err(Unspecified);
    }
    // The number of bytes in the limb being read: all of `LIMB_BYTES` but
    // perhaps for the most significant limb.

    let mut bytes_in_current_limb = input.len() % LIMB_BYTES;
    if bytes_in_current_limb == 0 {
        bytes_in_current_limb = LIMB_BYTES;
    }
    let num_encoded_limbs = (input.len() / LIMB_BYTES) + (if bytes_in_current_limb == LIMB_BYTES {
        0
    } else {
        1
    });
    if num_encoded_limbs > result.len() {
        return Err(Unspecified);
    }
    limbs_clear(result);

    let ghost bytes = input_bytes(input);
    let ghost first = bytes_in_current_limb as int;
    let ghost mut consumed: int = 0;
    proof {
        lemma_value_zero(result@);
        lemma_weight_step(num_encoded_limbs as nat);
        assert(bytes.skip(0) =~= bytes);
        assert(0 * limb_weight(num_encoded_limbs as nat) == 0) by (nonlinear_arith);
    }
    let mut reader = untrusted::Reader::new(input);
    for i in 0..num_encoded_limbs
        invariant
            bytes == input_bytes(input),
            1 <= first <= 8,
            bytes.len() == first + 8 * (num_encoded_limbs - 1),
            num_encoded_limbs <= result@.len(),
            result@.len() == old(result)@.len(),
            consumed == (if i == 0 {
                0
            } else {
                first + 8 * (i - 1)
            }),
            bytes_in_current_limb == (if i == 0 {
                first
            } else {
                8
            }),
            reader_rest(reader) == bytes.skip(consumed),
            forall|j: int| 0 <= j < num_encoded_limbs - i ==> result@[j] == 0,
            limbs_value(result@) == big_endian_value(bytes.take(consumed)) * limb_weight(
                (num_encoded_limbs - i) as nat,
            ),
    {
        let mut limb: Limb = 0;
        proof {
            assert(bytes.subrange(consumed, consumed) =~= Seq::<u8>::empty());
            lemma_byte_radix();
        }
        for j in 0..bytes_in_current_limb
            invariant
                bytes_in_current_limb <= 8,
                0 <= consumed,
                consumed + bytes_in_current_limb <= bytes.len(),
                reader_rest(reader) == bytes.skip(consumed + j),
                limb == big_endian_value(bytes.subrange(consumed, consumed + j)),
                limb < nat_pow(256, j as nat),
        {
            let b = reader.read_byte()?;
            proof {
                let read = bytes.subrange(consumed, consumed + j);
                assert(b == bytes[consumed + j]);
                assert(bytes.subrange(consumed, consumed + j + 1) =~= read.push(b));
                lemma_big_endian_push(read, b);
                lemma_pow_monotonic(256, j as nat, 7);
                lemma_byte_radix();
                lemma_shift_in_byte(limb, b);
                crate::math::lemma_pow_step(256, j as nat);
                assert(bytes.skip(consumed + j).skip(1) =~= bytes.skip(consumed + j + 1));
            }
            limb = (limb << 8) | (b as Limb);
        }
        let ghost k = num_encoded_limbs - i - 1;
        proof {
            let high = bytes.take(consumed);
            let chunk = bytes.subrange(consumed, consumed + bytes_in_current_limb);
            assert(bytes.take(consumed + bytes_in_current_limb) =~= high + chunk);
            lemma_big_endian_concat(high, chunk);
            lemma_value_update(result@, k, limb);
            lemma_weight_step(k as nat);
            lemma_byte_radix();
            let h = big_endian_value(high);
            let w = limb_weight(k as nat);
            if i == 0 {
                assert(h == 0);
                assert(0 * nat_pow(256, chunk.len()) == 0) by (nonlinear_arith);
                assert(0 * limb_weight((k + 1) as nat) == 0) by (nonlinear_arith);
            } else {
                assert((h * limb_radix() + limb) * w == h * (limb_radix() * w) + limb * w)
                    by (nonlinear_arith);
            }
            assert(0 * w == 0) by (nonlinear_arith);
            consumed = consumed + bytes_in_current_limb;
        }
        result[num_encoded_limbs - i - 1] = limb;
        bytes_in_current_limb = LIMB_BYTES;
    }
    if !reader.at_end() {
        return Err(Unspecified);
    }
    proof {
        lemma_weight_step(0);
        assert(bytes.take(bytes.len() as int) =~= bytes);
        assert(big_endian_value(bytes) * 1 == big_endian_value(bytes)) by (nonlinear_arith);
        crate::limb_lemmas::lemma_limbs_of_value_unique(result@, big_endian_value(bytes));
    }
    Ok(())
}

/// Parses `input`, a big-endian number, into `result` as
/// `parse_big_endian_and_pad_consttime` does, and accepts it only if it is
/// less than `max_exclusive` and, unless `allow_zero` is `AllowZero::Yes`,
/// not zero.
///
/// Both tests are always made, so that the work done does not tell which of
/// them a rejected value failed.
pub fn parse_big_endian_in_range_and_pad_consttime(
    input: untrusted::Input,
    allow_zero: AllowZero,
    max_exclusive: &[Limb],
    result: &mut [Limb],
) -> (r: Result<(), Unspecified>)
    requires
        fits_in_limbs(input_bytes(input), old(result)@.len()) ==> max_exclusive@.len() == old(
            result,
        )@.len(),
    ensures
        final(result)@.len() == old(result)@.len(),
        r is Ok <==> {
            &&& fits_in_limbs(input_bytes(input), old(result)@.len())
            &&& big_endian_value(input_bytes(input)) < limbs_value(max_exclusive@)
            &&& allow_zero == AllowZero::Yes || big_endian_value(input_bytes(input)) != 0
        },
        fits_in_limbs(input_bytes(input), old(result)@.len()) ==> {
            &&& limbs_value(final(result)@) == big_endian_value(input_bytes(input))
            &&& final(result)@ == limbs_of_value(
                big_endian_value(input_bytes(input)),
                old(result)@.len(),
            )
        },
        !fits_in_limbs(input_bytes(input), old(result)@.len()) ==> final(result)@ == old(
            result,
        )@,
{
    parse_big_endian_and_pad_consttime(input, result)?;
    let in_range = limbs_less_than_limbs_consttime(result, max_exclusive);
    let is_zero = limbs_are_zero_constant_time(result);
    if in_range == LimbMask::True && (allow_zero == AllowZero::Yes || is_zero == LimbMask::False) {
        Ok(())
    } else {
        Err(Unspecified)
    }
}

/// The eight bytes of `limb`, most significant first.
fn limb_to_big_endian(limb: Limb) -> (r: [u8; 8])
    ensures
        big_endian_value(r@) == limb,
{
    let b7 = (limb % 256) as u8;
    let rest = limb / 256;
    let b6 = (rest % 256) as u8;
    let rest = rest / 256;
    let b5 = (rest % 256) as u8;
    let rest = rest / 256;
    let b4 = (rest % 256) as u8;
    let rest = rest / 256;
    let b3 = (rest % 256) as u8;
    let rest = rest / 256;
    let b2 = (rest % 256) as u8;
    let rest = rest / 256;
    let b1 = (rest % 256) as u8;
    let rest = rest / 256;
    let b0 = (rest % 256) as u8;
    let r = [b0, b1, b2, b3, b4, b5, b6, b7];
    proof {
        let s = r@;
        let s7 = s.drop_last();
        let s6 = s7.drop_last();
        let s5 = s6.drop_last();
        let s4 = s5.drop_last();
        let s3 = s4.drop_last();
        let s2 = s3.drop_last();
        let s1 = s2.drop_last();
        let s0 = s1.drop_last();
        assert(s0.len() == 0);
        assert(big_endian_value(s0) == 0);
        assert(big_endian_value(s1) == 256 * big_endian_value(s0) + b0);
        assert(big_endian_value(s2) == 256 * big_endian_value(s1) + b1);
        assert(big_endian_value(s3) == 256 * big_endian_value(s2) + b2);
        assert(big_endian_value(s4) == 256 * big_endian_value(s3) + b3);
        assert(big_endian_value(s5) == 256 * big_endian_value(s4) + b4);
        assert(big_endian_value(s6) == 256 * big_endian_value(s5) + b5);
        assert(big_endian_value(s7) == 256 * big_endian_value(s6) + b6);
        assert(big_endian_value(s) == 256 * big_endian_value(s7) + b7);
    }
    r
}

/// Writes the number that `limbs` stands for into `out`, most significant byte
/// first, zero-padded to the length of `out`.
pub fn big_endian_from_limbs(limbs: &[Limb], out: &mut [u8])
    requires
        old(out)@.len() == limbs@.len() * LIMB_BYTES,
    ensures
        final(out)@.len() == old(out)@.len(),
        final(out)@ == big_endian_bytes(limbs_value(limbs@), old(out)@.len()),
        big_endian_value(final(out)@) == limbs_value(limbs@),
{
    let num_limbs = limbs.len();
    let out_len = out.len();
    proof {
        assert(out@.take(0) =~= Seq::<u8>::empty());
        assert(limbs@.skip(num_limbs as int) =~= Seq::<Limb>::empty());
    }
    for i in 0..num_limbs
        invariant
            num_limbs == limbs@.len(),
            out@.len() == num_limbs * 8,
            out_len == num_limbs * 8,
            big_endian_value(out@.take(8 * i)) == limbs_value(limbs@.skip(num_limbs - i)),
    {
        let k = num_limbs - 1 - i;
        let bytes = limb_to_big_endian(limbs[k]);
        let ghost before = out@;
        for j in 0..8usize
            invariant
                i < num_limbs,
                out@.len() == num_limbs * 8,
                out_len == num_limbs * 8,
                out@.take(8 * i) == before.take(8 * i),
                forall|t: int| 0 <= t < j ==> out@[8 * i + t] == bytes@[t],
        {
            out[i * 8 + j] = bytes[j];
            proof {
                assert(out@.take(8 * i) =~= before.take(8 * i));
            }
        }
        proof {
            let high = out@.take(8 * i);
            assert(out@.take(8 * (i + 1)) =~= high + bytes@);
            lemma_big_endian_concat(high, bytes@);
            lemma_byte_radix();
            let top = limbs@.skip(k + 1);
            let one = seq![limbs@[k as int]];
            assert(limbs@.skip(k as int) =~= one + top);
            crate::limb_lemmas::lemma_value_concat(one, top);
            assert(one.drop_last() =~= Seq::<Limb>::empty());
            assert(limbs_value(one.drop_last()) == 0);
            assert(one.last() == limbs@[k as int]);
            lemma_weight_step(0);
            crate::math::lemma_pow_step(limb_radix(), 0);
            assert(limbs_value(one) == limbs@[k as int]) by (nonlinear_arith)
                requires
                    limbs_value(one) == 0 + limbs@[k as int] as nat * limb_weight(0),
                    limb_weight(0) == 1,
            ;
            assert(limb_weight(1) == limb_radix()) by (nonlinear_arith)
                requires
                    limb_weight(1) == limb_radix() * limb_weight(0),
                    limb_weight(0) == 1,
            ;
            assert(big_endian_value(high) * limb_radix() == limb_radix() * limbs_value(top))
                by (nonlinear_arith)
                requires
                    big_endian_value(high) == limbs_value(top),
            ;
        }
    }
    proof {
        assert(out@.take(8 * num_limbs) =~= out@);
        assert(limbs@.skip(0) =~= limbs@);
        crate::limb_lemmas::lemma_big_endian_bytes_unique(out@, limbs_value(limbs@));
    }
}

/// Two limb arrays of one length that stand for the same number are equal:
/// the length and the number pin down what a parser hands back.
pub proof fn limbs_value_is_injective(a: Seq<Limb>, b: Seq<Limb>)
    requires
        a.len() == b.len(),
        limbs_value(a) == limbs_value(b),
    ensures
        a == b,
{
    crate::limb_lemmas::lemma_value_injective(a, b);
}

/// A limb array is the limbs of the number that it stands for.
pub proof fn limbs_round_trip(limbs: Seq<Limb>)
    ensures
        limbs_of_value(limbs_value(limbs), limbs.len()) == limbs,
{
    crate::limb_lemmas::lemma_limbs_of_value_unique(limbs, limbs_value(limbs));
}

/// Two byte strings of one length that stand for the same number are equal.
pub proof fn big_endian_value_is_injective(a: Seq<u8>, b: Seq<u8>)
    requires
        a.len() == b.len(),
        big_endian_value(a) == big_endian_value(b),
    ensures
        a == b,
{
    crate::limb_lemmas::lemma_big_endian_injective(a, b);
}

/// Parsing and then encoding gives the bytes back: the number that a byte
/// string stands for, written in as many bytes, is the byte string.
pub proof fn big_endian_round_trip(bytes: Seq<u8>)
    ensures
        big_endian_bytes(big_endian_value(bytes), bytes.len()) == bytes,
{
    crate::limb_lemmas::lemma_big_endian_bytes_unique(bytes, big_endian_value(bytes));
}

/// Encoding and then parsing gives the number back, if it fits in the bytes.
pub proof fn big_endian_bytes_value(value: nat, len: nat)
    requires
        value < nat_pow(256, len),
    ensures
        big_endian_bytes(value, len).len() == len,
        big_endian_value(big_endian_bytes(value, len)) == value,
{
    crate::limb_lemmas::lemma_big_endian_bytes_value(value, len);
}

/// The bytes of `src` as they lie in memory on a little-endian machine: limb
/// after limb, each least significant byte first.
pub fn limbs_as_bytes(src: &[Limb]) -> (r: Vec<u8>)
    ensures
        r@.len() == src@.len() * LIMB_BYTES,
        forall|i: int| 0 <= i < r@.len() ==> r@[i] == limb_byte(src@[i / 8], (i % 8) as nat),
{
    let n = src.len();
    let mut r: Vec<u8> = Vec::new();
    for i in 0..n
        invariant
            n == src@.len(),
            r@.len() == i * 8,
            forall|t: int| 0 <= t < r@.len() ==> r@[t] == limb_byte(src@[t / 8], (t % 8) as nat),
    {
        let limb = src[i];
        let mut rest = limb;
        proof {
            lemma_byte_radix();
        }
        for j in 0..8usize
            invariant
                limb == src@[i as int],
                i < n,
                n == src@.len(),
                r@.len() == i * 8 + j,
                rest == limb as nat / nat_pow(256, j as nat),
                forall|t: int|
                    0 <= t < r@.len() ==> r@[t] == limb_byte(src@[t / 8], (t % 8) as nat),
        {
            proof {
                crate::math::lemma_pow_step(256, j as nat);
                crate::math::lemma_pow_positive(256, j as nat);
                vstd::arithmetic::div_mod::lemma_div_denominator(
                    limb as int,
                    nat_pow(256, j as nat) as int,
                    256,
                );
            }
            r.push((rest % 256) as u8);
            rest = rest / 256;
        }
    }
    r
}

} // verus!

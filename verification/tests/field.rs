use suite_b::arithmetic::montgomery::{Unencoded, R};
use suite_b::ec::suite_b::ops::p384::{common_ops, private_key_ops, public_key_ops, scalar_ops};
use suite_b::ec::suite_b::ops::{
    elem_parse_big_endian_fixed_consttime, elem_sqr_mul, elem_sqr_mul_acc,
    scalar_parse_big_endian_fixed_consttime, Elem, Scalar,
};
use suite_b::error::Unspecified;
use suite_b::limb::big_endian_from_limbs;

const Q: &str = "fffffffffffffffffffffffffffffffffffffffffffffffffffffffffffffffeffffffff0000000000000000ffffffff";
const Q_MINUS_1: &str = "fffffffffffffffffffffffffffffffffffffffffffffffffffffffffffffffeffffffff0000000000000000fffffffe";
const N: &str = "ffffffffffffffffffffffffffffffffffffffffffffffffc7634d81f4372ddf581a0db248b0a77aecec196accc52973";
const N_MINUS_1: &str = "ffffffffffffffffffffffffffffffffffffffffffffffffc7634d81f4372ddf581a0db248b0a77aecec196accc52972";

fn field_bytes(hex: &str) -> Vec<u8> {
    assert_eq!(hex.len() % 2, 0);
    (0..hex.len() / 2)
        .map(|i| u8::from_str_radix(&hex[2 * i..2 * i + 2], 16).unwrap())
        .collect()
}

fn small(value: u8) -> Vec<u8> {
    let mut bytes = vec![0u8; 48];
    bytes[47] = value;
    bytes
}

fn encode(bytes: &[u8]) -> Elem<R> {
    let ops = public_key_ops();
    let mut reader = untrusted::Reader::new(untrusted::Input::from(bytes));
    match ops.elem_parse(&mut reader) {
        Ok(e) => e,
        Err(_) => panic!("not a field element"),
    }
}

fn decode(e: &Elem<R>) -> Vec<u8> {
    let ops = common_ops();
    let plain: Elem<Unencoded> = ops.elem_unencoded(e);
    let mut out = vec![0u8; 48];
    big_endian_from_limbs(&plain.limbs[..6], &mut out);
    out
}

#[test]
fn table_has_six_limbs() {
    assert_eq!(common_ops().num_limbs, 6);
    assert_eq!(private_key_ops().common.num_limbs, 6);
}

#[test]
fn elem_parse_fixed_accepts_zero() {
    let ops = common_ops();
    let bytes = [0u8; 48];
    match elem_parse_big_endian_fixed_consttime(&ops, untrusted::Input::from(&bytes)) {
        Ok(e) => assert_eq!(e.limbs, [0; 6]),
        Err(_) => panic!("zero is a field element"),
    }
}

#[test]
fn elem_parse_fixed_accepts_the_largest_element() {
    let ops = common_ops();
    let bytes = field_bytes(Q_MINUS_1);
    match elem_parse_big_endian_fixed_consttime(&ops, untrusted::Input::from(&bytes)) {
        Ok(e) => {
            assert_eq!(
                e.limbs,
                [
                    0x00000000fffffffe,
                    0xffffffff00000000,
                    0xfffffffffffffffe,
                    0xffffffffffffffff,
                    0xffffffffffffffff,
                    0xffffffffffffffff
                ]
            );
            let mut out = [0u8; 48];
            big_endian_from_limbs(&e.limbs[..6], &mut out);
            assert_eq!(&out[..], &bytes[..]);
        }
        Err(_) => panic!("q - 1 is a field element"),
    }
}

#[test]
fn elem_parse_fixed_round_trips() {
    let ops = common_ops();
    for seed in 0..20u8 {
        let mut bytes: Vec<u8> = (0..48u32).map(|i| (i as u8).wrapping_mul(37).wrapping_add(seed)).collect();
        bytes[0] &= 0x7f;
        match elem_parse_big_endian_fixed_consttime(&ops, untrusted::Input::from(&bytes)) {
            Ok(e) => {
                let mut out = [0u8; 48];
                big_endian_from_limbs(&e.limbs[..6], &mut out);
                assert_eq!(&out[..], &bytes[..]);
            }
            Err(_) => panic!("below q"),
        }
    }
}

#[test]
fn elem_parse_fixed_rejects_the_modulus_and_above() {
    let ops = common_ops();
    let q = field_bytes(Q);
    assert!(elem_parse_big_endian_fixed_consttime(&ops, untrusted::Input::from(&q)).is_err());
    let all_ones = [0xffu8; 48];
    assert!(
        elem_parse_big_endian_fixed_consttime(&ops, untrusted::Input::from(&all_ones)).is_err()
    );
}

#[test]
fn elem_parse_fixed_rejects_other_lengths() {
    let ops = common_ops();
    for len in [0usize, 1, 47, 49, 96] {
        let bytes = vec![0u8; len];
        assert!(
            elem_parse_big_endian_fixed_consttime(&ops, untrusted::Input::from(&bytes)).is_err()
        );
    }
}

#[test]
fn scalar_parse_fixed_rejects_zero() {
    let ops = common_ops();
    let bytes = [0u8; 48];
    assert!(
        scalar_parse_big_endian_fixed_consttime(&ops, untrusted::Input::from(&bytes)).is_err()
    );
}

#[test]
fn scalar_parse_fixed_rejects_the_order_and_above() {
    let ops = common_ops();
    let n = field_bytes(N);
    assert!(scalar_parse_big_endian_fixed_consttime(&ops, untrusted::Input::from(&n)).is_err());
    let q = field_bytes(Q);
    assert!(scalar_parse_big_endian_fixed_consttime(&ops, untrusted::Input::from(&q)).is_err());
}

#[test]
fn scalar_parse_fixed_accepts_one_and_the_largest_scalar() {
    let ops = common_ops();
    let one = small(1);
    match scalar_parse_big_endian_fixed_consttime(&ops, untrusted::Input::from(&one)) {
        Ok(s) => assert_eq!(s.limbs, [1, 0, 0, 0, 0, 0]),
        Err(_) => panic!("one is a scalar"),
    }
    let largest = field_bytes(N_MINUS_1);
    match scalar_parse_big_endian_fixed_consttime(&ops, untrusted::Input::from(&largest)) {
        Ok(s) => assert_eq!(s.limbs[0], 0xecec196accc52972),
        Err(_) => panic!("n - 1 is a scalar"),
    }
}

#[test]
fn scalar_parse_fixed_rejects_other_lengths() {
    let ops = common_ops();
    let short = vec![1u8; 47];
    assert!(
        scalar_parse_big_endian_fixed_consttime(&ops, untrusted::Input::from(&short)).is_err()
    );
    let mut long = vec![0u8; 49];
    long[48] = 1;
    assert!(scalar_parse_big_endian_fixed_consttime(&ops, untrusted::Input::from(&long)).is_err());
}

#[test]
fn public_key_coordinate_is_read_and_encoded() {
    let ops = public_key_ops();
    let mut bytes = small(1);
    bytes.extend_from_slice(&[0xaa, 0xbb]);
    let mut reader = untrusted::Reader::new(untrusted::Input::from(&bytes));
    match ops.elem_parse(&mut reader) {
        // one in Montgomery form is R modulo q
        Ok(e) => assert_eq!(e.limbs, [0xffffffff00000001, 0x00000000ffffffff, 1, 0, 0, 0]),
        Err(_) => panic!("one is a coordinate"),
    }
    // exactly the 48 bytes were consumed
    assert_eq!(reader.read_byte(), Ok(0xaa));
    assert_eq!(reader.read_byte(), Ok(0xbb));
    assert!(reader.at_end());
}

#[test]
fn public_key_coordinate_needs_enough_bytes() {
    let ops = public_key_ops();
    let bytes = [0u8; 47];
    let mut reader = untrusted::Reader::new(untrusted::Input::from(&bytes));
    assert!(matches!(ops.elem_parse(&mut reader), Err(Unspecified)));
    // nothing was consumed
    assert!(!reader.at_end());
    assert!(reader.skip_and_get_input(47).is_ok());
}

#[test]
fn public_key_coordinate_must_be_below_the_modulus() {
    let ops = public_key_ops();
    let bytes = field_bytes(Q);
    let mut reader = untrusted::Reader::new(untrusted::Input::from(&bytes));
    assert!(ops.elem_parse(&mut reader).is_err());
    assert!(reader.at_end());
}

#[test]
fn montgomery_round_trip() {
    for seed in 0..10u8 {
        let mut bytes: Vec<u8> = (0..48u32).map(|i| (i as u8).wrapping_mul(101).wrapping_add(seed)).collect();
        bytes[0] &= 0x3f;
        let encoded = encode(&bytes);
        assert_eq!(decode(&encoded), bytes);
    }
    assert_eq!(decode(&encode(&field_bytes(Q_MINUS_1))), field_bytes(Q_MINUS_1));
    assert_eq!(decode(&encode(&[0u8; 48])), vec![0u8; 48]);
}

#[test]
fn field_addition_wraps_at_the_modulus() {
    let ops = common_ops();
    let mut a = encode(&field_bytes(Q_MINUS_1));
    ops.elem_add(&mut a, &encode(&small(1)));
    assert_eq!(decode(&a), small(0));
    ops.elem_add(&mut a, &encode(&small(5)));
    assert_eq!(decode(&a), small(5));
}

#[test]
fn field_subtraction_wraps_at_zero() {
    let ops = common_ops();
    let mut a = encode(&small(3));
    ops.elem_sub(&mut a, &encode(&small(5)));
    let mut expected = field_bytes(Q_MINUS_1);
    expected[47] -= 1;
    assert_eq!(decode(&a), expected);
    let mut b = encode(&small(9));
    ops.elem_sub(&mut b, &encode(&small(4)));
    assert_eq!(decode(&b), small(5));
}

#[test]
fn field_products() {
    let ops = common_ops();
    let six = encode(&small(6));
    let seven = encode(&small(7));
    assert_eq!(decode(&ops.elem_product(&six, &seven)), small(42));
    let mut a = six;
    ops.elem_mul(&mut a, &seven);
    assert_eq!(decode(&a), small(42));
    assert_eq!(decode(&ops.elem_squared(&seven)), small(49));
    let mut b = seven;
    ops.elem_square(&mut b);
    assert_eq!(decode(&b), small(49));
    // (q - 1)^2 = 1
    let minus_one = encode(&field_bytes(Q_MINUS_1));
    assert_eq!(decode(&ops.elem_squared(&minus_one)), small(1));
}

#[test]
fn field_equality_and_zero() {
    let ops = common_ops();
    let zero = encode(&small(0));
    let three = encode(&small(3));
    assert!(ops.is_zero(&zero));
    assert!(!ops.is_zero(&three));
    assert!(ops.elems_are_equal(&three, &encode(&small(3))));
    assert!(!ops.elems_are_equal(&three, &zero));
    assert_eq!(ops.elem_verify_is_not_zero(&zero), Err(Unspecified));
    assert_eq!(ops.elem_verify_is_not_zero(&three), Ok(()));
}

#[test]
fn is_zero_looks_at_scalars_too() {
    let ops = common_ops();
    let one = small(1);
    let s: Scalar = match scalar_parse_big_endian_fixed_consttime(&ops, untrusted::Input::from(&one)) {
        Ok(s) => s,
        Err(_) => panic!("one is a scalar"),
    };
    assert!(!ops.is_zero(&s));
}

#[test]
fn squarings_then_a_product() {
    let ops = common_ops();
    let two = encode(&small(2));
    let three = encode(&small(3));
    // 2^(2^3) * 3 = 768
    let mut expected = small(0);
    expected[46] = 3;
    assert_eq!(decode(&elem_sqr_mul(&ops, &two, 3, &three)), expected);
    let mut acc = two;
    elem_sqr_mul_acc(&ops, &mut acc, 3, &three);
    assert_eq!(decode(&acc), expected);
    // 3^2 * 2 = 18
    assert_eq!(decode(&elem_sqr_mul(&ops, &three, 1, &two)), small(18));
}

#[test]
fn inverse_squared_undoes_a_square() {
    let ops = private_key_ops();
    for value in [1u8, 2, 3, 200] {
        let a = encode(&small(value));
        let inverse = ops.elem_inverse_squared(&a);
        let square = ops.common.elem_squared(&a);
        assert_eq!(decode(&ops.common.elem_product(&square, &inverse)), small(1));
    }
    let a = encode(&field_bytes(Q_MINUS_1));
    assert_eq!(decode(&ops.elem_inverse_squared(&a)), small(1));
}

#[test]
fn scalar_products_modulo_the_order() {
    let ops = scalar_ops();
    let parse = |bytes: &[u8]| -> Scalar {
        match scalar_parse_big_endian_fixed_consttime(&ops.common, untrusted::Input::from(bytes)) {
            Ok(s) => s,
            Err(_) => panic!("a scalar"),
        }
    };
    // R * R modulo n, as a scalar: multiplying by it encodes.
    let rr = Scalar::<suite_b::arithmetic::montgomery::RR> {
        limbs: [
            0x2d319b2419b409a9,
            0xff3d81e5df1aa419,
            0xbc3e483afcb82947,
            0xd40d49174aab1cc5,
            0x3fb05b7a28266895,
            0x0c84ee012b39bf21,
        ],
        m: core::marker::PhantomData,
        encoding: core::marker::PhantomData,
    };
    let six = ops.scalar_product(&parse(&small(6)), &rr);
    let seven = ops.scalar_product(&parse(&small(7)), &rr);
    let product: Scalar<R> = ops.scalar_product(&six, &seven);
    let plain: Scalar<Unencoded> = ops.scalar_product(&product, &parse(&small(1)));
    assert_eq!(plain.limbs, [42, 0, 0, 0, 0, 0]);
    // (n - 1)^2 = 1 modulo n
    let minus_one = ops.scalar_product(&parse(&field_bytes(N_MINUS_1)), &rr);
    let square: Scalar<R> = ops.scalar_product(&minus_one, &minus_one);
    let plain: Scalar<Unencoded> = ops.scalar_product(&square, &parse(&small(1)));
    assert_eq!(plain.limbs, [1, 0, 0, 0, 0, 0]);
}

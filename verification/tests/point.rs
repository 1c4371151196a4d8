use suite_b::arithmetic::montgomery::{Unencoded, R};
use suite_b::ec::suite_b::ops::p384::{common_ops, private_key_ops, public_key_ops};
use suite_b::ec::suite_b::ops::{scalar_parse_big_endian_fixed_consttime, Elem, Point, Scalar};
use suite_b::ec::suite_b::private_key::{
    affine_from_jacobian, big_endian_affine_from_jacobian, verify_affine_point_is_on_the_curve,
};
use suite_b::limb::big_endian_from_limbs;

const GENERATOR_X: &str = "aa87ca22be8b05378eb1c71ef320ad746e1d3b628ba79b9859f741e082542a385502f25dbf55296c3a545e3872760ab7";
const GENERATOR_Y: &str = "3617de4a96262c6f5d9e98bf9292dc29f8f41dbd289a147ce9da3113b5f0b8c00a60b1ce1d7e819d7a431d7c90ea0e5f";
const TWICE_X: &str = "08d999057ba3d2d969260045c55b97f089025959a6f434d651d207d19fb96e9e4fe0e86ebe0e64f85b96a9c75295df61";
const TWICE_Y: &str = "8e80f1fa5b1b3cedb7bfe8dffd6dba74b275d875bc6cc43e904e505f256ab4255ffd43e94d39e22d61501e700a940e80";
const THRICE_X: &str = "077a41d4606ffa1464793c7e5fdc7d98cb9d3910202dcd06bea4f240d3566da6b408bbae5026580d02d7e5c70500c831";
const THRICE_Y: &str = "c995f7ca0b0c42837d0bbe9602a9fc998520b41c85115aa5f7684c0edc111eacc24abd6be4b5d298b65f28600a2f1df1";
const FIVE_X: &str = "11de24a2c251c777573cac5ea025e467f208e51dbff98fc54f6661cbe56583b037882f4a1ca297e60abcdbc3836d84bc";
const FIVE_Y: &str = "8fa696c77440f92d0f5837e90a00e7c5284b447754d5dee88c986533b6901aeb3177686d0ae8fb33184414abe6c1713a";
const TWELVE_X: &str = "952a7a349bd49289ab3ac421dcf683d08c2ed5e41f6d0e21648af2691a481406da4a5e22da817cb466da2ea77d2a7022";
const TWELVE_Y: &str = "a0320faf84b5bc0563052deae6f66f2e09fb8036ce18a0ebb9028b096196b50d031aa64589743e229ef6bacce21bd16e";
const ORDER_MINUS_1: &str = "ffffffffffffffffffffffffffffffffffffffffffffffffc7634d81f4372ddf581a0db248b0a77aecec196accc52972";
const MINUS_GENERATOR_Y: &str = "c9e821b569d9d390a26167406d6d23d6070be242d765eb831625ceec4a0f473ef59f4e30e2817e6285bce2846f15f1a0";
const SOME_SCALAR: &str = "0123456789abcdef0123456789abcdef0123456789abcdef0123456789abcdef0123456789abcdef0123456789abcdef";
const SOME_X: &str = "5c86a47f40f6edcd68ca1e3d112522dc8ac91ce4c10b743ad3e8e2538f30be488d50037a01b940ddc6df8d7465ae1626";
const SOME_Y: &str = "789e5cd6244c79a83bb7d3a3e7138eb9d1f216aafd215b9debc8950d86cc401a11ebc929d03e3aae321f375608aa3143";

fn point_bytes(hex: &str) -> Vec<u8> {
    assert_eq!(hex.len(), 96);
    (0..48)
        .map(|i| u8::from_str_radix(&hex[2 * i..2 * i + 2], 16).unwrap())
        .collect()
}

fn scalar_of(bytes: &[u8]) -> Scalar {
    match scalar_parse_big_endian_fixed_consttime(&common_ops(), untrusted::Input::from(bytes)) {
        Ok(s) => s,
        Err(_) => panic!("not a scalar"),
    }
}

fn small_scalar(value: u8) -> Scalar {
    let mut bytes = [0u8; 48];
    bytes[47] = value;
    scalar_of(&bytes)
}

fn coordinate(bytes: &[u8]) -> Elem<R> {
    let mut reader = untrusted::Reader::new(untrusted::Input::from(bytes));
    match public_key_ops().elem_parse(&mut reader) {
        Ok(e) => e,
        Err(_) => panic!("not a field element"),
    }
}

fn affine(p: &Point) -> (Vec<u8>, Vec<u8>) {
    let mut x = vec![0u8; 48];
    let mut y = vec![0u8; 48];
    match big_endian_affine_from_jacobian(&private_key_ops(), &mut x, &mut y, p) {
        Ok(()) => (x, y),
        Err(_) => panic!("no affine coordinates"),
    }
}

fn expect_point(p: &Point, x: &str, y: &str) {
    let (px, py) = affine(p);
    assert_eq!(px, point_bytes(x));
    assert_eq!(py, point_bytes(y));
}

#[test]
fn infinity_is_all_zero() {
    assert_eq!(Point::new_at_infinity().xyz, [0; 18]);
}

#[test]
fn one_times_the_generator() {
    let ops = private_key_ops();
    let g = ops.point_mul_base(&small_scalar(1));
    expect_point(&g, GENERATOR_X, GENERATOR_Y);
}

#[test]
fn small_multiples_of_the_generator() {
    let ops = private_key_ops();
    expect_point(&ops.point_mul_base(&small_scalar(2)), TWICE_X, TWICE_Y);
    expect_point(&ops.point_mul_base(&small_scalar(3)), THRICE_X, THRICE_Y);
    expect_point(&ops.point_mul_base(&small_scalar(5)), FIVE_X, FIVE_Y);
    expect_point(&ops.point_mul_base(&small_scalar(12)), TWELVE_X, TWELVE_Y);
}

#[test]
fn the_largest_scalar_gives_the_opposite_of_the_generator() {
    let ops = private_key_ops();
    let p = ops.point_mul_base(&scalar_of(&point_bytes(ORDER_MINUS_1)));
    expect_point(&p, GENERATOR_X, MINUS_GENERATOR_Y);
}

#[test]
fn a_scalar_that_fills_all_limbs() {
    let ops = private_key_ops();
    let p = ops.point_mul_base(&scalar_of(&point_bytes(SOME_SCALAR)));
    expect_point(&p, SOME_X, SOME_Y);
}

#[test]
fn multiplying_a_point_that_is_not_the_generator() {
    let ops = private_key_ops();
    let twice = (coordinate(&point_bytes(TWICE_X)), coordinate(&point_bytes(TWICE_Y)));
    // 6 * (2 * G) = 12 * G
    expect_point(&ops.point_mul(&small_scalar(6), &twice), TWELVE_X, TWELVE_Y);
}

#[test]
fn adding_infinity_changes_nothing() {
    let ops = private_key_ops();
    let p = ops.point_mul_base(&small_scalar(5));
    let infinity = Point::new_at_infinity();
    assert_eq!(ops.common.point_sum(&p, &infinity).xyz, p.xyz);
    assert_eq!(ops.common.point_sum(&infinity, &p).xyz, p.xyz);
    assert_eq!(ops.common.point_sum(&infinity, &infinity).xyz, infinity.xyz);
}

#[test]
fn adding_a_point_to_itself_doubles_it() {
    let ops = private_key_ops();
    let g = ops.point_mul_base(&small_scalar(1));
    let sum = ops.common.point_sum(&g, &g);
    assert_eq!(sum.xyz, ops.common.point_double(&g).xyz);
    expect_point(&sum, TWICE_X, TWICE_Y);
    // also where the two operands are written differently
    let three = ops.point_mul_base(&small_scalar(3));
    let also_three = ops.common.point_sum(&ops.common.point_double(&g), &g);
    let six = ops.common.point_sum(&three, &also_three);
    expect_point(&ops.common.point_double(&six), TWELVE_X, TWELVE_Y);
}

#[test]
fn adding_different_points() {
    let ops = private_key_ops();
    let two = ops.point_mul_base(&small_scalar(2));
    let three = ops.point_mul_base(&small_scalar(3));
    expect_point(&ops.common.point_sum(&two, &three), FIVE_X, FIVE_Y);
    expect_point(&ops.common.point_sum(&three, &two), FIVE_X, FIVE_Y);
}

#[test]
fn adding_opposite_points_gives_infinity() {
    let ops = private_key_ops();
    let g = ops.point_mul_base(&small_scalar(1));
    let minus_g = ops.point_mul_base(&scalar_of(&point_bytes(ORDER_MINUS_1)));
    let sum = ops.common.point_sum(&g, &minus_g);
    assert!(ops.common.is_zero(&ops.common.point_z(&sum)));
    assert_eq!(sum.xyz, [0; 18]);
    assert!(affine_from_jacobian(&ops, &sum).is_err());
}

#[test]
fn doubling_infinity_gives_infinity() {
    let ops = private_key_ops();
    assert_eq!(ops.common.point_double(&Point::new_at_infinity()).xyz, [0; 18]);
}

#[test]
fn coordinates_come_out_in_order() {
    let ops = private_key_ops();
    let mut p = Point::new_at_infinity();
    for i in 0..18 {
        p.xyz[i] = (i + 1) as u64;
    }
    assert_eq!(ops.common.point_x(&p).limbs, [1, 2, 3, 4, 5, 6]);
    assert_eq!(ops.common.point_y(&p).limbs, [7, 8, 9, 10, 11, 12]);
    assert_eq!(ops.common.point_z(&p).limbs, [13, 14, 15, 16, 17, 18]);
}

#[test]
fn curve_equation() {
    let ops = common_ops();
    let x = coordinate(&point_bytes(GENERATOR_X));
    let y = coordinate(&point_bytes(GENERATOR_Y));
    assert!(verify_affine_point_is_on_the_curve(&ops, &x, &y).is_ok());
    assert!(verify_affine_point_is_on_the_curve(&ops, &y, &x).is_err());
    let minus_y = coordinate(&point_bytes(MINUS_GENERATOR_Y));
    assert!(verify_affine_point_is_on_the_curve(&ops, &x, &minus_y).is_ok());
}

#[test]
fn affine_coordinates_of_a_point() {
    let ops = private_key_ops();
    let p = ops.point_mul_base(&small_scalar(3));
    match affine_from_jacobian(&ops, &p) {
        Ok((x, y)) => {
            let plain: Elem<Unencoded> = ops.common.elem_unencoded(&x);
            let mut out = [0u8; 48];
            big_endian_from_limbs(&plain.limbs[..6], &mut out);
            assert_eq!(&out[..], &point_bytes(THRICE_X)[..]);
            let plain: Elem<Unencoded> = ops.common.elem_unencoded(&y);
            big_endian_from_limbs(&plain.limbs[..6], &mut out);
            assert_eq!(&out[..], &point_bytes(THRICE_Y)[..]);
        }
        Err(_) => panic!("a finite point"),
    }
}

#[test]
fn infinity_has_no_affine_coordinates() {
    let ops = private_key_ops();
    let mut x = [7u8; 48];
    let mut y = [9u8; 48];
    assert!(
        big_endian_affine_from_jacobian(&ops, &mut x, &mut y, &Point::new_at_infinity()).is_err()
    );
    assert_eq!(x, [7u8; 48]);
    assert_eq!(y, [9u8; 48]);
}

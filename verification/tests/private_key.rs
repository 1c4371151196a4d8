use std::cell::Cell;
use suite_b::agreement::Algorithm;
use suite_b::ec::suite_b::curve::{
    check_private_key_bytes, generate_private_key, p384, public_from_private, Curve, CurveID,
    P384_ELEM_AND_SCALAR_LEN, P384_PUBLIC_KEY_LEN,
};
use suite_b::ec::suite_b::ops::p384::private_key_ops;
use suite_b::ec::suite_b::private_key;
use suite_b::ec::{AgreementAlgorithmImpl, PrivateKey, SCALAR_MAX_BYTES};
use suite_b::error::Unspecified;
use suite_b::rand::SecureRandom;

const GENERATOR: &str = "04aa87ca22be8b05378eb1c71ef320ad746e1d3b628ba79b9859f741e082542a385502f25dbf55296c3a545e3872760ab73617de4a96262c6f5d9e98bf9292dc29f8f41dbd289a147ce9da3113b5f0b8c00a60b1ce1d7e819d7a431d7c90ea0e5f";
const TWICE: &str = "0408d999057ba3d2d969260045c55b97f089025959a6f434d651d207d19fb96e9e4fe0e86ebe0e64f85b96a9c75295df618e80f1fa5b1b3cedb7bfe8dffd6dba74b275d875bc6cc43e904e505f256ab4255ffd43e94d39e22d61501e700a940e80";
const ORDER: &str = "ffffffffffffffffffffffffffffffffffffffffffffffffc7634d81f4372ddf581a0db248b0a77aecec196accc52973";

fn from_hex(hex: &str) -> Vec<u8> {
    (0..hex.len() / 2)
        .map(|i| u8::from_str_radix(&hex[2 * i..2 * i + 2], 16).unwrap())
        .collect()
}

fn key_of(value: u8) -> PrivateKey {
    let mut bytes = [0u8; SCALAR_MAX_BYTES];
    bytes[47] = value;
    PrivateKey { bytes }
}

/// Hands out the candidates it was made with, one for each call, and fails
/// when they are used up.
struct Replay {
    candidates: Vec<Vec<u8>>,
    next: Cell<usize>,
}

impl Replay {
    fn new(candidates: Vec<Vec<u8>>) -> Replay {
        Replay { candidates, next: Cell::new(0) }
    }
}

impl SecureRandom for Replay {
    fn fill(&self, dest: &mut [u8]) -> Result<(), Unspecified> {
        let at = self.next.get();
        if at >= self.candidates.len() {
            return Err(Unspecified);
        }
        self.next.set(at + 1);
        dest.copy_from_slice(&self.candidates[at][..dest.len()]);
        Ok(())
    }
}

/// Fills every buffer with the same byte.
struct Constant {
    byte: u8,
    calls: Cell<usize>,
}

impl SecureRandom for Constant {
    fn fill(&self, dest: &mut [u8]) -> Result<(), Unspecified> {
        self.calls.set(self.calls.get() + 1);
        for b in dest.iter_mut() {
            *b = self.byte;
        }
        Ok(())
    }
}

#[test]
fn lengths_of_p384() {
    assert_eq!(SCALAR_MAX_BYTES, 48);
    assert_eq!(P384_ELEM_AND_SCALAR_LEN, 48);
    assert_eq!(P384_PUBLIC_KEY_LEN, 97);
    assert_eq!(private_key::MAX_CANDIDATES, 100);
}

#[test]
fn the_zero_scalar_is_no_private_key() {
    let ops = private_key_ops();
    assert_eq!(private_key::check_scalar_big_endian_bytes(&ops, &[0u8; 48]), Err(Unspecified));
    assert_eq!(check_private_key_bytes(&[0u8; 48]), Err(Unspecified));
}

#[test]
fn the_scalar_one_is_a_private_key_of_the_generator() {
    let ops = private_key_ops();
    let key = key_of(1);
    assert_eq!(private_key::check_scalar_big_endian_bytes(&ops, &key.bytes), Ok(()));
    let mut public = [0u8; 97];
    assert_eq!(private_key::public_from_private(&ops, &mut public, &key), Ok(()));
    assert_eq!(&public[..], &from_hex(GENERATOR)[..]);
}

#[test]
fn the_public_key_of_two() {
    let mut public = [0u8; 97];
    assert_eq!(public_from_private(&mut public, &key_of(2)), Ok(()));
    assert_eq!(&public[..], &from_hex(TWICE)[..]);
}

#[test]
fn the_order_and_above_are_no_private_keys() {
    let ops = private_key_ops();
    let order = from_hex(ORDER);
    assert!(private_key::check_scalar_big_endian_bytes(&ops, &order).is_err());
    assert!(private_key::check_scalar_big_endian_bytes(&ops, &[0xff; 48]).is_err());
    let mut below = order.clone();
    below[47] -= 1;
    assert!(private_key::check_scalar_big_endian_bytes(&ops, &below).is_ok());
}

#[test]
fn a_private_key_has_the_length_of_a_scalar() {
    let ops = private_key_ops();
    assert!(private_key::check_scalar_big_endian_bytes(&ops, &[1u8; 47]).is_err());
    assert!(private_key::check_scalar_big_endian_bytes(&ops, &[1u8; 49]).is_err());
    assert!(private_key::check_scalar_big_endian_bytes(&ops, &[]).is_err());
    assert!(private_key::scalar_from_big_endian_bytes(&ops, &[1u8; 47]).is_err());
}

#[test]
fn scalar_of_bytes() {
    let ops = private_key_ops();
    let mut bytes = [0u8; 48];
    bytes[47] = 0x34;
    bytes[46] = 0x12;
    bytes[0] = 0x80;
    match private_key::scalar_from_big_endian_bytes(&ops, &bytes) {
        Ok(s) => assert_eq!(s.limbs, [0x1234, 0, 0, 0, 0, 0x8000000000000000]),
        Err(_) => panic!("in range"),
    }
    let key = PrivateKey { bytes };
    assert_eq!(
        private_key::private_key_as_scalar(&ops, &key).limbs,
        [0x1234, 0, 0, 0, 0, 0x8000000000000000]
    );
}

#[test]
fn a_candidate_in_range_becomes_the_key() {
    let ops = private_key_ops();
    let mut candidate = [0x5au8; 48];
    candidate[0] = 0x10;
    match private_key::private_key_from_candidate(&ops, candidate) {
        Ok(key) => assert_eq!(key.bytes, candidate),
        Err(_) => panic!("in range"),
    }
    assert!(private_key::private_key_from_candidate(&ops, [0xff; 48]).is_err());
    assert!(private_key::private_key_from_candidate(&ops, [0; 48]).is_err());
}

#[test]
fn generation_takes_the_first_candidate_in_range() {
    let ops = private_key_ops();
    let good: Vec<u8> = (0..48).map(|i| (i * 5 + 1) as u8).collect();
    let rng = Replay::new(vec![vec![0xff; 48], vec![0; 48], from_hex(ORDER), good.clone(), vec![1; 48]]);
    match private_key::generate_private_key(&ops, &rng) {
        Ok(key) => assert_eq!(&key.bytes[..], &good[..]),
        Err(_) => panic!("the fourth candidate is in range"),
    }
    assert_eq!(rng.next.get(), 4);
}

#[test]
fn generation_from_the_same_bytes_gives_the_same_keys() {
    let candidates = vec![vec![0xff; 48], (0..48).map(|i| (200 - i) as u8).collect::<Vec<u8>>()];
    let first = match generate_private_key(&Replay::new(candidates.clone())) {
        Ok(key) => key,
        Err(_) => panic!("the second candidate is in range"),
    };
    let second = match generate_private_key(&Replay::new(candidates)) {
        Ok(key) => key,
        Err(_) => panic!("the second candidate is in range"),
    };
    assert_eq!(first.bytes, second.bytes);
    let mut public_first = [0u8; 97];
    let mut public_second = [0u8; 97];
    assert_eq!(public_from_private(&mut public_first, &first), Ok(()));
    assert_eq!(public_from_private(&mut public_second, &second), Ok(()));
    assert_eq!(&public_first[..], &public_second[..]);
    assert_eq!(public_first[0], 4);
}

#[test]
fn generation_fails_when_the_source_fails() {
    let ops = private_key_ops();
    let rng = Replay::new(vec![vec![0xff; 48]]);
    assert!(private_key::generate_private_key(&ops, &rng).is_err());
    assert!(private_key::generate_private_key(&ops, &Replay::new(vec![])).is_err());
}

#[test]
fn generation_gives_up_after_its_limit() {
    let ops = private_key_ops();
    let rng = Constant { byte: 0xff, calls: Cell::new(0) };
    assert!(private_key::generate_private_key(&ops, &rng).is_err());
    assert_eq!(rng.calls.get(), 100);
    let rng = Constant { byte: 0, calls: Cell::new(0) };
    assert!(private_key::generate_private_key(&ops, &rng).is_err());
    assert_eq!(rng.calls.get(), 100);
}

#[test]
fn curve_of_p384() {
    let curve: Curve = p384();
    assert_eq!(curve.id, CurveID::P384);
    assert!(curve.check_private_key_bytes(&[0u8; 48]).is_err());
    assert!(curve.check_private_key_bytes(&key_of(1).bytes).is_ok());
    let rng = Constant { byte: 0x42, calls: Cell::new(0) };
    let key = match curve.generate_private_key(&rng) {
        Ok(key) => key,
        Err(_) => panic!("in range"),
    };
    assert_eq!(key.bytes, [0x42; 48]);
    let mut public = [0u8; 97];
    assert_eq!(curve.public_from_private(&mut public, &key_of(1)), Ok(()));
    assert_eq!(&public[..], &from_hex(GENERATOR)[..]);
}

#[test]
fn algorithms_compare_by_their_curve() {
    let a = Algorithm { i: AgreementAlgorithmImpl { curve: p384() } };
    let b = Algorithm { i: AgreementAlgorithmImpl { curve: p384() } };
    assert!(a == b);
}

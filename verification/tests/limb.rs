use suite_b::error::Unspecified;
use suite_b::limb::{
    big_endian_from_limbs, limbs_are_zero_constant_time, limbs_as_bytes,
    limbs_equal_limb_constant_time, limbs_less_than_limbs_consttime,
    parse_big_endian_and_pad_consttime, parse_big_endian_in_range_and_pad_consttime, AllowZero,
    Limb, LimbMask, LIMB_BITS, LIMB_BYTES,
};

fn wide(limbs: &[Limb; 2]) -> u128 {
    (limbs[0] as u128) | ((limbs[1] as u128) << 64)
}

fn narrow(v: u128) -> [Limb; 2] {
    [v as u64, (v >> 64) as u64]
}

#[test]
fn limb_width() {
    assert_eq!(LIMB_BITS, 64);
    assert_eq!(LIMB_BYTES, 8);
}

#[test]
fn are_zero_of_no_limbs() {
    assert_eq!(limbs_are_zero_constant_time(&[]), LimbMask::True);
}

#[test]
fn are_zero_of_zero_limbs_of_every_length() {
    for len in 1..10 {
        let limbs = vec![0 as Limb; len];
        assert_eq!(limbs_are_zero_constant_time(&limbs), LimbMask::True);
    }
}

#[test]
fn are_zero_sees_one_bit_in_any_limb() {
    for len in 1..8 {
        for at in 0..len {
            for bit in [0u32, 1, 31, 32, 63] {
                let mut limbs = vec![0 as Limb; len];
                limbs[at] = 1 << bit;
                assert_eq!(limbs_are_zero_constant_time(&limbs), LimbMask::False);
            }
        }
    }
}

#[test]
fn less_than_on_equal_numbers() {
    assert_eq!(limbs_less_than_limbs_consttime(&[], &[]), LimbMask::False);
    assert_eq!(limbs_less_than_limbs_consttime(&[5], &[5]), LimbMask::False);
    assert_eq!(
        limbs_less_than_limbs_consttime(&[u64::MAX, u64::MAX], &[u64::MAX, u64::MAX]),
        LimbMask::False
    );
}

#[test]
fn less_than_on_neighbours() {
    assert_eq!(limbs_less_than_limbs_consttime(&[4], &[5]), LimbMask::True);
    assert_eq!(limbs_less_than_limbs_consttime(&[5], &[4]), LimbMask::False);
    // the borrow runs through a limb of zeros
    assert_eq!(limbs_less_than_limbs_consttime(&[u64::MAX, 0], &[0, 1]), LimbMask::True);
    assert_eq!(limbs_less_than_limbs_consttime(&[0, 1], &[u64::MAX, 0]), LimbMask::False);
}

#[test]
fn less_than_lets_the_top_limb_decide() {
    assert_eq!(limbs_less_than_limbs_consttime(&[9, 1], &[0, 2]), LimbMask::True);
    assert_eq!(limbs_less_than_limbs_consttime(&[0, 2], &[9, 1]), LimbMask::False);
    assert_eq!(
        limbs_less_than_limbs_consttime(&[u64::MAX, u64::MAX, 0], &[0, 0, 1]),
        LimbMask::True
    );
}

#[test]
fn less_than_agrees_with_wide_integers() {
    let mut state: u128 = 0x0123_4567_89ab_cdef_0f1e_2d3c_4b5a_6978;
    let mut samples: Vec<u128> = vec![0, 1, u64::MAX as u128, 1 << 64, u128::MAX - 1, u128::MAX];
    for _ in 0..40 {
        state = state.wrapping_mul(0x2545_f491_4f6c_dd1d_2545_f491_4f6c_dd1d).wrapping_add(0x9e37_79b9);
        state ^= state >> 29;
        samples.push(state);
    }
    for &a in &samples {
        for &b in &samples {
            let expected = if a < b { LimbMask::True } else { LimbMask::False };
            assert_eq!(limbs_less_than_limbs_consttime(&narrow(a), &narrow(b)), expected);
            assert_eq!(wide(&narrow(a)), a);
        }
    }
}

#[test]
fn equal_limb_compares_the_whole_number() {
    assert_eq!(limbs_equal_limb_constant_time(&[7], 7), LimbMask::True);
    assert_eq!(limbs_equal_limb_constant_time(&[7, 0, 0], 7), LimbMask::True);
    assert_eq!(limbs_equal_limb_constant_time(&[7, 0, 1], 7), LimbMask::False);
    assert_eq!(limbs_equal_limb_constant_time(&[6, 0, 0], 7), LimbMask::False);
    assert_eq!(limbs_equal_limb_constant_time(&[], 0), LimbMask::True);
    assert_eq!(limbs_equal_limb_constant_time(&[], 1), LimbMask::False);
}

#[test]
fn as_bytes_is_little_endian_limb_by_limb() {
    let bytes = limbs_as_bytes(&[0x0102030405060708, 0x1112131415161718]);
    assert_eq!(
        bytes,
        vec![8, 7, 6, 5, 4, 3, 2, 1, 0x18, 0x17, 0x16, 0x15, 0x14, 0x13, 0x12, 0x11]
    );
    assert_eq!(limbs_as_bytes(&[]), Vec::<u8>::new());
}

#[test]
fn parse_fills_limbs_from_the_least_significant_end() {
    let mut result = [0xdead as Limb; 3];
    let input = untrusted::Input::from(&[1, 2, 3, 4, 5, 6, 7, 8, 9]);
    assert_eq!(parse_big_endian_and_pad_consttime(input, &mut result), Ok(()));
    assert_eq!(result, [0x0203040506070809, 0x01, 0]);
}

#[test]
fn parse_of_whole_limbs() {
    let mut result = [0xdead as Limb; 2];
    let bytes = [
        0x11, 0x22, 0x33, 0x44, 0x55, 0x66, 0x77, 0x88, 0x99, 0xaa, 0xbb, 0xcc, 0xdd, 0xee, 0xff,
        0x01,
    ];
    assert_eq!(
        parse_big_endian_and_pad_consttime(untrusted::Input::from(&bytes), &mut result),
        Ok(())
    );
    assert_eq!(result, [0x99aabbccddeeff01, 0x1122334455667788]);
}

#[test]
fn parse_of_one_byte() {
    let mut result = [0xdead as Limb; 1];
    assert_eq!(
        parse_big_endian_and_pad_consttime(untrusted::Input::from(&[0xab]), &mut result),
        Ok(())
    );
    assert_eq!(result, [0xab]);
}

#[test]
fn parse_rejects_empty_input() {
    let mut result = [0xdead as Limb; 2];
    assert_eq!(
        parse_big_endian_and_pad_consttime(untrusted::Input::from(&[]), &mut result),
        Err(Unspecified)
    );
    assert_eq!(result, [0xdead, 0xdead]);
}

#[test]
fn parse_rejects_more_limbs_than_fit() {
    let mut result = [0xdead as Limb; 1];
    let bytes = [0u8; 9];
    assert_eq!(
        parse_big_endian_and_pad_consttime(untrusted::Input::from(&bytes), &mut result),
        Err(Unspecified)
    );
    assert_eq!(result, [0xdead]);
    let mut none: [Limb; 0] = [];
    assert_eq!(
        parse_big_endian_and_pad_consttime(untrusted::Input::from(&[1]), &mut none),
        Err(Unspecified)
    );
}

#[test]
fn parse_in_range_accepts_below_the_bound() {
    let mut result = [0 as Limb; 2];
    let max = [10 as Limb, 0];
    assert_eq!(
        parse_big_endian_in_range_and_pad_consttime(
            untrusted::Input::from(&[9]),
            AllowZero::No,
            &max,
            &mut result
        ),
        Ok(())
    );
    assert_eq!(result, [9, 0]);
}

#[test]
fn parse_in_range_rejects_the_bound_and_above() {
    let max = [10 as Limb, 0];
    for value in [10u8, 11, 255] {
        let mut result = [0 as Limb; 2];
        assert_eq!(
            parse_big_endian_in_range_and_pad_consttime(
                untrusted::Input::from(&[value]),
                AllowZero::Yes,
                &max,
                &mut result
            ),
            Err(Unspecified)
        );
    }
    let mut result = [0 as Limb; 2];
    assert_eq!(
        parse_big_endian_in_range_and_pad_consttime(
            untrusted::Input::from(&[1, 0, 0, 0, 0, 0, 0, 0, 0]),
            AllowZero::Yes,
            &max,
            &mut result
        ),
        Err(Unspecified)
    );
}

#[test]
fn parse_in_range_takes_zero_only_where_allowed() {
    let max = [10 as Limb];
    let mut result = [7 as Limb; 1];
    assert_eq!(
        parse_big_endian_in_range_and_pad_consttime(
            untrusted::Input::from(&[0, 0]),
            AllowZero::Yes,
            &max,
            &mut result
        ),
        Ok(())
    );
    assert_eq!(result, [0]);
    assert_eq!(
        parse_big_endian_in_range_and_pad_consttime(
            untrusted::Input::from(&[0, 0]),
            AllowZero::No,
            &max,
            &mut result
        ),
        Err(Unspecified)
    );
}

#[test]
fn parse_in_range_rejects_what_does_not_parse() {
    let max = [10 as Limb];
    let mut result = [7 as Limb; 1];
    assert_eq!(
        parse_big_endian_in_range_and_pad_consttime(
            untrusted::Input::from(&[]),
            AllowZero::Yes,
            &max,
            &mut result
        ),
        Err(Unspecified)
    );
    assert_eq!(result, [7]);
}

#[test]
fn big_endian_from_limbs_writes_most_significant_first() {
    let mut out = [0u8; 16];
    big_endian_from_limbs(&[0x99aabbccddeeff01, 0x1122334455667788], &mut out);
    assert_eq!(
        out,
        [
            0x11, 0x22, 0x33, 0x44, 0x55, 0x66, 0x77, 0x88, 0x99, 0xaa, 0xbb, 0xcc, 0xdd, 0xee,
            0xff, 0x01
        ]
    );
}

#[test]
fn parse_then_encode_gives_the_bytes_back() {
    let bytes: Vec<u8> = (0..24).map(|i| (i * 11 + 3) as u8).collect();
    let mut limbs = [0 as Limb; 3];
    assert_eq!(
        parse_big_endian_and_pad_consttime(untrusted::Input::from(&bytes), &mut limbs),
        Ok(())
    );
    let mut out = [0u8; 24];
    big_endian_from_limbs(&limbs, &mut out);
    assert_eq!(&out[..], &bytes[..]);
}

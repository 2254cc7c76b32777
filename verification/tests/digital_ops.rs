//! The digit-level primitives, exercised over several limb widths and
//! wrap points.

use bignum::addition::{digital_add, digital_add_in_place, wrapping_add};
use bignum::bigint::BigInt;
use bignum::division::digital_scalar_divide_in_place_u32;
use bignum::multiplication::karatsuba_mul;
use bignum::sign::Sign;
use bignum::subtraction::digital_subtract;
use bignum::wrap::DigitalWrap;
use std::time::Instant;

#[test]
fn test_digital_add() {
    let left_u8_base10 = vec![0, 0, 0, 1u8];
    let right_u8_base10 = vec![9, 9, 9, 9];

    let left_u8_base16 = vec![9, 13, 10, 15u8];
    let right_u8_base16 = vec![15, 10, 13, 7];

    let left_u16_base65536 = vec![54321, 12345, 54321, 12345u16];
    let right_u16_base65536 = vec![54321, 12345, 54321, 12345];

    let left_u64_baseu64 = vec![u64::MAX];
    let right_u64_baseu64 = vec![1];

    let big_left_u8_base10 = BigInt::u32_max_digits();
    let big_right_u8_base10 = BigInt::u32_max_digits();

    let result_u8_base10 =
        digital_add(&left_u8_base10, &right_u8_base10, DigitalWrap::Ten);
    let result_u8_base16 =
        digital_add(&left_u8_base16, &right_u8_base16, DigitalWrap::U8(16));
    let result_u16_base65536 =
        digital_add(&left_u16_base65536, &right_u16_base65536, DigitalWrap::Max);
    let result_u64_baseu64 =
        digital_add(&left_u64_baseu64, &right_u64_baseu64, DigitalWrap::Max);
    let big_result_u8_base10 =
        digital_add(&big_left_u8_base10, &big_right_u8_base10, DigitalWrap::Ten);

    assert_eq!(result_u8_base10, vec![9, 9, 9, 0, 1]);
    assert_eq!(result_u8_base16, vec![8, 8, 8, 7, 1]);
    assert_eq!(result_u16_base65536, vec![43106, 24691, 43106, 24691]);
    assert_eq!(result_u64_baseu64, vec![0, 1]);
    assert_eq!(big_result_u8_base10, vec![0, 9, 5, 4, 3, 9, 9, 8, 5, 8]);
}

#[test]
fn test_add_in_place() {
    let mut left_u8_base10 = vec![0, 0, 0, 1u8];
    let right_u8_base10 = vec![9, 9, 9, 9];

    let mut left_u8_base16 = vec![9, 13, 10, 15u8];
    let right_u8_base16 = vec![15, 10, 13, 7];

    let mut left_u16_base65536 = vec![54321, 12345, 54321, 12345u16];
    let right_u16_base65536 = vec![54321, 12345, 54321, 12345];

    let mut big_left_u8_base10 = BigInt::u32_max_digits().to_vec();
    let big_right_u8_base10 = BigInt::u32_max_digits();

    digital_add_in_place(&mut left_u8_base10, &right_u8_base10, DigitalWrap::Ten);
    digital_add_in_place(
        &mut left_u8_base16,
        &right_u8_base16,
        DigitalWrap::U8(16),
    );
    digital_add_in_place(
        &mut left_u16_base65536,
        &right_u16_base65536,
        DigitalWrap::Max,
    );
    digital_add_in_place(
        &mut big_left_u8_base10,
        &big_right_u8_base10,
        DigitalWrap::Ten,
    );

    assert_eq!(left_u8_base10, vec![9, 9, 9, 0, 1]);
    assert_eq!(left_u8_base16, vec![8, 8, 8, 7, 1]);
    assert_eq!(left_u16_base65536, vec![43106, 24691, 43106, 24691]);
    assert_eq!(big_left_u8_base10, vec![0, 9, 5, 4, 3, 9, 9, 8, 5, 8]);
}

#[test]
fn test_digital_subtract() {
    let left_u8_base10 = vec![0, 0, 0, 1u8];
    let right_u8_base10 = vec![9, 9, 9, 9];

    let left_u8_multiple_borrow = vec![2, 1, 0, 8u8];
    let right_u8_multiple_borrow = vec![9, 9, 9, 1];

    let left_u8_base16 = vec![9, 13, 10, 15u8];
    let right_u8_base16 = vec![15, 10, 13, 7];

    let left_u16_base65536 = vec![54321, 12345, 54321, 12345u16];
    let right_u16_base65536 = vec![54321, 12345, 54321, 12345];

    let (result_u8_base10, sign_u8_base10) =
        digital_subtract(&left_u8_base10, &right_u8_base10, DigitalWrap::Ten);

    let (result_u8_multiple_borrow, sign_u8_multiple_borrow) = digital_subtract(
        &left_u8_multiple_borrow,
        &right_u8_multiple_borrow,
        DigitalWrap::Ten,
    );

    let (result_u8_base16, sign_u8_base16) =
        digital_subtract(&left_u8_base16, &right_u8_base16, DigitalWrap::U8(16));

    let (result_u16_base65536, sign_u16_base65536) = digital_subtract(
        &left_u16_base65536,
        &right_u16_base65536,
        DigitalWrap::Max,
    );

    assert_eq!(result_u8_base10, vec![9, 9, 9, 8]);
    assert_eq!(sign_u8_base10, Sign::Negative);

    assert_eq!(result_u8_multiple_borrow, vec![3, 1, 0, 6]);
    assert_eq!(sign_u8_multiple_borrow, Sign::Positive);

    assert_eq!(result_u8_base16, vec![10, 2, 13, 7]);
    assert_eq!(sign_u8_base16, Sign::Positive);

    assert_eq!(result_u16_base65536, vec![0]);
    assert_eq!(sign_u16_base65536, Sign::Zero);
}

#[test]
fn test_division() {
    let mut some_digits = vec![5, 10, 15, 20, 25];
    let mut some_more_digits = vec![5, 10, 15, 20, 25];
    digital_scalar_divide_in_place_u32(&mut some_digits, 5);
    digital_scalar_divide_in_place_u32(&mut some_more_digits, 20);
    println!("{:?}", some_digits);
    println!("{:?}", some_more_digits);
}

#[test]
fn test_karatsuba_multiplication() {
    let digits = 100000;
    let digit = u32::MAX / 2;
    let crossover = 60;

    let test_vec = vec![digit; digits];

    let some_digits = test_vec.clone();
    let some_other_digits = test_vec.clone();

    let timer = Instant::now();
    let result = karatsuba_mul(&some_digits, &some_other_digits, crossover);
    let k_time = timer.elapsed();
    println!("Karatsuba multiplied {} limbs in {:?}", result.len(), k_time);
}

#[test]
fn wrapping_add_wraps_at_the_configured_point() {
    assert_eq!(wrapping_add::<u8>(9, 9, DigitalWrap::Ten), 8);
    assert_eq!(wrapping_add::<u8>(4, 5, DigitalWrap::Ten), 9);
    assert_eq!(wrapping_add::<u8>(15, 2, DigitalWrap::U8(16)), 1);
    assert_eq!(wrapping_add::<u32>(u32::MAX, 1, DigitalWrap::Max), 0);
}

#[test]
fn subtracting_larger_magnitude_negates() {
    // digits [0,0,0,1] minus [9,9,9,9] in base ten: magnitude [9,9,9,8]
    // with the negative sign.
    let (digits, sign) = digital_subtract(
        &[0u8, 0, 0, 1],
        &[9u8, 9, 9, 9],
        DigitalWrap::Ten,
    );
    assert_eq!(sign, Sign::Negative);
    assert_eq!(digits, vec![9, 9, 9, 8]);
}

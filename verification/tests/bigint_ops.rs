//! The signed facade: construction, arithmetic, rendering.

use bignum::bigint::{BigInt, BigIntError};
use bignum::sign::Sign;
use std::time::Instant;

#[test]
fn test_display() {
    let target_fact = 100000u64;
    let hundo = BigInt::from_u64(target_fact);

    let timer = Instant::now();
    let hundo_facto = hundo.fact();
    let finished = timer.elapsed();

    println!("Computed {target_fact}! in {:?}", finished);
    println!(
        "{target_fact}! requires a BigInt magnitude of {}",
        hundo_facto.magnitude()
    );
}

#[test]
fn something() {
    let num = u64::MAX << 1;
    println!("{num}");
}

#[test]
fn test_bigint_scalar_multiply() {
    let mut some_val = BigInt::from_u64(1000u64);
    some_val.mul_assign_u32(3);
    assert_eq!(some_val.to_string(), "3000");
}

#[test]
fn test_digital_scalar_multiply() {
    let mut some_bigint = BigInt::from_u64((u32::MAX / 5) as u64);

    some_bigint.mul_assign_u32(11u32);
    assert_eq!(some_bigint.to_string(), "9448928049");
}

#[test]
fn test_bigint_bigint_multiply() {
    let num_one = BigInt::from_sign_digits(Sign::Positive, vec![65536, 65536]).unwrap();

    let num_two = BigInt::from_sign_digits(Sign::Positive, vec![65536, 65536]).unwrap();

    let num_three = num_one.mul(&num_two);

    println!("{:?}", num_three.limbs());
}

#[test]
fn test_factorial() {
    let hundo: BigInt = BigInt::from_u64(100u64);
    let hundo_fact = hundo.fact();
    println!("{:?}", hundo_fact.limbs());
}

#[test]
fn five_factorial_is_120() {
    assert_eq!(BigInt::from_u64(5).fact().to_string(), "120");
    assert_eq!(BigInt::zero().fact().to_string(), "1");
}

#[test]
fn repeated_scalar_addition_carries_into_second_limb() {
    let mut num = BigInt::zero();
    for _ in 0..65537 {
        num.add_assign_u32(u32::MAX);
    }
    assert_eq!(num.magnitude(), 2);
    assert_eq!(num.to_string(), "281479271612415");
}

#[test]
fn decimal_rendering_round_trip() {
    for v in [0u64, 1, 9, 10, 1000, 4294967295, 4294967296, 18446744073709551615] {
        assert_eq!(BigInt::from_u64(v).to_string(), v.to_string());
    }
    for v in [-1i64, -10, -4294967297, i64::MIN, i64::MAX] {
        assert_eq!(BigInt::from_i64(v).to_string(), v.to_string());
    }
}

#[test]
fn constants_render_as_expected() {
    assert_eq!(BigInt::zero().to_string(), "0");
    assert_eq!(BigInt::one().to_string(), "1");
    assert_eq!(BigInt::negative_one().to_string(), "-1");
    assert_eq!(BigInt::u32_max_digits(), [5, 9, 2, 7, 6, 9, 4, 9, 2, 4]);
    assert_eq!(BigInt::u32_max_plus_one(), [6, 9, 2, 7, 6, 9, 4, 9, 2, 4]);
    assert_eq!(BigInt::karatsuba_crossover(), 60);
}

#[test]
fn scalar_division_floors_the_quotient() {
    let a = BigInt::from_u64(47);
    assert_eq!(a.div_u32(5).to_string(), "9");
    assert_eq!(a.rem_u32(5), 2);

    // Euclidean: the quotient floors and the remainder stays
    // nonnegative, so -47 == -10 * 5 + 3.
    let b = BigInt::from_i64(-47);
    assert_eq!(b.div_u32(5).to_string(), "-10");
    assert_eq!(b.rem_u32(5), 3);

    let c = BigInt::from_i64(-45);
    assert_eq!(c.div_u32(5).to_string(), "-9");
    assert_eq!(c.rem_u32(5), 0);

    let z = BigInt::zero();
    assert_eq!(z.div_u32(7).to_string(), "0");
    assert_eq!(z.div_u32(7).sign(), Sign::Zero);
}

#[test]
fn scalar_round_trip_restores_the_dividend() {
    let a = BigInt::from_u64(12345678901234567890);
    let s = 97u32;
    let back = a.div_u32(s).mul_u32(s).add_u32(a.rem_u32(s));
    assert!(back == a);

    let n = BigInt::from_i64(-1234567890123456789);
    let nback = n.div_u32(s).mul_u32(s).add_u32(n.rem_u32(s));
    assert!(nback == n);
}

#[test]
fn general_division_surfaces_its_errors() {
    let seven = BigInt::from_u64(7);
    let three = BigInt::from_u64(3);
    let zero = BigInt::zero();

    assert!(seven.div(&zero) == Err(BigIntError::DivideByZero));
    assert!(seven.div(&three) == Err(BigIntError::UnsupportedOperation));
    let q = zero.div(&seven).unwrap();
    assert_eq!(q.sign(), Sign::Zero);
}

#[test]
fn increment_and_decrement_cross_zero() {
    let mut x = BigInt::from_i64(-1);
    x.increment();
    assert_eq!(x.sign(), Sign::Zero);
    x.increment();
    assert_eq!(x.to_string(), "1");
    x.decrement();
    x.decrement();
    assert_eq!(x.to_string(), "-1");
}

#[test]
fn power_is_repeated_self_multiplication() {
    assert_eq!(BigInt::from_u64(3).pow(4).to_string(), "81");
    assert_eq!(BigInt::from_i64(-2).pow(3).to_string(), "-8");
    // the zero exponent yields one, whatever the base
    assert_eq!(BigInt::from_u64(3).pow(0).to_string(), "1");
    assert_eq!(BigInt::zero().pow(0).to_string(), "1");
}

#[test]
fn from_sign_digits_enforces_the_invariant() {
    assert!(BigInt::from_sign_digits(Sign::Positive, vec![1, 0]).is_none());
    assert!(BigInt::from_sign_digits(Sign::Positive, vec![]).is_none());
    assert!(BigInt::from_sign_digits(Sign::Zero, vec![1]).is_none());
    assert!(BigInt::from_sign_digits(Sign::Zero, vec![0]).is_some());
    assert!(BigInt::from_sign_digits(Sign::Negative, vec![0, 1]).is_some());
}

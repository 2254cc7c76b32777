//! Concrete instances of the arithmetic laws, across sign combinations
//! and the Karatsuba crossover boundary.

use bignum::bigint::BigInt;
use bignum::comparison::digital_cmp;
use bignum::decimal::Digital;
use bignum::fixed::{digital_multiply_u32_into_fixed_width, karatsuba_mul_fixed_width};
use bignum::from_bool::FromBool;
use bignum::multiplication::{digital_multiply_u32, karatsuba_mul};
use bignum::sign::Sign;
use bignum::wrap::DigitalWrap;
use std::cmp::Ordering;

#[test]
fn addition_commutes_for_all_sign_pairs() {
    let values = [-37i64, -1, 0, 1, 42, 4294967296];
    for &x in values.iter() {
        for &y in values.iter() {
            let a = BigInt::from_i64(x);
            let b = BigInt::from_i64(y);
            assert!(a.add(&b) == b.add(&a));
            assert!(a.mul(&b) == b.mul(&a));
        }
    }
}

#[test]
fn additive_identity_and_inverse() {
    let values = [-4294967296i64, -5, 0, 3, 8589934592];
    let zero = BigInt::zero();
    for &x in values.iter() {
        let a = BigInt::from_i64(x);
        assert!(a.add(&zero) == a);
        let diff = a.sub(&a);
        assert_eq!(diff.sign(), Sign::Zero);
        assert_eq!(diff.to_string(), "0");
        for &y in values.iter() {
            let b = BigInt::from_i64(y);
            assert!(a.add(&b).sub(&b) == a);
        }
    }
}

#[test]
fn product_sign_follows_the_sign_rule() {
    let neg = BigInt::from_i64(-3);
    let pos = BigInt::from_u64(4);
    let zero = BigInt::zero();

    assert_eq!(neg.mul(&pos).sign(), Sign::Negative);
    assert_eq!(pos.mul(&neg).sign(), Sign::Negative);
    assert_eq!(neg.mul(&neg).sign(), Sign::Positive);
    assert_eq!(pos.mul(&pos).sign(), Sign::Positive);
    assert_eq!(neg.mul(&zero).sign(), Sign::Zero);
    assert_eq!(zero.mul(&pos).sign(), Sign::Zero);
    assert_eq!(neg.mul(&pos).to_string(), "-12");
}

#[test]
fn karatsuba_equals_schoolbook_across_the_crossover() {
    // operand lengths straddling the crossover threshold, for several
    // crossover values including one
    let patterns: [(usize, usize); 4] = [(3, 3), (70, 70), (70, 3), (2, 130)];
    for (n, m) in patterns {
        let lhs: Vec<u32> = (0..n).map(|i| u32::MAX - (i as u32) * 7919).collect();
        let rhs: Vec<u32> = (0..m).map(|i| 0x9e3779b9u32.wrapping_add(i as u32)).collect();
        let schoolbook = digital_multiply_u32(&lhs, &rhs);
        for crossover in [1usize, 2, 60, 1000] {
            let karatsuba = karatsuba_mul(&lhs, &rhs, crossover);
            assert_eq!(digital_cmp(&karatsuba, &schoolbook), Ordering::Equal);
        }
    }
}

#[test]
fn ordering_is_consistent_with_subtraction() {
    let values = [-4294967296i64, -5, -3, 0, 2, 4294967297];
    for &x in values.iter() {
        for &y in values.iter() {
            let a = BigInt::from_i64(x);
            let b = BigInt::from_i64(y);
            let d = a.sub(&b);
            let ord = a.partial_cmp(&b).unwrap();
            match d.sign() {
                Sign::Negative => assert_eq!(ord, Ordering::Less),
                Sign::Zero => assert_eq!(ord, Ordering::Equal),
                Sign::Positive => assert_eq!(ord, Ordering::Greater),
            }
            assert_eq!(ord == Ordering::Less, x < y);
        }
    }
}

#[test]
fn scalar_round_trip_across_magnitudes() {
    for v in [0u64, 1, 99, 4294967295, 4294967296, u64::MAX] {
        let a = BigInt::from_u64(v);
        for s in [1u32, 2, 10, 97, u32::MAX] {
            let back = a.div_u32(s).mul_u32(s).add_u32(a.rem_u32(s));
            assert!(back == a);
        }
    }
    // negative dividends round-trip too: the quotient floors while the
    // remainder stays nonnegative
    for v in [-1i64, -7, -99, -4294967296, i64::MIN] {
        let a = BigInt::from_i64(v);
        for s in [1u32, 2, 10, 97, u32::MAX] {
            let back = a.div_u32(s).mul_u32(s).add_u32(a.rem_u32(s));
            assert!(back == a);
        }
    }
}

#[test]
fn from_bool_yields_the_indicator() {
    assert_eq!(u8::from_bool(true), 1);
    assert_eq!(u8::from_bool(false), 0);
    assert_eq!(i64::from_bool(true), 1);
    assert_eq!(u128::from_bool(false), 0);
}

#[test]
fn as_digits_gives_little_endian_decimal() {
    assert_eq!(12345u64.as_digits(), vec![5, 4, 3, 2, 1]);
    assert_eq!(7u64.as_digits(), vec![7]);
    assert_eq!(0u32.as_digits(), vec![0]);
    assert_eq!(4294967295u32.as_digits(), vec![5, 9, 2, 7, 6, 9, 4, 9, 2, 4]);
}

#[test]
fn wrap_points_describe_themselves() {
    assert_eq!(DigitalWrap::Max.to_string(), "Maximum Value");
    assert_eq!(DigitalWrap::Ten.to_string(), "10");
    assert_eq!(DigitalWrap::U32(16).to_string(), "16u32");
    assert_eq!(DigitalWrap::U8(100).to_string(), "100u8");
    assert_eq!(DigitalWrap::U128(12345678901234567890).to_string(), "12345678901234567890u128");
}

#[test]
fn fixed_width_multiplication_matches_the_growable_form() {
    let lhs = vec![2u32, 1];
    let rhs = vec![3u32];
    let fixed = digital_multiply_u32_into_fixed_width(&lhs, &rhs);
    assert_eq!(fixed.len(), 65536);
    assert_eq!(&fixed[0..3], &[6, 3, 0]);
    assert!(fixed[3..].iter().all(|&limb| limb == 0));

    let karatsuba = karatsuba_mul_fixed_width(&lhs, &rhs, 1);
    assert_eq!(karatsuba.len(), 65536);
    assert_eq!(digital_cmp(&fixed, &karatsuba), Ordering::Equal);
}

//! The signed arbitrary-precision integer: a sign tag and a little-endian
//! u32 limb vector, composed from the digit-level primitives with
//! sign-magnitude dispatch rules.

use vstd::prelude::*;
use vstd::arithmetic::power::pow;
use core::cmp::Ordering;
use crate::comparison::{cmp_spec, digital_cmp, lemma_cmp_spec_value, lemma_trim_len_le,
    lemma_seq_val_trim, trim_len_spec, trimmed_len};
use crate::limb::{copy_limbs, lemma_vals_in_range, vals};
use crate::multiplication::{b32, limbs_val};
use crate::radix::{
    bounded, lemma_seq_val_lower, lemma_seq_val_singleton, lemma_seq_val_upper,
    lemma_seq_val_zero_all_zero, seq_val, trimmed,
};
use crate::sign::Sign;

verus! {

/// A signed arbitrary-precision integer: sign tag and magnitude limbs,
/// least significant limb first.
#[derive(Debug)]
pub struct BigInt {
    pub sign: Sign,
    pub digits: Vec<u32>,
}

/// The failures the signed operations can surface.
#[derive(Debug, Clone, Copy, PartialEq, Eq, Structural)]
pub enum BigIntError {
    /// Division with a divisor of zero.
    DivideByZero,
    /// Division by a general (multi-limb) divisor, which this design
    /// deliberately leaves unimplemented.
    UnsupportedOperation,
}

impl BigInt {
    /// The magnitude: the numeric value of the limb vector alone.
    pub open spec fn mag(self) -> int {
        limbs_val(self.digits@)
    }

    /// The signed value this instance stands for.
    pub open spec fn value(self) -> int {
        match self.sign {
            Sign::Zero => 0,
            Sign::Positive => self.mag(),
            Sign::Negative => -self.mag(),
        }
    }

    /// The representation invariant: at least one limb, no redundant
    /// most-significant zero limb, and the zero sign exactly on the
    /// canonical zero limb vector.
    pub open spec fn well_formed(self) -> bool {
        &&& self.digits@.len() >= 1
        &&& trimmed(vals(self.digits@))
        &&& (self.sign == Sign::Zero <==> (self.digits@.len() == 1 && self.digits@[0] == 0))
    }
}

/// Under the invariant, the sign tag is zero exactly when the value is,
/// and a nonzero magnitude is at least one.
pub proof fn lemma_wf_value(x: BigInt)
    requires
        x.well_formed(),
    ensures
        0 <= x.mag(),
        x.mag() < pow(b32(), x.digits@.len()),
        x.sign == Sign::Zero <==> x.mag() == 0,
        x.sign == Sign::Zero <==> x.value() == 0,
        x.sign == Sign::Positive <==> x.value() > 0,
        x.sign == Sign::Negative <==> x.value() < 0,
        x.sign != Sign::Zero ==> x.mag() >= 1,
{
    lemma_vals_in_range::<u32>(x.digits@);
    lemma_seq_val_upper(vals(x.digits@), b32(), 0xFFFF_FFFF);
    if x.digits@.len() == 1 && x.digits@[0] == 0 {
        assert(vals(x.digits@) =~= seq![0int]);
        lemma_seq_val_singleton(0, b32());
    } else {
        if x.mag() == 0 {
            lemma_seq_val_zero_all_zero(vals(x.digits@), b32(), 0xFFFF_FFFF);
            if x.digits@.len() >= 2 {
                assert(vals(x.digits@)[x.digits@.len() - 1] == 0);
                assert(false);
            }
            assert(vals(x.digits@)[0] == 0);
            assert(false);
        }
    }
}

/// A trimmed nonzero magnitude reaches the radix power of its length
/// less one.
pub proof fn lemma_trimmed_lower(s: Seq<int>, base: int, wrap: int)
    requires
        base == wrap + 1,
        wrap >= 0,
        bounded(s, wrap),
        trimmed(s),
        s.len() >= 1,
        seq_val(s, base) >= 1,
    ensures
        seq_val(s, base) >= pow(base, (s.len() - 1) as nat),
{
    if s.len() == 1 {
        vstd::arithmetic::power::lemma_pow0(base);
        assert(s =~= seq![s[0]]);
        lemma_seq_val_singleton(s[0], base);
    } else {
        if s[s.len() - 1] == 0 {
            assert(false);
        }
        lemma_seq_val_lower(s, base, wrap);
    }
}

/// A magnitude that reaches the radix power of its length less one has
/// no redundant leading zero limb.
pub proof fn lemma_val_implies_trimmed(s: Seq<int>, base: int, wrap: int)
    requires
        base == wrap + 1,
        wrap >= 0,
        bounded(s, wrap),
        s.len() >= 1,
        seq_val(s, base) >= pow(base, (s.len() - 1) as nat),
    ensures
        trimmed(s),
{
    if s.len() >= 2 && s[s.len() - 1] == 0 {
        crate::radix::lemma_seq_val_split(s, base, s.len() - 1);
        lemma_seq_val_upper(s.take(s.len() - 1), base, wrap);
        assert(s.skip(s.len() - 1) =~= seq![0int]);
        lemma_seq_val_singleton(0, base);
        assert(pow(base, (s.len() - 1) as nat) * 0 == 0) by (nonlinear_arith);
        assert(false);
    }
}

impl Default for BigInt {
    /// The canonical zero.
    fn default() -> (r: Self)
        ensures
            r.well_formed(),
            r.value() == 0,
            r.digits@.len() == 1,
    {
        let mut digits: Vec<u32> = Vec::new();
        digits.push(0);
        proof {
            assert(vals(digits@) =~= seq![0int]);
            lemma_seq_val_singleton(0, b32());
        }
        BigInt { sign: Sign::Zero, digits }
    }
}

impl Clone for BigInt {
    fn clone(&self) -> (r: Self)
        ensures
            r.sign == self.sign,
            r.digits@ == self.digits@,
    {
        BigInt { sign: self.sign, digits: copy_limbs(self.digits.as_slice()) }
    }
}

impl BigInt {
    pub fn zero() -> (r: Self)
        ensures
            r.well_formed(),
            r.value() == 0,
            r.digits@.len() == 1,
    {
        Self::default()
    }

    pub fn one() -> (r: Self)
        ensures
            r.well_formed(),
            r.value() == 1,
            r.digits@.len() == 1,
    {
        let mut digits: Vec<u32> = Vec::new();
        digits.push(1);
        proof {
            assert(vals(digits@) =~= seq![1int]);
            lemma_seq_val_singleton(1, b32());
        }
        Self { sign: Sign::Positive, digits }
    }

    pub fn negative_one() -> (r: Self)
        ensures
            r.well_formed(),
            r.value() == -1,
            r.digits@.len() == 1,
    {
        let mut digits: Vec<u32> = Vec::new();
        digits.push(1);
        proof {
            assert(vals(digits@) =~= seq![1int]);
            lemma_seq_val_singleton(1, b32());
        }
        Self { sign: Sign::Negative, digits }
    }

    /// How many limbs the magnitude holds.
    pub fn magnitude(&self) -> (r: usize)
        ensures
            r == self.digits@.len(),
    {
        self.digits.len()
    }

    /// The sign tag.
    pub fn sign(&self) -> (r: Sign)
        ensures
            r == self.sign,
    {
        self.sign
    }

    /// Read access to the magnitude limbs, least significant first.
    pub fn limbs(&self) -> (r: &Vec<u32>)
        ensures
            r@ == self.digits@,
    {
        &self.digits
    }

    /// Builds an instance from a sign and limb vector, if the pair
    /// satisfies the representation invariant.
    pub fn from_sign_digits(sign: Sign, digits: Vec<u32>) -> (r: Option<Self>)
        ensures
            r matches Some(b) ==> b.well_formed() && b.sign == sign && b.digits@ == digits@,
            r is Some <==> (BigInt { sign, digits }).well_formed(),
    {
        let candidate = BigInt { sign, digits };
        let ok = if candidate.digits.len() == 0 {
            false
        } else {
            let tl = trimmed_len(candidate.digits.as_slice());
            proof {
                lemma_trim_len_le(vals(candidate.digits@));
            }
            let is_trimmed = tl == candidate.digits.len() || candidate.digits.len() == 1;
            let is_canonical_zero = candidate.digits.len() == 1 && candidate.digits[0] == 0;
            proof {
                if tl == candidate.digits@.len() && candidate.digits@.len() >= 2 {
                    assert(vals(candidate.digits@)[candidate.digits@.len() - 1] != 0);
                }
                if tl < candidate.digits@.len() && candidate.digits@.len() >= 2 {
                    assert(vals(candidate.digits@)[candidate.digits@.len() - 1] == 0);
                }
            }
            is_trimmed && (candidate.sign.is_zero() == is_canonical_zero)
        };
        if ok {
            Some(candidate)
        } else {
            None
        }
    }

    /// Drops redundant most-significant zero limbs, keeping at least
    /// one limb; the magnitude's value and the sign are untouched.
    pub fn trim_zeroes(&mut self)
        requires
            old(self).digits@.len() >= 1,
        ensures
            final(self).sign == old(self).sign,
            final(self).digits@.len() >= 1,
            trimmed(vals(final(self).digits@)),
            final(self).mag() == old(self).mag(),
    {
        let tl = trimmed_len(self.digits.as_slice());
        proof {
            lemma_trim_len_le(vals(self.digits@));
            lemma_seq_val_trim(vals(self.digits@), b32());
        }
        let keep = if tl == 0 {
            1
        } else {
            tl
        };
        let ghost pre = self.digits@;
        self.digits.truncate(keep);
        proof {
            assert(self.digits@ == pre.take(keep as int));
            assert(vals(self.digits@) =~= vals(pre).take(keep as int));
            if tl == 0 {
                assert(vals(pre)[0] == 0);
                assert(vals(self.digits@) =~= seq![0int]);
                assert(vals(pre).take(0) =~= Seq::<int>::empty());
                lemma_seq_val_singleton(0, b32());
            }
        }
    }

    /// Flips the sign; zero is fixed.
    pub fn negate(&mut self)
        ensures
            final(self).sign == old(self).sign.negate_spec(),
            final(self).digits@ == old(self).digits@,
            final(self).value() == -old(self).value(),
            old(self).well_formed() ==> final(self).well_formed(),
    {
        self.sign = self.sign.negated();
    }

    /// Resets to the canonical zero.
    pub fn zero_out(&mut self)
        ensures
            final(self).well_formed(),
            final(self).value() == 0,
    {
        self.sign = Sign::Zero;
        let mut digits: Vec<u32> = Vec::new();
        digits.push(0);
        proof {
            assert(vals(digits@) =~= seq![0int]);
            lemma_seq_val_singleton(0, b32());
        }
        self.digits = digits;
    }

    pub fn is_zero(&self) -> (r: bool)
        ensures
            r <==> self.sign == Sign::Zero,
            self.well_formed() ==> (r <==> self.value() == 0),
    {
        proof {
            if self.well_formed() {
                lemma_wf_value(*self);
            }
        }
        self.sign.is_zero()
    }

    /// The decimal digits of `u32::MAX`, least significant first.
    pub fn u32_max_digits() -> (r: [u8; 10])
        ensures
            r@ == seq![5u8, 9, 2, 7, 6, 9, 4, 9, 2, 4],
    {
        let r: [u8; 10] = [5, 9, 2, 7, 6, 9, 4, 9, 2, 4];
        proof {
            assert(r@ =~= seq![5u8, 9, 2, 7, 6, 9, 4, 9, 2, 4]);
        }
        r
    }

    /// The decimal digits of `u32::MAX + 1`, least significant first.
    pub fn u32_max_plus_one() -> (r: [u8; 10])
        ensures
            r@ == seq![6u8, 9, 2, 7, 6, 9, 4, 9, 2, 4],
    {
        let r: [u8; 10] = [6, 9, 2, 7, 6, 9, 4, 9, 2, 4];
        proof {
            assert(r@ =~= seq![6u8, 9, 2, 7, 6, 9, 4, 9, 2, 4]);
        }
        r
    }

    /// The magnitude threshold below which multiplication keeps to the
    /// schoolbook algorithm.
    pub fn karatsuba_crossover() -> (r: usize)
        ensures
            r == 60,
    {
        60
    }

    /// Compares the limb counts of two magnitudes.
    pub fn cmp_magnitude(&self, other: &Self) -> (r: Ordering)
        ensures
            r == Ordering::Less <==> self.digits@.len() < other.digits@.len(),
            r == Ordering::Equal <==> self.digits@.len() == other.digits@.len(),
            r == Ordering::Greater <==> self.digits@.len() > other.digits@.len(),
    {
        let a = self.digits.len();
        let b = other.digits.len();
        if a < b {
            Ordering::Less
        } else if a == b {
            Ordering::Equal
        } else {
            Ordering::Greater
        }
    }

    /// Builds an instance from an unsigned native integer.
    pub fn from_u64(value: u64) -> (r: Self)
        ensures
            r.well_formed(),
            r.value() == value,
            r.digits@.len() <= 2,
    {
        if value == 0 {
            return Self::zero();
        }
        if value <= u32::MAX as u64 {
            let mut digits: Vec<u32> = Vec::new();
            digits.push(value as u32);
            proof {
                assert(vals(digits@) =~= seq![value as int]);
                lemma_seq_val_singleton(value as int, b32());
            }
            return Self { sign: Sign::Positive, digits };
        }
        let lo = #[verifier::truncate] (value as u32);
        proof {
            assert(((value as u32) as u64) == value % 0x1_0000_0000u64) by (bit_vector);
            assert(value >> 32u64 == value / 0x1_0000_0000u64) by (bit_vector);
            assert(value / 0x1_0000_0000u64 < 0x1_0000_0000u64) by (bit_vector);
            assert(value > 0xFFFF_FFFFu64 ==> value / 0x1_0000_0000u64 >= 1) by (bit_vector);
        }
        let hi = (value >> 32) as u32;
        let mut digits: Vec<u32> = Vec::new();
        digits.push(lo);
        digits.push(hi);
        proof {
            assert(vals(digits@) =~= seq![lo as int].push(hi as int));
            crate::radix::lemma_seq_val_push(seq![lo as int], b32(), hi as int);
            lemma_seq_val_singleton(lo as int, b32());
            vstd::arithmetic::power::lemma_pow1(b32());
            vstd::arithmetic::div_mod::lemma_fundamental_div_mod(value as int, b32());
        }
        Self { sign: Sign::Positive, digits }
    }

    /// Builds an instance from a signed native integer.
    pub fn from_i64(value: i64) -> (r: Self)
        ensures
            r.well_formed(),
            r.value() == value,
            r.digits@.len() <= 2,
    {
        if value >= 0 {
            let r = Self::from_u64(value as u64);
            return r;
        }
        let magnitude: u64 = if value == i64::MIN {
            0x8000_0000_0000_0000u64
        } else {
            (-value) as u64
        };
        let mut r = Self::from_u64(magnitude);
        r.negate();
        r
    }
}

impl BigInt {
    /// Magnitude addition: the limb sums of `self` and `other`, keeping
    /// the sign of `self`.
    fn digital_add(&self, other: &[u32]) -> (r: Self)
        requires
            self.well_formed(),
            self.sign != Sign::Zero,
            trimmed(vals(other@)),
            other@.len() >= 1,
            seq_val(vals(other@), b32()) >= 1,
        ensures
            r.well_formed(),
            r.sign == self.sign,
            r.mag() == self.mag() + seq_val(vals(other@), b32()),
    {
        proof {
            lemma_vals_in_range::<u32>(self.digits@);
            lemma_vals_in_range::<u32>(other@);
            lemma_wf_value(*self);
        }
        let digits = crate::addition::digital_add(self.digits.as_slice(), other,
            crate::wrap::DigitalWrap::Max);
        proof {
            lemma_sum_digits_trimmed(self.digits@, other@, digits@);
            if digits@.len() == 1 && digits@[0] == 0 {
                assert(vals(digits@) =~= seq![0int]);
                lemma_seq_val_singleton(0, b32());
                assert(false);
            }
        }
        Self { sign: self.sign, digits }
    }

    /// In-place magnitude addition, keeping the sign of `self`.
    fn digital_add_assign(&mut self, other: &[u32])
        requires
            old(self).well_formed(),
            old(self).sign != Sign::Zero,
            trimmed(vals(other@)),
            other@.len() >= 1,
            seq_val(vals(other@), b32()) >= 1,
        ensures
            final(self).well_formed(),
            final(self).sign == old(self).sign,
            final(self).mag() == old(self).mag() + seq_val(vals(other@), b32()),
    {
        proof {
            lemma_vals_in_range::<u32>(self.digits@);
            lemma_vals_in_range::<u32>(other@);
            lemma_wf_value(*self);
        }
        let ghost pre = self.digits@;
        crate::addition::digital_add_in_place(&mut self.digits, other,
            crate::wrap::DigitalWrap::Max);
        proof {
            lemma_sum_digits_trimmed(pre, other@, self.digits@);
            if self.digits@.len() == 1 && self.digits@[0] == 0 {
                assert(vals(self.digits@) =~= seq![0int]);
                lemma_seq_val_singleton(0, b32());
                assert(false);
            }
        }
    }

    /// Magnitude subtraction: subtracts the smaller magnitude from the
    /// larger and combines the comparison-derived sign with the sign of
    /// `self`.
    fn digital_subtract(&self, other: &[u32]) -> (r: Self)
        requires
            self.well_formed(),
            self.sign != Sign::Zero,
        ensures
            r.well_formed(),
            self.sign == Sign::Positive ==> r.value() == self.mag() - seq_val(
                vals(other@),
                b32(),
            ),
            self.sign == Sign::Negative ==> r.value() == seq_val(vals(other@), b32())
                - self.mag(),
    {
        proof {
            lemma_vals_in_range::<u32>(self.digits@);
            lemma_vals_in_range::<u32>(other@);
            lemma_wf_value(*self);
        }
        let (digits, diff_sign) = crate::subtraction::digital_subtract(self.digits.as_slice(),
            other, crate::wrap::DigitalWrap::Max);
        let sign = match diff_sign {
            Sign::Negative => self.sign.negated(),
            Sign::Zero => Sign::Zero,
            Sign::Positive => self.sign,
        };
        proof {
            if diff_sign == Sign::Zero {
                lemma_seq_val_singleton(0, b32());
            } else {
                lemma_vals_in_range::<u32>(digits@);
                if digits@.len() == 1 && digits@[0] == 0 {
                    assert(vals(digits@) =~= seq![0int]);
                    lemma_seq_val_singleton(0, b32());
                }
            }
        }
        Self { sign, digits }
    }

    /// In-place magnitude subtraction with the same sign combination.
    fn digital_subtract_assign(&mut self, other: &[u32])
        requires
            old(self).well_formed(),
            old(self).sign != Sign::Zero,
        ensures
            final(self).well_formed(),
            old(self).sign == Sign::Positive ==> final(self).value() == old(self).mag()
                - seq_val(vals(other@), b32()),
            old(self).sign == Sign::Negative ==> final(self).value() == seq_val(
                vals(other@),
                b32(),
            ) - old(self).mag(),
    {
        let r = self.digital_subtract(other);
        *self = r;
    }

    /// The sum of two signed values, by sign-combination dispatch: a
    /// zero operand is absorbed, equal signs add magnitudes, differing
    /// signs subtract them.
    pub fn add(&self, rhs: &Self) -> (r: Self)
        requires
            self.well_formed(),
            rhs.well_formed(),
        ensures
            r.well_formed(),
            r.value() == self.value() + rhs.value(),
    {
        proof {
            lemma_wf_value(*self);
            lemma_wf_value(*rhs);
        }
        match (self.sign, rhs.sign) {
            (_, Sign::Zero) => self.clone(),
            (Sign::Zero, _) => rhs.clone(),
            (Sign::Positive, Sign::Positive) | (Sign::Negative, Sign::Negative) => {
                self.digital_add(rhs.digits.as_slice())
            },
            (Sign::Positive, Sign::Negative) | (Sign::Negative, Sign::Positive) => {
                self.digital_subtract(rhs.digits.as_slice())
            },
        }
    }

    /// The difference of two signed values: a zero right operand is
    /// absorbed, a zero left operand negates, equal signs subtract
    /// magnitudes, differing signs add them.
    pub fn sub(&self, rhs: &Self) -> (r: Self)
        requires
            self.well_formed(),
            rhs.well_formed(),
        ensures
            r.well_formed(),
            r.value() == self.value() - rhs.value(),
    {
        proof {
            lemma_wf_value(*self);
            lemma_wf_value(*rhs);
        }
        match (self.sign, rhs.sign) {
            (_, Sign::Zero) => self.clone(),
            (Sign::Zero, _) => {
                let mut r = rhs.clone();
                r.negate();
                r
            },
            (Sign::Positive, Sign::Positive) | (Sign::Negative, Sign::Negative) => {
                self.digital_subtract(rhs.digits.as_slice())
            },
            (Sign::Positive, Sign::Negative) | (Sign::Negative, Sign::Positive) => {
                self.digital_add(rhs.digits.as_slice())
            },
        }
    }

    /// The sum of `self` and a single-limb scalar.
    pub fn add_u32(&self, rhs: u32) -> (r: Self)
        requires
            self.well_formed(),
        ensures
            r.well_formed(),
            r.value() == self.value() + rhs,
    {
        proof {
            lemma_wf_value(*self);
        }
        if rhs == 0 {
            return self.clone();
        }
        let scalar: [u32; 1] = [rhs];
        proof {
            assert(vals(scalar@) =~= seq![rhs as int]);
            lemma_seq_val_singleton(rhs as int, b32());
        }
        match self.sign {
            Sign::Zero => {
                let mut digits: Vec<u32> = Vec::new();
                digits.push(rhs);
                proof {
                    assert(vals(digits@) =~= seq![rhs as int]);
                }
                Self { sign: Sign::Positive, digits }
            },
            Sign::Positive => self.digital_add(scalar.as_slice()),
            Sign::Negative => self.digital_subtract(scalar.as_slice()),
        }
    }

    /// The difference of `self` and a single-limb scalar.
    pub fn sub_u32(&self, rhs: u32) -> (r: Self)
        requires
            self.well_formed(),
        ensures
            r.well_formed(),
            r.value() == self.value() - rhs,
    {
        proof {
            lemma_wf_value(*self);
        }
        if rhs == 0 {
            return self.clone();
        }
        let scalar: [u32; 1] = [rhs];
        proof {
            assert(vals(scalar@) =~= seq![rhs as int]);
            lemma_seq_val_singleton(rhs as int, b32());
        }
        match self.sign {
            Sign::Zero => {
                let mut digits: Vec<u32> = Vec::new();
                digits.push(rhs);
                proof {
                    assert(vals(digits@) =~= seq![rhs as int]);
                }
                Self { sign: Sign::Negative, digits }
            },
            Sign::Positive => self.digital_subtract(scalar.as_slice()),
            Sign::Negative => self.digital_add(scalar.as_slice()),
        }
    }

    /// Adds a single-limb scalar in place.
    pub fn add_assign_u32(&mut self, rhs: u32)
        requires
            old(self).well_formed(),
        ensures
            final(self).well_formed(),
            final(self).value() == old(self).value() + rhs,
    {
        proof {
            lemma_wf_value(*self);
        }
        if rhs == 0 {
            return ;
        }
        let scalar: [u32; 1] = [rhs];
        proof {
            assert(vals(scalar@) =~= seq![rhs as int]);
            lemma_seq_val_singleton(rhs as int, b32());
        }
        match self.sign {
            Sign::Zero => {
                let mut digits: Vec<u32> = Vec::new();
                digits.push(rhs);
                proof {
                    assert(vals(digits@) =~= seq![rhs as int]);
                }
                *self = Self { sign: Sign::Positive, digits };
            },
            Sign::Positive => self.digital_add_assign(scalar.as_slice()),
            Sign::Negative => self.digital_subtract_assign(scalar.as_slice()),
        }
    }

    /// Subtracts a single-limb scalar in place.
    pub fn sub_assign_u32(&mut self, rhs: u32)
        requires
            old(self).well_formed(),
        ensures
            final(self).well_formed(),
            final(self).value() == old(self).value() - rhs,
    {
        proof {
            lemma_wf_value(*self);
        }
        if rhs == 0 {
            return ;
        }
        let scalar: [u32; 1] = [rhs];
        proof {
            assert(vals(scalar@) =~= seq![rhs as int]);
            lemma_seq_val_singleton(rhs as int, b32());
        }
        match self.sign {
            Sign::Zero => {
                let mut digits: Vec<u32> = Vec::new();
                digits.push(rhs);
                proof {
                    assert(vals(digits@) =~= seq![rhs as int]);
                }
                *self = Self { sign: Sign::Negative, digits };
            },
            Sign::Positive => self.digital_subtract_assign(scalar.as_slice()),
            Sign::Negative => self.digital_add_assign(scalar.as_slice()),
        }
    }

    /// Adds one.
    pub fn increment(&mut self)
        requires
            old(self).well_formed(),
        ensures
            final(self).well_formed(),
            final(self).value() == old(self).value() + 1,
    {
        self.add_assign_u32(1);
    }

    /// Subtracts one.
    pub fn decrement(&mut self)
        requires
            old(self).well_formed(),
        ensures
            final(self).well_formed(),
            final(self).value() == old(self).value() - 1,
    {
        self.sub_assign_u32(1);
    }
}

/// The sum of two trimmed positive magnitudes, as limb addition
/// produces it, is trimmed again.
proof fn lemma_sum_digits_trimmed(a: Seq<u32>, b: Seq<u32>, r: Seq<u32>)
    requires
        a.len() >= 1,
        b.len() >= 1,
        trimmed(vals(a)),
        trimmed(vals(b)),
        seq_val(vals(a), b32()) >= 1,
        seq_val(vals(b), b32()) >= 1,
        seq_val(vals(r), b32()) == seq_val(vals(a), b32()) + seq_val(vals(b), b32()),
        r.len() >= crate::radix::max_nat(a.len(), b.len()),
        r.len() <= crate::radix::max_nat(a.len(), b.len()) + 1,
        r.len() > crate::radix::max_nat(a.len(), b.len()) ==> seq_val(vals(r), b32()) >= pow(
            b32(),
            crate::radix::max_nat(a.len(), b.len()),
        ),
    ensures
        trimmed(vals(r)),
        r.len() >= 1,
        seq_val(vals(r), b32()) >= 1,
{
    lemma_vals_in_range::<u32>(a);
    lemma_vals_in_range::<u32>(b);
    lemma_vals_in_range::<u32>(r);
    lemma_trimmed_lower(vals(a), b32(), 0xFFFF_FFFF);
    lemma_trimmed_lower(vals(b), b32(), 0xFFFF_FFFF);
    let k = crate::radix::max_nat(a.len(), b.len());
    if r.len() > k {
        lemma_val_implies_trimmed(vals(r), b32(), 0xFFFF_FFFF);
    } else {
        if a.len() >= b.len() {
            assert(seq_val(vals(r), b32()) >= pow(b32(), (a.len() - 1) as nat));
        } else {
            assert(seq_val(vals(r), b32()) >= pow(b32(), (b.len() - 1) as nat));
        }
        lemma_val_implies_trimmed(vals(r), b32(), 0xFFFF_FFFF);
    }
}

/// Euclidean division of a negated magnitude by a positive scalar:
/// the quotient magnitude rounds up and the remainder complements the
/// magnitude remainder, unless the scalar divides exactly.
pub proof fn lemma_neg_div_mod(m: int, d: int)
    requires
        m >= 0,
        d > 0,
    ensures
        m % d == 0 ==> (-m) / d == -(m / d) && (-m) % d == 0,
        m % d != 0 ==> (-m) / d == -(m / d) - 1 && (-m) % d == d - (m % d),
{
    vstd::arithmetic::div_mod::lemma_fundamental_div_mod(m, d);
    vstd::arithmetic::div_mod::lemma_mod_bound(m, d);
    let q = m / d;
    let r = m % d;
    if r == 0 {
        assert(d * (-q) == -(d * q)) by (nonlinear_arith);
        vstd::arithmetic::div_mod::lemma_fundamental_div_mod_converse(-m, d, -q, 0);
    } else {
        assert(d * (-q - 1) == -(d * q) - d) by (nonlinear_arith);
        vstd::arithmetic::div_mod::lemma_fundamental_div_mod_converse(-m, d, -q - 1, d - r);
    }
}

/// The factorial of `n`; one for every argument at or below zero.
pub open spec fn fact_spec(n: int) -> int
    decreases n,
{
    if n <= 0 {
        1
    } else {
        n * fact_spec(n - 1)
    }
}

/// The factorial of a value below the radix is itself below the radix
/// power of the value plus one; this discharges the address-space bound
/// of `fact` for any receiver a machine could hold.
pub proof fn lemma_fact_spec_bound(n: int)
    requires
        n < b32(),
    ensures
        fact_spec(n) < pow(b32(), (if n <= 0 {
            0
        } else {
            n
        }) as nat + 1),
    decreases n,
{
    vstd::arithmetic::power::lemma_pow1(b32());
    if n <= 0 {
    } else {
        lemma_fact_spec_bound(n - 1);
        lemma_fact_spec_pos(n - 1);
        let e1 = (if n - 1 <= 0 {
            0
        } else {
            n - 1
        }) as nat + 1;
        crate::radix::lemma_pow_unfold(b32(), (e1 + 1) as nat);
        vstd::arithmetic::power::lemma_pow_positive(b32(), e1);
        assert(n * fact_spec(n - 1) < b32() * pow(b32(), e1)) by (nonlinear_arith)
            requires
                1 <= fact_spec(n - 1),
                fact_spec(n - 1) < pow(b32(), e1),
                0 < n < b32(),
                0 < pow(b32(), e1),
        ;
        if n == 1 {
            vstd::arithmetic::power::lemma_pow_increases(b32() as nat, 2, 2);
        }
    }
}

pub proof fn lemma_fact_spec_pos(n: int)
    ensures
        fact_spec(n) >= 1,
    decreases n,
{
    if n > 0 {
        lemma_fact_spec_pos(n - 1);
        assert(n * fact_spec(n - 1) >= 1) by (nonlinear_arith)
            requires
                n >= 1,
                fact_spec(n - 1) >= 1,
        ;
    }
}

impl BigInt {
    /// Multiplies in place: a zero operand zeroes the receiver, larger
    /// operands route through Karatsuba above the crossover and the
    /// schoolbook convolution below it, and a negative right operand
    /// flips the sign.
    pub fn mul_assign(&mut self, rhs: &Self)
        requires
            old(self).well_formed(),
            rhs.well_formed(),
            old(self).digits@.len() + rhs.digits@.len() <= usize::MAX,
        ensures
            final(self).well_formed(),
            final(self).value() == old(self).value() * rhs.value(),
    {
        proof {
            lemma_wf_value(*self);
            lemma_wf_value(*rhs);
        }
        if rhs.is_zero() {
            proof {
                let a = old(self).value();
                assert(a * 0 == 0) by (nonlinear_arith);
            }
            return self.zero_out();
        }
        if self.is_zero() {
            proof {
                assert(0 * rhs.value() == 0) by (nonlinear_arith);
            }
            return ;
        }
        let ghost m0 = self.mag();
        let ghost m1 = rhs.mag();
        let crossover = Self::karatsuba_crossover();
        let digits = if self.magnitude() > crossover && rhs.magnitude() > crossover {
            crate::multiplication::karatsuba_mul(self.digits.as_slice(), rhs.digits.as_slice(),
                crossover)
        } else {
            crate::multiplication::digital_multiply_u32(self.digits.as_slice(),
                rhs.digits.as_slice())
        };
        self.digits = digits;
        self.trim_zeroes();
        if rhs.sign.is_negative() {
            self.sign = self.sign.negated();
        }
        proof {
            assert(self.mag() == m0 * m1);
            assert(m0 * m1 >= 1) by (nonlinear_arith)
                requires
                    m0 >= 1,
                    m1 >= 1,
            ;
            if self.digits@.len() == 1 && self.digits@[0] == 0 {
                assert(vals(self.digits@) =~= seq![0int]);
                lemma_seq_val_singleton(0, b32());
                assert(false);
            }
            let a = old(self).value();
            let b = rhs.value();
            assert(final(self).value() == a * b) by (nonlinear_arith)
                requires
                    m0 == if a >= 0 {
                        a
                    } else {
                        -a
                    },
                    m1 == if b >= 0 {
                        b
                    } else {
                        -b
                    },
                    a != 0,
                    b != 0,
                    final(self).value() == if (a >= 0) == (b >= 0) {
                        m0 * m1
                    } else {
                        -(m0 * m1)
                    },
            ;
        }
    }

    /// The product of two signed values.
    pub fn mul(&self, rhs: &Self) -> (r: Self)
        requires
            self.well_formed(),
            rhs.well_formed(),
            self.digits@.len() + rhs.digits@.len() <= usize::MAX,
        ensures
            r.well_formed(),
            r.value() == self.value() * rhs.value(),
    {
        let mut result = self.clone();
        result.mul_assign(rhs);
        result
    }

    /// Multiplies by a single-limb scalar in place.
    pub fn mul_assign_u32(&mut self, rhs: u32)
        requires
            old(self).well_formed(),
        ensures
            final(self).well_formed(),
            final(self).value() == old(self).value() * rhs,
    {
        proof {
            lemma_wf_value(*self);
        }
        if rhs == 0 {
            proof {
                let a = old(self).value();
                assert(a * 0 == 0) by (nonlinear_arith);
            }
            self.zero_out()
        } else if !self.sign.is_zero() {
            let ghost m0 = self.mag();
            let ghost n0 = self.digits@.len();
            proof {
                lemma_trimmed_lower(vals(self.digits@), b32(), 0xFFFF_FFFF);
            }
            crate::multiplication::digital_scalar_multiply_in_place_u32(&mut self.digits, rhs);
            proof {
                lemma_vals_in_range::<u32>(self.digits@);
                assert(self.mag() == rhs * m0);
                assert(rhs * m0 >= m0 && rhs * m0 >= 1) by (nonlinear_arith)
                    requires
                        rhs >= 1,
                        m0 >= 1,
                ;
                if self.digits@.len() == n0 {
                    lemma_val_implies_trimmed(vals(self.digits@), b32(), 0xFFFF_FFFF);
                } else {
                    lemma_val_implies_trimmed(vals(self.digits@), b32(), 0xFFFF_FFFF);
                }
                if self.digits@.len() == 1 && self.digits@[0] == 0 {
                    assert(vals(self.digits@) =~= seq![0int]);
                    lemma_seq_val_singleton(0, b32());
                    assert(false);
                }
                let a = old(self).value();
                assert(final(self).value() == a * rhs) by (nonlinear_arith)
                    requires
                        a != 0,
                        rhs >= 1,
                        final(self).value() == if a >= 0 {
                            rhs * (if a >= 0 {
                                a
                            } else {
                                -a
                            })
                        } else {
                            -(rhs * (if a >= 0 {
                                a
                            } else {
                                -a
                            }))
                        },
                ;
            }
        } else {
            proof {
                assert(0 * rhs == 0) by (nonlinear_arith);
            }
        }
    }

    /// The product of `self` and a single-limb scalar.
    pub fn mul_u32(&self, rhs: u32) -> (r: Self)
        requires
            self.well_formed(),
        ensures
            r.well_formed(),
            r.value() == self.value() * rhs,
    {
        if rhs == 0 || self.is_zero() {
            proof {
                lemma_wf_value(*self);
                assert(self.value() * (rhs as int) == 0) by (nonlinear_arith)
                    requires
                        self.value() == 0 || rhs as int == 0,
                ;
            }
            Self::zero()
        } else {
            let mut result = self.clone();
            result.mul_assign_u32(rhs);
            result
        }
    }

    /// Divides by a single-limb scalar in place, flooring the quotient:
    /// Euclidean division, so the quotient of a negative value with a
    /// nonzero remainder rounds its magnitude up, and the scalar round
    /// trip holds for every sign. The divisor must not be zero.
    pub fn div_assign_u32(&mut self, rhs: u32)
        requires
            old(self).well_formed(),
            rhs != 0,
        ensures
            final(self).well_formed(),
            final(self).value() == old(self).value() / rhs as int,
    {
        proof {
            lemma_wf_value(*self);
            vstd::arithmetic::div_mod::lemma_div_pos_is_pos(self.mag(), rhs as int);
            vstd::arithmetic::div_mod::lemma_mod_bound(self.mag(), rhs as int);
            lemma_neg_div_mod(self.mag(), rhs as int);
        }
        let ghost m0 = self.mag();
        let was_negative = self.sign.is_negative();
        let mag_rem = crate::division::digital_scalar_divide_in_place_u32(&mut self.digits, rhs);
        self.trim_zeroes();
        if was_negative && mag_rem != 0 {
            // Flooring: the magnitude of a negative quotient rounds up.
            let ghost pre_add = self.digits@;
            let one_limb: [u32; 1] = [1];
            proof {
                lemma_vals_in_range::<u32>(self.digits@);
                lemma_vals_in_range::<u32>(one_limb@);
                assert(vals(one_limb@) =~= seq![1int]);
                lemma_seq_val_singleton(1, b32());
            }
            crate::addition::digital_add_in_place(&mut self.digits, one_limb.as_slice(),
                crate::wrap::DigitalWrap::Max);
            proof {
                assert(self.mag() == m0 / rhs as int + 1);
                lemma_vals_in_range::<u32>(self.digits@);
                if m0 / rhs as int == 0 {
                    // the quotient was the canonical zero: one more is
                    // a single nonzero limb
                    crate::radix::lemma_seq_val_zero_all_zero(vals(pre_add), b32(), 0xFFFF_FFFF);
                    if pre_add.len() >= 2 {
                        assert(vals(pre_add)[pre_add.len() - 1] == 0);
                        assert(false);
                    }
                    assert(crate::radix::max_nat(pre_add.len(), one_limb@.len()) == 1);
                    if self.digits@.len() >= 2 {
                        vstd::arithmetic::power::lemma_pow1(b32());
                        assert(false);
                    }
                } else {
                    if self.digits@.len() == 0 {
                        assert(vals(self.digits@) =~= Seq::<int>::empty());
                        assert(false);
                    }
                    assert(self.digits@.len() >= crate::radix::max_nat(pre_add.len(), 1));
                    lemma_sum_digits_trimmed(pre_add, one_limb@, self.digits@);
                }
            }
        }
        if self.digits.len() == 1 && self.digits[0] == 0 {
            self.sign = Sign::Zero;
        }
        proof {
            if self.digits@.len() == 1 && self.digits@[0] == 0 {
                assert(vals(self.digits@) =~= seq![0int]);
                lemma_seq_val_singleton(0, b32());
            } else {
                lemma_vals_in_range::<u32>(self.digits@);
                if self.mag() == 0 {
                    lemma_seq_val_zero_all_zero(vals(self.digits@), b32(), 0xFFFF_FFFF);
                    if self.digits@.len() >= 2 {
                        assert(vals(self.digits@)[self.digits@.len() - 1] == 0);
                    }
                    assert(false);
                }
                if old(self).sign == Sign::Zero {
                    vstd::arithmetic::div_mod::lemma_div_of0(rhs as int);
                    assert(false);
                }
            }
        }
    }

    /// The floored (Euclidean) quotient of `self` and a single-limb
    /// scalar.
    pub fn div_u32(&self, rhs: u32) -> (r: Self)
        requires
            self.well_formed(),
            rhs != 0,
        ensures
            r.well_formed(),
            r.value() == self.value() / rhs as int,
    {
        let mut cloned = self.clone();
        cloned.div_assign_u32(rhs);
        cloned
    }

    /// The remainder of Euclidean division by a single-limb scalar:
    /// the nonnegative value below the divisor that the floored
    /// quotient leaves. The divisor must not be zero.
    pub fn rem_u32(&self, rhs: u32) -> (r: u32)
        requires
            self.well_formed(),
            rhs != 0,
        ensures
            r == self.value() % rhs as int,
    {
        proof {
            lemma_wf_value(*self);
            vstd::arithmetic::div_mod::lemma_mod_bound(self.mag(), rhs as int);
            lemma_neg_div_mod(self.mag(), rhs as int);
        }
        let mag_rem = crate::division::digital_scalar_rem_u32(self.digits.as_slice(), rhs);
        if self.sign.is_negative() && mag_rem != 0 {
            rhs - mag_rem
        } else {
            mag_rem
        }
    }

    /// General division. Only the trivial dividend is computed: a zero
    /// divisor and a nonzero multi-limb division are surfaced as
    /// errors, the latter because general division is a deliberate
    /// non-goal of this design.
    pub fn div(&self, rhs: &Self) -> (r: Result<Self, BigIntError>)
        requires
            self.well_formed(),
            rhs.well_formed(),
        ensures
            rhs.value() == 0 ==> r == Result::<Self, BigIntError>::Err(BigIntError::DivideByZero),
            rhs.value() != 0 && self.value() == 0 ==> (r matches Ok(q) && q.well_formed()
                && q.value() == 0),
            rhs.value() != 0 && self.value() != 0 ==> r == Result::<Self, BigIntError>::Err(
                BigIntError::UnsupportedOperation,
            ),
    {
        proof {
            lemma_wf_value(*self);
            lemma_wf_value(*rhs);
        }
        if rhs.is_zero() {
            Err(BigIntError::DivideByZero)
        } else if self.is_zero() {
            Ok(Self::zero())
        } else {
            Err(BigIntError::UnsupportedOperation)
        }
    }

    /// Raises to a power by repeated self-multiplication: one
    /// multiplication for each count above one; the zero exponent
    /// yields one.
    pub fn pow_assign(&mut self, rhs: u64)
        requires
            old(self).well_formed(),
            pow(vstd::math::abs(old(self).value()) as int, rhs as nat) < pow(
                b32(),
                (usize::MAX - old(self).digits@.len()) as nat,
            ),
        ensures
            final(self).well_formed(),
            final(self).value() == pow(old(self).value(), rhs as nat),
    {
        let base = self.clone();
        let base_limbs = base.magnitude();
        let ghost v = old(self).value();
        let ghost k = old(self).digits@.len();
        proof {
            assert(k == base_limbs as nat);
        }
        let ghost bound = pow(b32(), (usize::MAX - k) as nat);
        let mut i: u64 = 1;
        proof {
            vstd::arithmetic::power::lemma_pow1(v);
            lemma_wf_value(*self);
        }
        if rhs == 0 {
            *self = Self::one();
            proof {
                vstd::arithmetic::power::lemma_pow0(v);
            }
            return ;
        }
        while i < rhs
            invariant
                base.well_formed(),
                base.sign == old(self).sign,
                base.digits@ == old(self).digits@,
                base.value() == v,
                self.well_formed(),
                1 <= i <= rhs,
                self.value() == pow(v, i as nat),
                k == old(self).digits@.len(),
                1 <= k <= usize::MAX,
                bound == pow(b32(), (usize::MAX - k) as nat),
                pow(vstd::math::abs(v) as int, rhs as nat) < bound,
            decreases rhs - i,
        {
            proof {
                lemma_pow_fits(v, i as nat, rhs as nat, k, *self, base);
            }
            self.mul_assign(&base);
            proof {
                vstd::arithmetic::power::lemma_pow_adds(v, i as nat, 1);
                vstd::arithmetic::power::lemma_pow1(v);
            }
            i = i + 1;
        }
    }

    /// The receiver raised to a power, by repeated self-multiplication;
    /// the zero exponent yields one.
    pub fn pow(&self, rhs: u64) -> (r: Self)
        requires
            self.well_formed(),
            pow(vstd::math::abs(self.value()) as int, rhs as nat) < pow(
                b32(),
                (usize::MAX - self.digits@.len()) as nat,
            ),
        ensures
            r.well_formed(),
            r.value() == pow(self.value(), rhs as nat),
    {
        let mut result = self.clone();
        result.pow_assign(rhs);
        result
    }

    /// The factorial of the receiver, by an accumulate-and-decrement
    /// loop from the receiver down to zero; negative receivers are
    /// excluded.
    pub fn fact(&self) -> (r: Self)
        requires
            self.well_formed(),
            self.sign != Sign::Negative,
            fact_spec(self.value()) < pow(b32(), (usize::MAX - self.digits@.len()) as nat),
        ensures
            r.well_formed(),
            r.value() == fact_spec(self.value()),
    {
        let mut counter = self.clone();
        let mut result = BigInt::from_u64(1u64);
        let self_limbs = self.magnitude();
        let ghost v = self.value();
        let ghost k = self.digits@.len();
        proof {
            assert(k == self_limbs as nat);
        }
        let ghost bound = pow(b32(), (usize::MAX - k) as nat);
        proof {
            lemma_wf_value(*self);
            lemma_fact_spec_pos(v);
            if k == usize::MAX {
                vstd::arithmetic::power::lemma_pow0(b32());
                assert(false);
            }
        }
        while !counter.is_zero()
            invariant
                counter.well_formed(),
                result.well_formed(),
                counter.sign != Sign::Negative,
                0 <= counter.value() <= v,
                v < pow(b32(), k as nat),
                result.value() >= 1,
                result.value() * fact_spec(counter.value()) == fact_spec(v),
                1 <= k < usize::MAX,
                bound == pow(b32(), (usize::MAX - k) as nat),
                fact_spec(v) < bound,
            decreases counter.value(),
        {
            proof {
                lemma_wf_value(counter);
                lemma_wf_value(result);
                lemma_fact_spec_pos(counter.value());
                lemma_fact_spec_pos(counter.value() - 1);
                assert(result.value() <= fact_spec(v)) by (nonlinear_arith)
                    requires
                        result.value() * fact_spec(counter.value()) == fact_spec(v),
                        fact_spec(counter.value()) >= 1,
                        result.value() >= 1,
                ;
                lemma_len_within(result, fact_spec(v), (usize::MAX - k) as nat);
                lemma_len_within(counter, v, k as nat);
            }
            let ghost r0 = result.value();
            let ghost c0 = counter.value();
            result.mul_assign(&counter);
            counter.decrement();
            proof {
                assert(fact_spec(c0) == c0 * fact_spec(c0 - 1));
                assert((r0 * c0) * fact_spec(c0 - 1) == fact_spec(v)) by (nonlinear_arith)
                    requires
                        r0 * fact_spec(c0) == fact_spec(v),
                        fact_spec(c0) == c0 * fact_spec(c0 - 1),
                ;
                assert(r0 * c0 >= 1) by (nonlinear_arith)
                    requires
                        r0 >= 1,
                        c0 >= 1,
                ;
                lemma_wf_value(counter);
            }
        }
        proof {
            lemma_wf_value(counter);
            assert(counter.value() == 0);
            assert(fact_spec(0) == 1);
            assert(result.value() == fact_spec(v));
        }
        result
    }
}

/// The exponent bound of `pow_assign` keeps every intermediate power,
/// and therefore every limb count, within the address space.
proof fn lemma_pow_fits(v: int, i: nat, rhs: nat, k: nat, cur: BigInt, base: BigInt)
    requires
        1 <= i < rhs,
        cur.well_formed(),
        base.well_formed(),
        base.digits@.len() == k,
        1 <= k <= usize::MAX,
        cur.value() == pow(v, i),
        base.value() == v,
        pow(vstd::math::abs(v) as int, rhs) < pow(b32(), (usize::MAX - k) as nat),
    ensures
        cur.digits@.len() + base.digits@.len() <= usize::MAX,
{
    lemma_wf_value(cur);
    lemma_wf_value(base);
    let a = vstd::math::abs(v);
    vstd::arithmetic::power::lemma_pow_positive(b32(), (usize::MAX - k) as nat);
    lemma_abs_pow(v, i);
    if k == usize::MAX {
        // then even the first power would have to be below one
        vstd::arithmetic::power::lemma_pow0(b32());
        if a >= 1 {
            vstd::arithmetic::power::lemma_pow_positive(a as int, rhs);
            assert(false);
        }
        assert(v == 0);
        assert(base.mag() == 0);
        assert(k == 1);
        assert(false);
    }
    if cur.mag() == 0 {
        // the receiver is the canonical zero: a single limb
        assert(cur.digits@.len() == 1);
    } else {
        lemma_vals_in_range::<u32>(cur.digits@);
        lemma_trimmed_lower(vals(cur.digits@), b32(), 0xFFFF_FFFF);
        // |v|^i <= |v|^rhs needs |v| >= 1; otherwise the power is zero
        if a == 0 {
            vstd::arithmetic::power::lemma0_pow(i);
            assert(false);
        }
        vstd::arithmetic::power::lemma_pow_increases(a, i, rhs);
        assert(pow(b32(), (cur.digits@.len() - 1) as nat) < pow(
            b32(),
            (usize::MAX - k) as nat,
        ));
        lemma_pow_lt_len(b32(), (cur.digits@.len() - 1) as nat, (usize::MAX - k) as nat);
    }
}

/// The magnitude of `v` to a power is the power of its magnitude.
proof fn lemma_abs_pow(v: int, i: nat)
    ensures
        vstd::math::abs(pow(v, i)) == pow(vstd::math::abs(v) as int, i),
    decreases i,
{
    reveal(pow);
    if i > 0 {
        lemma_abs_pow(v, (i - 1) as nat);
        assert(vstd::math::abs(v * pow(v, (i - 1) as nat)) == vstd::math::abs(v)
            * vstd::math::abs(pow(v, (i - 1) as nat))) by (nonlinear_arith);
    }
}

/// Power comparison transfers to the exponents for a radix of at least
/// two.
proof fn lemma_pow_lt_len(b: int, e1: nat, e2: nat)
    requires
        b >= 2,
        pow(b, e1) < pow(b, e2),
    ensures
        e1 < e2,
{
    if e1 >= e2 {
        vstd::arithmetic::power::lemma_pow_increases(b as nat, e2, e1);
        assert(false);
    }
}

/// A well-formed instance whose value is bounded by a radix power has
/// no more limbs than the exponent.
proof fn lemma_len_within(x: BigInt, cap: int, e: nat)
    requires
        x.well_formed(),
        x.value() >= 0,
        x.value() <= cap,
        cap < pow(b32(), e),
        e >= 1,
    ensures
        x.digits@.len() <= e,
{
    lemma_wf_value(x);
    if x.mag() == 0 {
        vstd::arithmetic::power::lemma_pow_positive(b32(), e);
    } else {
        lemma_vals_in_range::<u32>(x.digits@);
        lemma_trimmed_lower(vals(x.digits@), b32(), 0xFFFF_FFFF);
        lemma_pow_lt_len(b32(), (x.digits@.len() - 1) as nat, e);
    }
}

/// Structural ordering of two instances: the conventional sign order
/// first, then magnitude comparison, reversed between two negatives so
/// that the order follows the numeric value.
pub open spec fn order_spec(a: BigInt, b: BigInt) -> Ordering {
    if a.sign.rank() < b.sign.rank() {
        Ordering::Less
    } else if a.sign.rank() > b.sign.rank() {
        Ordering::Greater
    } else if a.sign == Sign::Zero {
        Ordering::Equal
    } else if a.sign == Sign::Negative {
        cmp_spec(vals(b.digits@), vals(a.digits@))
    } else {
        cmp_spec(vals(a.digits@), vals(b.digits@))
    }
}

/// For well-formed instances the structural ordering is the ordering of
/// the numeric values.
pub proof fn lemma_order_value(a: BigInt, b: BigInt)
    requires
        a.well_formed(),
        b.well_formed(),
    ensures
        order_spec(a, b) == Ordering::Less <==> a.value() < b.value(),
        order_spec(a, b) == Ordering::Equal <==> a.value() == b.value(),
        order_spec(a, b) == Ordering::Greater <==> a.value() > b.value(),
{
    lemma_wf_value(a);
    lemma_wf_value(b);
    lemma_vals_in_range::<u32>(a.digits@);
    lemma_vals_in_range::<u32>(b.digits@);
    lemma_cmp_spec_value(vals(a.digits@), vals(b.digits@), b32(), 0xFFFF_FFFF);
    lemma_cmp_spec_value(vals(b.digits@), vals(a.digits@), b32(), 0xFFFF_FFFF);
}

impl PartialEq for BigInt {
    /// Equality of sign and limb vector.
    fn eq(&self, other: &Self) -> (r: bool) {
        let signs_equal = match (self.sign, other.sign) {
            (Sign::Zero, Sign::Zero) => true,
            (Sign::Positive, Sign::Positive) => true,
            (Sign::Negative, Sign::Negative) => true,
            _ => false,
        };
        if !signs_equal {
            return false;
        }
        if self.digits.len() != other.digits.len() {
            proof {
                assert(self.digits@ !~= other.digits@);
            }
            return false;
        }
        let mut i: usize = 0;
        while i < self.digits.len()
            invariant
                i <= self.digits@.len(),
                self.digits@.len() == other.digits@.len(),
                self.sign == other.sign,
                forall|j: int| 0 <= j < i ==> #[trigger] self.digits@[j] == other.digits@[j],
            decreases self.digits@.len() - i,
        {
            if self.digits[i] != other.digits[i] {
                return false;
            }
            i += 1;
        }
        proof {
            assert(self.digits@ =~= other.digits@);
        }
        true
    }
}

impl Eq for BigInt {

}

impl vstd::std_specs::cmp::PartialEqSpecImpl for BigInt {
    open spec fn obeys_eq_spec() -> bool {
        true
    }

    open spec fn eq_spec(&self, other: &Self) -> bool {
        self.sign == other.sign && self.digits@ == other.digits@
    }
}

impl PartialOrd for BigInt {
    /// The total order on values: sign first, then magnitudes, with the
    /// magnitude comparison reversed between two negatives.
    fn partial_cmp(&self, other: &Self) -> (r: Option<Ordering>) {
        let left_rank: u8 = match self.sign {
            Sign::Negative => 0,
            Sign::Zero => 1,
            Sign::Positive => 2,
        };
        let right_rank: u8 = match other.sign {
            Sign::Negative => 0,
            Sign::Zero => 1,
            Sign::Positive => 2,
        };
        if left_rank < right_rank {
            Some(Ordering::Less)
        } else if left_rank > right_rank {
            Some(Ordering::Greater)
        } else {
            match self.sign {
                Sign::Zero => Some(Ordering::Equal),
                Sign::Negative => Some(
                    digital_cmp(other.digits.as_slice(), self.digits.as_slice()),
                ),
                Sign::Positive => Some(
                    digital_cmp(self.digits.as_slice(), other.digits.as_slice()),
                ),
            }
        }
    }
}

impl vstd::std_specs::cmp::PartialOrdSpecImpl for BigInt {
    open spec fn obeys_partial_cmp_spec() -> bool {
        true
    }

    open spec fn partial_cmp_spec(&self, other: &Self) -> Option<Ordering> {
        Some(order_spec(*self, *other))
    }
}

} // verus!

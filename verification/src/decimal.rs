//! Decimal rendering: conversion of magnitudes to base-10 digit
//! sequences and of digit sequences to strings of decimal characters,
//! most significant digit first with no redundant leading zeros.

use vstd::prelude::*;
use vstd::arithmetic::power::pow;
use vstd::string::StringExecFns;
use crate::bigint::BigInt;
use crate::limb::vals;
use crate::multiplication::b32;
use crate::radix::{
    bounded, lemma_pow_unfold, lemma_seq_val_lower, lemma_seq_val_push, lemma_seq_val_singleton,
    lemma_seq_val_upper, seq_val, trimmed,
};
use crate::sign::Sign;
use crate::wrap::DigitalWrap;

verus! {

/// The character of one decimal digit.
pub open spec fn digit_char(d: int) -> char {
    if d == 0 {
        '0'
    } else if d == 1 {
        '1'
    } else if d == 2 {
        '2'
    } else if d == 3 {
        '3'
    } else if d == 4 {
        '4'
    } else if d == 5 {
        '5'
    } else if d == 6 {
        '6'
    } else if d == 7 {
        '7'
    } else if d == 8 {
        '8'
    } else {
        '9'
    }
}

/// The decimal characters of a nonnegative value, most significant
/// digit first; the single character `0` for zero.
pub open spec fn dec_digits_of(v: nat) -> Seq<char>
    decreases v,
{
    if v < 10 {
        seq![digit_char(v as int)]
    } else {
        dec_digits_of(v / 10).push(digit_char((v % 10) as int))
    }
}

/// The decimal characters of a signed value: a leading minus sign for
/// negative values.
pub open spec fn dec_str_spec(v: int) -> Seq<char> {
    if v >= 0 {
        dec_digits_of(v as nat)
    } else {
        seq!['-'] + dec_digits_of((-v) as nat)
    }
}

/// The digit of one decimal character; ten for anything else.
pub open spec fn char_digit(c: char) -> int {
    if c == '0' {
        0
    } else if c == '1' {
        1
    } else if c == '2' {
        2
    } else if c == '3' {
        3
    } else if c == '4' {
        4
    } else if c == '5' {
        5
    } else if c == '6' {
        6
    } else if c == '7' {
        7
    } else if c == '8' {
        8
    } else if c == '9' {
        9
    } else {
        10
    }
}

/// Reads a most-significant-first decimal character sequence back as a
/// value.
pub open spec fn dec_parse(s: Seq<char>) -> int
    decreases s.len(),
{
    if s.len() == 0 {
        0
    } else {
        dec_parse(s.drop_last()) * 10 + char_digit(s.last())
    }
}

/// The decimal rendering round trip: reading the rendered characters
/// of any nonnegative value back gives the value itself.
pub proof fn lemma_dec_round_trip(v: nat)
    ensures
        dec_parse(dec_digits_of(v)) == v,
    decreases v,
{
    if v < 10 {
        let s = dec_digits_of(v);
        assert(s.drop_last() =~= Seq::<char>::empty());
        assert(dec_parse(s.drop_last()) == 0);
        assert(s.last() == digit_char(v as int));
        assert(char_digit(digit_char(v as int)) == v);
    } else {
        lemma_dec_round_trip(v / 10);
        let s = dec_digits_of(v);
        assert(s.drop_last() =~= dec_digits_of(v / 10));
        assert(s.last() == digit_char((v % 10) as int));
        vstd::arithmetic::div_mod::lemma_fundamental_div_mod(v as int, 10);
        assert(char_digit(digit_char((v % 10) as int)) == v % 10);
    }
}

/// A little-endian digit sequence read back as characters, most
/// significant digit first.
pub open spec fn dec_chars_msd(s: Seq<int>) -> Seq<char> {
    Seq::new(s.len(), |i: int| digit_char(s[s.len() - 1 - i]))
}

/// Rendering the value of a trimmed little-endian decimal digit
/// sequence gives exactly its digits, most significant first.
pub proof fn lemma_dec_chars(s: Seq<int>)
    requires
        s.len() >= 1,
        bounded(s, 9),
        trimmed(s),
    ensures
        dec_digits_of(seq_val(s, 10) as nat) =~= dec_chars_msd(s),
    decreases s.len(),
{
    let v = seq_val(s, 10);
    lemma_seq_val_upper(s, 10, 9);
    if s.len() == 1 {
        assert(s =~= seq![s[0]]);
        lemma_seq_val_singleton(s[0], 10);
        assert(dec_chars_msd(s) =~= seq![digit_char(s[0])]);
    } else {
        lemma_seq_val_lower(s, 10, 9);
        vstd::arithmetic::power::lemma_pow1(10);
        vstd::arithmetic::power::lemma_pow_increases(10, 1, (s.len() - 1) as nat);
        assert(v >= 10);
        let tail = s.skip(1);
        assert(tail[tail.len() - 1] == s[s.len() - 1]);
        lemma_dec_chars(tail);
        lemma_seq_val_upper(tail, 10, 9);
        vstd::arithmetic::div_mod::lemma_fundamental_div_mod_converse(
            v,
            10,
            seq_val(tail, 10),
            s[0],
        );
        assert(dec_chars_msd(s) =~= dec_chars_msd(tail).push(digit_char(s[0]))) by {
            assert forall|i: int| 0 <= i < s.len() implies #[trigger] dec_chars_msd(s)[i] == (
            dec_chars_msd(tail).push(digit_char(s[0])))[i] by {
                if i < s.len() - 1 {
                    assert(tail[tail.len() - 1 - i] == s[s.len() - 1 - i]);
                }
            }
        }
    }
}

/// Appends the character of one decimal digit.
///
/// Each digit maps to its own string literal so the appended view is
/// pinned exactly.
pub fn append_digit(out: &mut String, d: u32)
    requires
        d <= 9,
    ensures
        final(out)@ == old(out)@.push(digit_char(d as int)),
{
    match d {
        0 => {
            proof {
                reveal_strlit("0");
            }
            out.append("0");
        },
        1 => {
            proof {
                reveal_strlit("1");
            }
            out.append("1");
        },
        2 => {
            proof {
                reveal_strlit("2");
            }
            out.append("2");
        },
        3 => {
            proof {
                reveal_strlit("3");
            }
            out.append("3");
        },
        4 => {
            proof {
                reveal_strlit("4");
            }
            out.append("4");
        },
        5 => {
            proof {
                reveal_strlit("5");
            }
            out.append("5");
        },
        6 => {
            proof {
                reveal_strlit("6");
            }
            out.append("6");
        },
        7 => {
            proof {
                reveal_strlit("7");
            }
            out.append("7");
        },
        8 => {
            proof {
                reveal_strlit("8");
            }
            out.append("8");
        },
        _ => {
            proof {
                reveal_strlit("9");
            }
            out.append("9");
        },
    }
    proof {
        assert(final(out)@ =~= old(out)@.push(digit_char(d as int)));
    }
}

/// Appends a little-endian decimal digit sequence as characters, most
/// significant digit first.
pub fn append_digits_msd(out: &mut String, digits: &[u32])
    requires
        bounded(vals(digits@), 9),
    ensures
        final(out)@ == old(out)@ + dec_chars_msd(vals(digits@)),
{
    let ghost base_str = old(out)@;
    let ghost chars = dec_chars_msd(vals(digits@));
    let n = digits.len();
    let mut i: usize = n;
    proof {
        assert(out@ =~= base_str + chars.take(0));
    }
    while i > 0
        invariant
            i <= n,
            n == digits@.len(),
            bounded(vals(digits@), 9),
            chars == dec_chars_msd(vals(digits@)),
            out@ =~= base_str + chars.take(n - i),
        decreases i,
    {
        i -= 1;
        proof {
            assert(vals(digits@)[i as int] == digits@[i as int] as int);
        }
        append_digit(out, digits[i]);
        proof {
            assert(chars[n - i - 1] == digit_char(vals(digits@)[i as int]));
            assert(out@ =~= base_str + chars.take(n - i));
        }
    }
    proof {
        assert(chars.take(n as int) =~= chars);
    }
}

/// The decimal digit-collection loop: the little-endian base-10 digits
/// of a nonnegative double-width value.
pub fn collect_dec_digits_u128(value: u128) -> (r: Vec<u32>)
    ensures
        bounded(vals(r@), 9),
        trimmed(vals(r@)),
        r@.len() >= 1,
        seq_val(vals(r@), 10) == value,
{
    let mut copied = value;
    let mut rev: Vec<u32> = Vec::new();
    if value == 0 {
        rev.push(0);
        proof {
            assert(vals(rev@) =~= seq![0int]);
            lemma_seq_val_singleton(0, 10);
        }
        return rev;
    }
    proof {
        vstd::arithmetic::power::lemma_pow0(10);
        assert(vals(rev@) =~= Seq::<int>::empty());
    }
    while copied > 0
        invariant
            bounded(vals(rev@), 9),
            seq_val(vals(rev@), 10) + copied * pow(10, rev@.len()) == value,
            copied == 0 ==> rev@.len() >= 1 && vals(rev@)[rev@.len() - 1] != 0,
            rev@.len() >= 1 ==> (vals(rev@)[rev@.len() - 1] != 0 || copied >= 1),
        decreases copied,
    {
        let digit = (copied % 10) as u32;
        let ghost pre_copied = copied as int;
        let ghost pre_rev = rev@;
        copied = copied / 10;
        rev.push(digit);
        proof {
            vstd::arithmetic::div_mod::lemma_fundamental_div_mod(pre_copied, 10);
            assert(vals(rev@) =~= vals(pre_rev).push(digit as int));
            lemma_seq_val_push(vals(pre_rev), 10, digit as int);
            lemma_pow_unfold(10, (pre_rev.len() + 1) as nat);
            vstd::arithmetic::power::lemma_pow_positive(10, pre_rev.len());
            let p = pow(10, pre_rev.len());
            let s0 = seq_val(vals(pre_rev), 10);
            assert(s0 + p * (digit as int) + (copied as int) * (10 * p) == s0 + pre_copied * p)
                by (nonlinear_arith)
                requires
                    pre_copied == 10 * (copied as int) + digit,
            ;
            if copied == 0 {
                vstd::arithmetic::div_mod::lemma_basic_div(pre_copied, 10);
            }
        }
    }
    proof {
        assert(pow(10, rev@.len()) >= 0) by {
            vstd::arithmetic::power::lemma_pow_positive(10, rev@.len());
        }
        if rev@.len() == 0 {
            assert(seq_val(vals(rev@), 10) == 0);
            assert(false);
        }
    }
    rev
}

/// Appends the decimal form of a double-width value.
fn append_dec_u128(out: &mut String, value: u128)
    ensures
        final(out)@ == old(out)@ + dec_digits_of(value as nat),
{
    let rev = collect_dec_digits_u128(value);
    proof {
        lemma_dec_chars(vals(rev@));
    }
    append_digits_msd(out, rev.as_slice());
}

impl DigitalWrap {
    /// A readable description of the wrap point.
    pub fn to_string(&self) -> (r: String)
        ensures
            *self is Max ==> r@ == "Maximum Value"@,
            *self is Ten ==> r@ == "10"@,
            self matches DigitalWrap::U128(v) ==> r@ == dec_digits_of(v as nat) + "u128"@,
            self matches DigitalWrap::U64(v) ==> r@ == dec_digits_of(v as nat) + "u64"@,
            self matches DigitalWrap::U32(v) ==> r@ == dec_digits_of(v as nat) + "u32"@,
            self matches DigitalWrap::U16(v) ==> r@ == dec_digits_of(v as nat) + "u16"@,
            self matches DigitalWrap::U8(v) ==> r@ == dec_digits_of(v as nat) + "u8"@,
    {
        let mut out = String::new();
        match self {
            DigitalWrap::Max => {
                out.append("Maximum Value");
            },
            DigitalWrap::Ten => {
                out.append("10");
            },
            DigitalWrap::U128(val) => {
                append_dec_u128(&mut out, *val);
                out.append("u128");
            },
            DigitalWrap::U64(val) => {
                append_dec_u128(&mut out, *val as u128);
                out.append("u64");
            },
            DigitalWrap::U32(val) => {
                append_dec_u128(&mut out, *val as u128);
                out.append("u32");
            },
            DigitalWrap::U16(val) => {
                append_dec_u128(&mut out, *val as u128);
                out.append("u16");
            },
            DigitalWrap::U8(val) => {
                append_dec_u128(&mut out, *val as u128);
                out.append("u8");
            },
        }
        out
    }
}

/// Conversion of a native unsigned integer into its little-endian
/// decimal digits.
pub trait Digital {
    spec fn digital_val(&self) -> int;

    fn as_digits(&self) -> (r: Vec<u8>)
        ensures
            bounded(vals(r@), 9),
            trimmed(vals(r@)),
            r@.len() >= 1,
            seq_val(vals(r@), 10) == self.digital_val(),
    ;
}

impl Digital for u64 {
    open spec fn digital_val(&self) -> int {
        *self as int
    }

    fn as_digits(&self) -> (r: Vec<u8>) {
        if *self < 10 {
            let mut rev: Vec<u8> = Vec::new();
            rev.push(*self as u8);
            proof {
                assert(vals(rev@) =~= seq![*self as int]);
                lemma_seq_val_singleton(*self as int, 10);
            }
            return rev;
        }
        let wide = collect_dec_digits_u128(*self as u128);
        let mut rev: Vec<u8> = Vec::new();
        let mut i: usize = 0;
        while i < wide.len()
            invariant
                i <= wide@.len(),
                bounded(vals(wide@), 9),
                vals(rev@) == vals(wide@).take(i as int),
            decreases wide@.len() - i,
        {
            proof {
                assert(vals(wide@)[i as int] <= 9);
            }
            let element = wide[i] as u8;
            let ghost pre_rev = rev@;
            rev.push(element);
            proof {
                assert(rev@ == pre_rev.push(element));
                assert(vals(pre_rev).len() == i as int);
                assert(pre_rev.len() == i as int);
                assert forall|j: int| 0 <= j < i + 1 implies #[trigger] vals(rev@)[j] == vals(
                    wide@,
                ).take(i + 1)[j] by {
                    assert(pre_rev.len() == i as int);
                    assert(rev@ == pre_rev.push(element));
                    if j < i {
                        assert(vals(pre_rev)[j] == vals(wide@).take(i as int)[j]);
                        assert(pre_rev.push(element)[j] == pre_rev[j]);
                    } else {
                        assert(pre_rev.push(element)[j] == element);
                        assert(element as int == wide@[i as int] as int);
                    }
                }
                assert(vals(rev@) =~= vals(wide@).take(i + 1));
            }
            i += 1;
        }
        proof {
            assert(vals(wide@).take(wide@.len() as int) =~= vals(wide@));
        }
        rev
    }
}

impl Digital for u32 {
    open spec fn digital_val(&self) -> int {
        *self as int
    }

    fn as_digits(&self) -> (r: Vec<u8>) {
        if *self < 10 {
            let mut rev: Vec<u8> = Vec::new();
            rev.push(*self as u8);
            proof {
                assert(vals(rev@) =~= seq![*self as int]);
                lemma_seq_val_singleton(*self as int, 10);
            }
            return rev;
        }
        let wide = collect_dec_digits_u128(*self as u128);
        let mut rev: Vec<u8> = Vec::new();
        let mut i: usize = 0;
        while i < wide.len()
            invariant
                i <= wide@.len(),
                bounded(vals(wide@), 9),
                vals(rev@) == vals(wide@).take(i as int),
            decreases wide@.len() - i,
        {
            proof {
                assert(vals(wide@)[i as int] <= 9);
            }
            let element = wide[i] as u8;
            let ghost pre_rev = rev@;
            rev.push(element);
            proof {
                assert(rev@ == pre_rev.push(element));
                assert(vals(pre_rev).len() == i as int);
                assert(pre_rev.len() == i as int);
                assert forall|j: int| 0 <= j < i + 1 implies #[trigger] vals(rev@)[j] == vals(
                    wide@,
                ).take(i + 1)[j] by {
                    assert(pre_rev.len() == i as int);
                    assert(rev@ == pre_rev.push(element));
                    if j < i {
                        assert(vals(pre_rev)[j] == vals(wide@).take(i as int)[j]);
                        assert(pre_rev.push(element)[j] == pre_rev[j]);
                    } else {
                        assert(pre_rev.push(element)[j] == element);
                        assert(element as int == wide@[i as int] as int);
                    }
                }
                assert(vals(rev@) =~= vals(wide@).take(i + 1));
            }
            i += 1;
        }
        proof {
            assert(vals(wide@).take(wide@.len() as int) =~= vals(wide@));
        }
        rev
    }
}

impl BigInt {
    /// The decimal rendering of the value: digits most significant
    /// first, no redundant leading zeros, a leading minus sign on
    /// negative values.
    pub fn to_string(&self) -> (r: String)
        requires
            self.well_formed(),
        ensures
            r@ == dec_str_spec(self.value()),
    {
        proof {
            crate::bigint::lemma_wf_value(*self);
        }
        let mut out = String::new();
        if self.is_zero() {
            proof {
                reveal_strlit("0");
            }
            out.append("0");
            proof {
                assert(out@ =~= seq!['0']);
                assert(dec_digits_of(0) =~= seq![digit_char(0)]);
            }
            return out;
        }
        if self.sign().is_negative() {
            proof {
                reveal_strlit("-");
            }
            out.append("-");
            proof {
                assert(out@ =~= seq!['-']);
            }
        }
        let ghost m0 = self.mag();
        let ghost prefix = out@;
        let mut cloned = self.clone();
        if cloned.sign().is_negative() {
            // the digit loop walks the magnitude
            cloned.negate();
        }
        let mut rev: Vec<u32> = Vec::new();
        proof {
            vstd::arithmetic::power::lemma_pow0(10);
            assert(vals(rev@) =~= Seq::<int>::empty());
        }
        while !cloned.is_zero()
            invariant
                cloned.well_formed(),
                cloned.sign != Sign::Negative,
                bounded(vals(rev@), 9),
                seq_val(vals(rev@), 10) + cloned.mag() * pow(10, rev@.len()) == m0,
                cloned.mag() == 0 ==> rev@.len() >= 1 && vals(rev@)[rev@.len() - 1] != 0,
                rev@.len() >= 1 ==> (vals(rev@)[rev@.len() - 1] != 0 || cloned.mag() >= 1),
                m0 >= 1,
            decreases cloned.mag(),
        {
            proof {
                crate::bigint::lemma_wf_value(cloned);
                assert(cloned.value() == cloned.mag());
                vstd::arithmetic::div_mod::lemma_mod_bound(cloned.mag(), 10);
                vstd::arithmetic::div_mod::lemma_div_pos_is_pos(cloned.mag(), 10);
                vstd::arithmetic::div_mod::lemma_div_is_strictly_smaller(cloned.mag(), 10);
            }
            let digit = cloned.rem_u32(10);
            let ghost pre_mag = cloned.mag();
            let ghost pre_rev = rev@;
            cloned.div_assign_u32(10);
            rev.push(digit);
            proof {
                crate::bigint::lemma_wf_value(cloned);
                vstd::arithmetic::div_mod::lemma_fundamental_div_mod(pre_mag, 10);
                assert(vals(rev@) =~= vals(pre_rev).push(digit as int));
                lemma_seq_val_push(vals(pre_rev), 10, digit as int);
                lemma_pow_unfold(10, (pre_rev.len() + 1) as nat);
                vstd::arithmetic::power::lemma_pow_positive(10, pre_rev.len());
                let p = pow(10, pre_rev.len());
                let s0 = seq_val(vals(pre_rev), 10);
                assert(s0 + p * (digit as int) + cloned.mag() * (10 * p) == s0 + pre_mag * p)
                    by (nonlinear_arith)
                    requires
                        pre_mag == 10 * cloned.mag() + digit,
                ;
                if cloned.mag() == 0 {
                    vstd::arithmetic::div_mod::lemma_basic_div(pre_mag, 10);
                }
            }
        }
        proof {
            crate::bigint::lemma_wf_value(cloned);
            vstd::arithmetic::power::lemma_pow_positive(10, rev@.len());
            if rev@.len() == 0 {
                assert(seq_val(vals(rev@), 10) == 0);
                assert(false);
            }
            lemma_dec_chars(vals(rev@));
        }
        append_digits_msd(&mut out, rev.as_slice());
        out
    }
}

} // verus!

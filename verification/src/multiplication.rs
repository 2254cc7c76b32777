//! Multiplication of u32 limb sequences: single-limb multiply with a
//! double-width intermediate, the scalar (one-limb) multiplier, and the
//! schoolbook convolution multiplier it builds on.

use vstd::prelude::*;
use vstd::arithmetic::power::pow;
use vstd::arithmetic::mul::{lemma_mul_inequality, lemma_mul_nonnegative};
use crate::addition::{digital_add, digital_add_in_place, wrapping_add};
use crate::limb::{Limb, base_of, copy_limbs, lemma_vals_in_range, sub_limbs, vals, wrap_of, wrap_ok};
use crate::subtraction::digital_subtract;
use crate::radix::{
    bounded, lemma_pow_unfold, lemma_seq_val_all_zero, lemma_seq_val_nonneg, lemma_seq_val_push,
    lemma_seq_val_singleton, lemma_seq_val_split, lemma_seq_val_take_succ, lemma_seq_val_upper,
    max_nat, seq_val,
};
use crate::wrap::DigitalWrap;

verus! {

/// The radix of the u32 limb representation: one more than `u32::MAX`.
pub open spec fn b32() -> int {
    0x1_0000_0000
}

/// The numeric value of a u32 limb sequence.
pub open spec fn limbs_val(s: Seq<u32>) -> int {
    seq_val(vals(s), b32())
}

/// The full product of two limbs, in a double-width intermediate.
pub fn higher_order_multiply(lhs: u32, rhs: u32) -> (r: u64)
    ensures
        r == lhs as int * rhs as int,
{
    proof {
        lemma_mul_inequality(lhs as int, 0xFFFF_FFFF, rhs as int);
        lemma_mul_inequality(rhs as int, 0xFFFF_FFFF, 0xFFFF_FFFF);
        lemma_mul_nonnegative(lhs as int, rhs as int);
        vstd::arithmetic::mul::lemma_mul_is_commutative(rhs as int, 0xFFFF_FFFF);
    }
    lhs as u64 * rhs as u64
}

/// Splits a double-width product: stores the low limb through `target`
/// and returns the overflowed high limb.
pub fn fit_shift(val: u64, target: &mut u32) -> (r: u32)
    ensures
        *final(target) == val as int % b32(),
        r == val as int / b32(),
{
    proof {
        assert(((val as u32) as u64) == val % 0x1_0000_0000u64) by (bit_vector);
        assert(val >> 32u64 == val / 0x1_0000_0000u64) by (bit_vector);
        assert(val / 0x1_0000_0000u64 < 0x1_0000_0000u64) by (bit_vector);
    }
    let ceil_val = u32::MAX as u64;
    if val <= ceil_val {
        *target = #[verifier::truncate] (val as u32);
        0
    } else {
        *target = #[verifier::truncate] (val as u32);
        (val >> 32) as u32
    }
}

/// Multiplies every limb of `lhs` by the single limb `rhs` in place,
/// chaining the overflow of each product into the next position and
/// appending a final limb if a carry escapes.
pub fn digital_scalar_multiply_in_place_u32(lhs: &mut Vec<u32>, rhs: u32)
    ensures
        limbs_val(final(lhs)@) == rhs * limbs_val(old(lhs)@),
        final(lhs)@.len() >= old(lhs)@.len(),
        final(lhs)@.len() <= old(lhs)@.len() + 1,
        final(lhs)@.len() > old(lhs)@.len() ==> limbs_val(final(lhs)@) >= pow(
            b32(),
            old(lhs)@.len(),
        ),
{
    let ghost orig = old(lhs)@;
    let mut carry: u32 = 0;
    let mut idx: usize = 0;
    proof {
        assert(vals(lhs@).take(0) =~= Seq::<int>::empty());
        assert(vals(orig).take(0) =~= Seq::<int>::empty());
        vstd::arithmetic::power::lemma_pow0(b32());
        assert(wrap_of::<u32>(DigitalWrap::Max) == 0xFFFF_FFFF);
    }
    while idx < lhs.len()
        invariant
            lhs@.len() == orig.len(),
            idx <= orig.len(),
            lhs@.skip(idx as int) == orig.skip(idx as int),
            seq_val(vals(lhs@).take(idx as int), b32()) + carry * pow(b32(), idx as nat) == rhs
                * seq_val(vals(orig).take(idx as int), b32()),
        decreases lhs@.len() - idx,
    {
        let el = lhs[idx];
        let product = higher_order_multiply(el, rhs);
        let mut low: u32 = 0;
        let after_fit = fit_shift(product, &mut low);
        let before_carry = low;
        proof {
            assert(wrap_of::<u32>(DigitalWrap::Max) == 0xFFFF_FFFF);
            assert(el as int * rhs as int <= 0xFFFF_FFFF * 0xFFFF_FFFF) by {
                lemma_mul_inequality(el as int, 0xFFFF_FFFF, rhs as int);
                lemma_mul_inequality(rhs as int, 0xFFFF_FFFF, 0xFFFF_FFFF);
                vstd::arithmetic::mul::lemma_mul_is_commutative(rhs as int, 0xFFFF_FFFF);
            }
            assert(after_fit <= 0xFFFF_FFFE) by {
                vstd::arithmetic::div_mod::lemma_div_is_ordered(
                    el as int * rhs as int,
                    0xFFFF_FFFF as int * 0xFFFF_FFFF as int,
                    b32(),
                );
            }
        }
        let wrapped = wrapping_add::<u32>(low, carry, DigitalWrap::Max);
        let carry_flag: u32 = if wrapped < before_carry {
            1
        } else {
            0
        };
        let ghost pre = lhs@;
        let ghost cin = carry as int;
        lhs[idx] = wrapped;
        carry = after_fit + carry_flag;
        proof {
            let a = vals(orig)[idx as int];
            assert(el == orig[idx as int]) by {
                assert(pre.skip(idx as int)[0] == orig.skip(idx as int)[0]);
            }
            assert(lhs@ == pre.update(idx as int, wrapped));
            assert(lhs@.skip(idx + 1) =~= orig.skip(idx + 1)) by {
                assert forall|j: int|
                    0 <= j < lhs@.skip(idx + 1).len() implies #[trigger] lhs@.skip(idx + 1)[j]
                    == orig.skip(idx + 1)[j] by {
                    assert(pre.skip(idx as int)[j + 1] == orig.skip(idx as int)[j + 1]);
                }
            }
            assert(vals(lhs@).take(idx + 1) =~= vals(pre).take(idx as int).push(wrapped as int));
            assert(vals(lhs@).take(idx as int) =~= vals(pre).take(idx as int));
            let p = pow(b32(), idx as nat);
            vstd::arithmetic::power::lemma_pow_positive(b32(), idx as nat);
            lemma_pow_unfold(b32(), (idx + 1) as nat);
            lemma_seq_val_push(vals(pre).take(idx as int), b32(), wrapped as int);
            lemma_seq_val_take_succ(vals(orig), b32(), idx as int);
            let flag: int = if carry_flag == 1 {
                1
            } else {
                0
            };
            let s0 = seq_val(vals(pre).take(idx as int), b32());
            let s_new = seq_val(vals(lhs@).take(idx + 1), b32());
            let o_old = seq_val(vals(orig).take(idx as int), b32());
            let o_new = seq_val(vals(orig).take(idx + 1), b32());
            assert(s_new + (carry as int) * pow(b32(), (idx + 1) as nat) == rhs * o_new)
                by (nonlinear_arith)
                requires
                    s_new == s0 + p * (wrapped as int),
                    pow(b32(), (idx + 1) as nat) == b32() * p,
                    s0 + cin * p == rhs * o_old,
                    o_new == o_old + p * a,
                    el as int * rhs as int == (before_carry as int) + b32() * (after_fit as int),
                    wrapped as int == before_carry + cin - b32() * flag,
                    carry as int == after_fit + flag,
                    a == el as int,
            ;
        }
        idx += 1;
    }
    proof {
        assert(vals(lhs@).take(idx as int) =~= vals(lhs@));
        assert(vals(orig).take(idx as int) =~= vals(orig));
    }
    if carry > 0 {
        proof {
            assert(vals(lhs@.push(carry)) =~= vals(lhs@).push(carry as int));
            lemma_seq_val_push(vals(lhs@), b32(), carry as int);
            lemma_seq_val_nonneg(vals(lhs@), b32());
            vstd::arithmetic::power::lemma_pow_positive(b32(), idx as nat);
            lemma_mul_inequality(1, carry as int, pow(b32(), idx as nat));
            vstd::arithmetic::mul::lemma_mul_is_commutative(
                pow(b32(), idx as nat),
                carry as int,
            );
        }
        lhs.push(carry);
    }
}

/// The product of a limb sequence and a single limb, allocating anew.
pub fn digital_scalar_multiply_u32(lhs: &[u32], rhs: u32) -> (r: Vec<u32>)
    ensures
        limbs_val(r@) == rhs * limbs_val(lhs@),
        r@.len() >= lhs@.len(),
        r@.len() <= lhs@.len() + 1,
        r@.len() > lhs@.len() ==> limbs_val(r@) >= pow(b32(), lhs@.len()),
{
    let mut clone = copy_limbs(lhs);
    digital_scalar_multiply_in_place_u32(&mut clone, rhs);
    clone
}

/// The full product of two u32 limb sequences. Degenerate operands (a
/// missing or single limb) delegate to the single-limb paths; longer
/// operands go through the schoolbook convolution, accumulating one
/// shifted, scaled copy of `lhs` for each limb of `rhs`.
pub fn digital_multiply_u32(lhs: &[u32], rhs: &[u32]) -> (r: Vec<u32>)
    requires
        lhs@.len() + rhs@.len() <= usize::MAX,
    ensures
        limbs_val(r@) == limbs_val(lhs@) * limbs_val(rhs@),
        r@.len() >= 1,
        lhs@.len() >= 1 && rhs@.len() >= 1 ==> r@.len() <= lhs@.len() + rhs@.len(),
        lhs@.len() >= 1 && rhs@.len() >= 1 ==> r@.len() >= max_nat(lhs@.len(), rhs@.len()),
        lhs@.len() >= 2 && rhs@.len() >= 2 ==> r@.len() == lhs@.len() + rhs@.len(),
{
    let n = lhs.len();
    let m = rhs.len();
    if n == 0 || m == 0 {
        let mut out: Vec<u32> = Vec::new();
        out.push(0u32);
        proof {
            assert(vals(out@) =~= seq![0int]);
            lemma_seq_val_singleton(0, b32());
            if n == 0 {
                assert(vals(lhs@) =~= Seq::<int>::empty());
                assert(limbs_val(lhs@) * limbs_val(rhs@) == 0) by (nonlinear_arith)
                    requires
                        limbs_val(lhs@) == 0,
                ;
            } else {
                assert(vals(rhs@) =~= Seq::<int>::empty());
                assert(limbs_val(lhs@) * limbs_val(rhs@) == 0) by (nonlinear_arith)
                    requires
                        limbs_val(rhs@) == 0,
                ;
            }
        }
        return out;
    }
    if n == 1 && m == 1 {
        let product = higher_order_multiply(lhs[0], rhs[0]);
        let mut low: u32 = 0;
        let high = fit_shift(product, &mut low);
        proof {
            vstd::arithmetic::div_mod::lemma_fundamental_div_mod(product as int, b32());
            assert(vals(lhs@) =~= seq![lhs@[0] as int]);
            assert(vals(rhs@) =~= seq![rhs@[0] as int]);
            lemma_seq_val_singleton(lhs@[0] as int, b32());
            lemma_seq_val_singleton(rhs@[0] as int, b32());
        }
        let mut out: Vec<u32> = Vec::new();
        out.push(low);
        if product > u32::MAX as u64 {
            out.push(high);
            proof {
                assert(vals(out@) =~= seq![low as int].push(high as int));
                lemma_seq_val_push(seq![low as int], b32(), high as int);
                lemma_seq_val_singleton(low as int, b32());
                vstd::arithmetic::power::lemma_pow1(b32());
            }
        } else {
            proof {
                assert(vals(out@) =~= seq![low as int]);
                lemma_seq_val_singleton(low as int, b32());
                assert(product as int / b32() == 0) by {
                    vstd::arithmetic::div_mod::lemma_basic_div(product as int, b32());
                }
            }
        }
        return out;
    }
    if n == 1 {
        let r = digital_scalar_multiply_u32(rhs, lhs[0]);
        proof {
            assert(vals(lhs@) =~= seq![lhs@[0] as int]);
            lemma_seq_val_singleton(lhs@[0] as int, b32());
            vstd::arithmetic::mul::lemma_mul_is_commutative(limbs_val(lhs@), limbs_val(rhs@));
        }
        return r;
    }
    if m == 1 {
        let r = digital_scalar_multiply_u32(lhs, rhs[0]);
        proof {
            assert(vals(rhs@) =~= seq![rhs@[0] as int]);
            lemma_seq_val_singleton(rhs@[0] as int, b32());
            vstd::arithmetic::mul::lemma_mul_is_commutative(limbs_val(lhs@), limbs_val(rhs@));
        }
        return r;
    }

    let result_len = n + m;
    let mut result: Vec<u32> = vec![0u32; result_len];
    let mut idx: usize = 0;
    proof {
        assert forall|k: int| 0 <= k < vals(result@).len() implies #[trigger] vals(result@)[k]
            == 0 by {}
        lemma_seq_val_all_zero(vals(result@), b32());
        assert(vals(rhs@).take(0) =~= Seq::<int>::empty());
        assert(limbs_val(lhs@) * 0 == 0) by (nonlinear_arith);
    }
    while idx < m
        invariant
            n == lhs@.len(),
            m == rhs@.len(),
            1 <= n,
            1 <= m,
            n + m <= usize::MAX,
            result_len == n + m,
            idx <= m,
            result@.len() == n + m,
            limbs_val(result@) == limbs_val(lhs@) * seq_val(vals(rhs@).take(idx as int), b32()),
        decreases m - idx,
    {
        let digit = rhs[idx];
        let mut scaled: Vec<u32> = vec![0u32; result_len];
        let mut j: usize = 0;
        while j < n
            invariant
                n == lhs@.len(),
                idx < m,
                result_len == n + m,
                n + m <= usize::MAX,
                j <= n,
                scaled@.len() == result_len,
                forall|k: int|
                    0 <= k < scaled@.len() ==> #[trigger] vals(scaled@)[k] == if idx <= k < idx + j {
                        vals(lhs@)[k - idx]
                    } else {
                        0
                    },
            decreases n - j,
        {
            let ghost pre = scaled@;
            scaled[idx + j] = lhs[j];
            proof {
                assert(scaled@ == pre.update(idx + j, lhs@[j as int]));
                assert forall|k: int|
                    0 <= k < scaled@.len() implies #[trigger] vals(scaled@)[k] == if idx <= k < idx
                    + j + 1 {
                    vals(lhs@)[k - idx]
                } else {
                    0
                } by {
                    if k != idx + j {
                        assert(vals(pre)[k] == vals(scaled@)[k]);
                    }
                }
            }
            j += 1;
        }
        let ghost lval = limbs_val(lhs@);
        let ghost pidx = pow(b32(), idx as nat);
        proof {
            lemma_vals_in_range::<u32>(lhs@);
            lemma_vals_in_range::<u32>(rhs@);
            lemma_seq_val_upper(vals(lhs@), b32(), 0xFFFF_FFFF);
            // The freshly built buffer holds lhs shifted up by idx limbs.
            lemma_seq_val_split(vals(scaled@), b32(), idx as int);
            assert forall|k: int|
                0 <= k < vals(scaled@).take(idx as int).len() implies #[trigger] vals(
                scaled@,
            ).take(idx as int)[k] == 0 by {}
            lemma_seq_val_all_zero(vals(scaled@).take(idx as int), b32());
            let high = vals(scaled@).skip(idx as int);
            lemma_seq_val_split(high, b32(), n as int);
            assert(high.take(n as int) =~= vals(lhs@));
            assert forall|k: int| 0 <= k < high.skip(n as int).len() implies #[trigger] high.skip(
                n as int,
            )[k] == 0 by {
                assert(high.skip(n as int)[k] == vals(scaled@)[idx + n + k]);
            }
            lemma_seq_val_all_zero(high.skip(n as int), b32());
            assert(pow(b32(), n as nat) * 0 == 0) by (nonlinear_arith);
            assert(limbs_val(scaled@) == pidx * lval);
        }
        digital_scalar_multiply_in_place_u32(&mut scaled, digit);
        proof {
            // digit * (shifted lhs) still fits in n + m limbs.
            vstd::arithmetic::power::lemma_pow_adds(b32(), idx as nat, n as nat);
            vstd::arithmetic::power::lemma_pow_positive(b32(), (idx + n) as nat);
            vstd::arithmetic::power::lemma_pow_positive(b32(), idx as nat);
            lemma_pow_unfold(b32(), (idx + n + 1) as nat);
            assert(pow(b32(), (idx + n + 1) as nat) == b32() * pow(b32(), (idx + n) as nat));
            assert(limbs_val(scaled@) == digit * (pidx * lval));
            assert(pidx * lval < pow(b32(), (idx + n) as nat)) by (nonlinear_arith)
                requires
                    0 < pidx,
                    0 <= lval,
                    lval < pow(b32(), n as nat),
                    pidx * pow(b32(), n as nat) == pow(b32(), (idx + n) as nat),
            ;
            assert(digit * (pidx * lval) < b32() * pow(b32(), (idx + n) as nat))
                by (nonlinear_arith)
                requires
                    0 <= (digit as int),
                    (digit as int) < b32(),
                    0 <= pidx,
                    0 <= lval,
                    pidx * lval < pow(b32(), (idx + n) as nat),
                    pidx * pow(b32(), n as nat) == pow(b32(), (idx + n) as nat),
                    lval < pow(b32(), n as nat),
                    0 < pow(b32(), (idx + n) as nat),
            ;
            if idx + n + 1 <= n + m {
                vstd::arithmetic::power::lemma_pow_increases(
                    b32() as nat,
                    (idx + n + 1) as nat,
                    (n + m) as nat,
                );
            }
            assert(limbs_val(scaled@) < pow(b32(), (n + m) as nat));
            assert(scaled@.len() == n + m);
        }
        let ghost r_pre = result@;
        digital_add_in_place(&mut result, scaled.as_slice(), DigitalWrap::Max);
        proof {
            assert(wrap_of::<u32>(DigitalWrap::Max) == 0xFFFF_FFFF);
            assert(base_of::<u32>(DigitalWrap::Max) == b32());
            // The accumulated value never reaches n + m + 1 limbs.
            lemma_seq_val_take_succ(vals(rhs@), b32(), idx as int);
            lemma_seq_val_upper(vals(rhs@).take(idx + 1), b32(), 0xFFFF_FFFF);
            vstd::arithmetic::power::lemma_pow_adds(b32(), n as nat, (idx + 1) as nat);
            vstd::arithmetic::power::lemma_pow_increases(
                b32() as nat,
                (idx + 1) as nat,
                m as nat,
            );
            vstd::arithmetic::power::lemma_pow_adds(b32(), n as nat, m as nat);
            vstd::arithmetic::power::lemma_pow_positive(b32(), n as nat);
            vstd::arithmetic::power::lemma_pow_positive(b32(), m as nat);
            let rv_new = seq_val(vals(rhs@).take(idx + 1), b32());
            let rv_old = seq_val(vals(rhs@).take(idx as int), b32());
            assert(vals(rhs@).take(idx + 1)[idx as int] == rhs@[idx as int] as int);
            assert(limbs_val(result@) == lval * rv_new && limbs_val(result@) < pow(
                b32(),
                (n + m) as nat,
            )) by (nonlinear_arith)
                requires
                    limbs_val(result@) == lval * rv_old + digit * (pidx * lval),
                    rv_new == rv_old + pidx * (digit as int),
                    0 <= lval,
                    0 <= rv_new,
                    0 <= pidx,
                    lval < pow(b32(), n as nat),
                    rv_new < pow(b32(), (idx + 1) as nat),
                    pow(b32(), (idx + 1) as nat) <= pow(b32(), m as nat),
                    pow(b32(), n as nat) * pow(b32(), m as nat) == pow(b32(), (n + m) as nat),
                    0 < pow(b32(), n as nat),
                    0 < pow(b32(), m as nat),
            ;
            assert(result@.len() == n + m);
        }
        idx += 1;
    }
    proof {
        assert(vals(rhs@).take(idx as int) =~= vals(rhs@));
    }
    result
}

/// Splitting both operands at `half` limbs preserves their values:
/// `low + base^half * high`.
proof fn lemma_split_parts(s: Seq<int>, half: int, base: int)
    requires
        0 <= half <= s.len(),
    ensures
        seq_val(s, base) == seq_val(s.take(half), base) + pow(base, half as nat) * seq_val(
            s.skip(half),
            base,
        ),
{
    lemma_seq_val_split(s, base, half);
}

/// Recursive divide-and-conquer multiplication. Operands of one limb or
/// fewer delegate to the schoolbook paths; otherwise both operands are
/// split at half the larger magnitude, the three sub-products are
/// combined through shifted additions, and the recursion continues only
/// while both original operand lengths are at or above the crossover
/// threshold. The crossover is a performance knob alone: the result is
/// the exact product for every choice of it.
#[verifier::rlimit(100)]
pub fn karatsuba_mul(lhs: &[u32], rhs: &[u32], crossover: usize) -> (r: Vec<u32>)
    requires
        crossover >= 1,
        lhs@.len() + rhs@.len() <= usize::MAX,
    ensures
        limbs_val(r@) == limbs_val(lhs@) * limbs_val(rhs@),
        r@.len() >= 1,
    decreases lhs@.len() + rhs@.len(), limbs_val(lhs@) + limbs_val(rhs@),
{
    let n = lhs.len();
    let m = rhs.len();
    proof {
        lemma_vals_in_range::<u32>(lhs@);
        lemma_vals_in_range::<u32>(rhs@);
        lemma_seq_val_upper(vals(lhs@), b32(), 0xFFFF_FFFF);
        lemma_seq_val_upper(vals(rhs@), b32(), 0xFFFF_FFFF);
    }
    if n == 0 || m == 0 || n == 1 || m == 1 {
        return digital_multiply_u32(lhs, rhs);
    }
    let should_k_recursive = n >= crossover && m >= crossover;
    let larger_magnitude = if n >= m {
        n
    } else {
        m
    };
    let half = larger_magnitude / 2;

    let (a, b): (Vec<u32>, Vec<u32>) = if half < n {
        (sub_limbs(lhs, half, n), sub_limbs(lhs, 0, half))
    } else {
        (Vec::new(), sub_limbs(lhs, 0, n))
    };
    let (c, d): (Vec<u32>, Vec<u32>) = if half < m {
        (sub_limbs(rhs, half, m), sub_limbs(rhs, 0, half))
    } else {
        (Vec::new(), sub_limbs(rhs, 0, m))
    };
    let ghost av = limbs_val(a@);
    let ghost bv = limbs_val(b@);
    let ghost cv = limbs_val(c@);
    let ghost dv = limbs_val(d@);
    let ghost lval = limbs_val(lhs@);
    let ghost rval = limbs_val(rhs@);
    let ghost ph = pow(b32(), half as nat);
    proof {
        vstd::arithmetic::power::lemma_pow_positive(b32(), half as nat);
        lemma_vals_in_range::<u32>(a@);
        lemma_vals_in_range::<u32>(b@);
        lemma_vals_in_range::<u32>(c@);
        lemma_vals_in_range::<u32>(d@);
        lemma_seq_val_nonneg(vals(a@), b32());
        lemma_seq_val_nonneg(vals(b@), b32());
        lemma_seq_val_nonneg(vals(c@), b32());
        lemma_seq_val_nonneg(vals(d@), b32());
        if half < n {
            lemma_split_parts(vals(lhs@), half as int, b32());
            assert(vals(b@) =~= vals(lhs@).take(half as int));
            assert(vals(a@) =~= vals(lhs@).skip(half as int));
        } else {
            assert(vals(a@) =~= Seq::<int>::empty());
            assert(vals(b@) =~= vals(lhs@));
            assert(ph * 0 == 0) by (nonlinear_arith);
        }
        assert(lval == bv + ph * av);
        if half < m {
            lemma_split_parts(vals(rhs@), half as int, b32());
            assert(vals(d@) =~= vals(rhs@).take(half as int));
            assert(vals(c@) =~= vals(rhs@).skip(half as int));
        } else {
            assert(vals(c@) =~= Seq::<int>::empty());
            assert(vals(d@) =~= vals(rhs@));
            assert(ph * 0 == 0) by (nonlinear_arith);
        }
        assert(rval == dv + ph * cv);
    }

    let digital_ac: Vec<u32> = if should_k_recursive {
        proof {
            if half < n && half < m {
                assert(a@.len() + c@.len() < n + m);
            } else {
                assert(a@.len() + c@.len() < n + m);
            }
        }
        karatsuba_mul(a.as_slice(), c.as_slice(), crossover)
    } else {
        digital_multiply_u32(a.as_slice(), c.as_slice())
    };

    let digital_bd: Vec<u32> = if should_k_recursive {
        proof {
            assert(b@.len() + d@.len() < n + m);
        }
        karatsuba_mul(b.as_slice(), d.as_slice(), crossover)
    } else {
        digital_multiply_u32(b.as_slice(), d.as_slice())
    };

    let sum_ab = digital_add(a.as_slice(), b.as_slice(), DigitalWrap::Max);
    let sum_cd = digital_add(c.as_slice(), d.as_slice(), DigitalWrap::Max);
    proof {
        assert(wrap_of::<u32>(DigitalWrap::Max) == 0xFFFF_FFFF);
        assert(base_of::<u32>(DigitalWrap::Max) == b32());
    }

    let k_ab_cd: Vec<u32> = if should_k_recursive {
        proof {
            lemma_seq_val_upper(vals(b@), b32(), 0xFFFF_FFFF);
            lemma_seq_val_upper(vals(d@), b32(), 0xFFFF_FFFF);
            // The summed halves never have more limbs than the operand
            // they came from.
            if half < n {
                vstd::arithmetic::power::lemma_pow_increases(
                    b32() as nat,
                    half as nat,
                    max_nat((n - half) as nat, half as nat),
                );
                if av == 0 {
                    assert(limbs_val(sum_ab@) == bv);
                    lemma_seq_val_upper(
                        vals(sum_ab@),
                        b32(),
                        0xFFFF_FFFF,
                    );
                    assert(bv < pow(b32(), max_nat((n - half) as nat, half as nat)));
                    assert(sum_ab@.len() <= max_nat((n - half) as nat, half as nat));
                    assert(sum_ab@.len() < n);
                } else {
                    assert(sum_ab@.len() <= n);
                }
            } else {
                assert(limbs_val(sum_ab@) == bv && bv == lval);
                assert(sum_ab@.len() <= max_nat(0, n as nat) + 1);
                assert(lval < pow(b32(), n as nat));
                assert(sum_ab@.len() <= n);
            }
            if half < m {
                vstd::arithmetic::power::lemma_pow_increases(
                    b32() as nat,
                    half as nat,
                    max_nat((m - half) as nat, half as nat),
                );
                if cv == 0 {
                    assert(limbs_val(sum_cd@) == dv);
                    lemma_seq_val_upper(
                        vals(sum_cd@),
                        b32(),
                        0xFFFF_FFFF,
                    );
                    assert(sum_cd@.len() < m);
                } else {
                    assert(sum_cd@.len() <= m);
                }
            } else {
                assert(sum_cd@.len() <= m);
            }
            // Lexicographic progress: either fewer limbs in total, or as
            // many limbs but strictly smaller values.
            if sum_ab@.len() + sum_cd@.len() == n + m {
                assert(av >= 1 || cv >= 1);
                assert(ph >= 2) by {
                    vstd::arithmetic::power::lemma_pow1(b32());
                    vstd::arithmetic::power::lemma_pow_increases(b32() as nat, 1, half as nat);
                }
                assert((av + bv) + (cv + dv) < (bv + ph * av) + (dv + ph * cv))
                    by (nonlinear_arith)
                    requires
                        av >= 0,
                        cv >= 0,
                        av >= 1 || cv >= 1,
                        ph >= 2,
                ;
            }
        }
        karatsuba_mul(sum_ab.as_slice(), sum_cd.as_slice(), crossover)
    } else {
        digital_multiply_u32(sum_ab.as_slice(), sum_cd.as_slice())
    };
    let ghost kv = limbs_val(k_ab_cd@);
    let ghost acv = limbs_val(digital_ac@);
    let ghost bdv = limbs_val(digital_bd@);

    proof {
        assert(kv == (av + bv) * (cv + dv));
        assert(acv == av * cv);
        assert(bdv == bv * dv);
        assert(kv >= acv + bdv) by (nonlinear_arith)
            requires
                kv == (av + bv) * (cv + dv),
                acv == av * cv,
                bdv == bv * dv,
                av >= 0,
                bv >= 0,
                cv >= 0,
                dv >= 0,
        ;
        lemma_seq_val_nonneg(vals(digital_ac@), b32());
        lemma_seq_val_nonneg(vals(digital_bd@), b32());
    }

    let (after_ac, _) = digital_subtract(k_ab_cd.as_slice(), digital_ac.as_slice(),
        DigitalWrap::Max);
    proof {
        if limbs_val(after_ac@) != kv - acv {
            crate::radix::lemma_seq_val_singleton(0, b32());
            assert(limbs_val(after_ac@) == 0 && kv == acv);
        }
        assert(limbs_val(after_ac@) == kv - acv);
    }
    let (mut ad_bc, _) = digital_subtract(after_ac.as_slice(), digital_bd.as_slice(),
        DigitalWrap::Max);
    proof {
        if limbs_val(ad_bc@) != kv - acv - bdv {
            crate::radix::lemma_seq_val_singleton(0, b32());
            assert(limbs_val(ad_bc@) == 0 && kv - acv == bdv);
        }
        assert(limbs_val(ad_bc@) == kv - acv - bdv);
    }

    let mut half_zeroes: Vec<u32> = vec![0u32; half];
    let mut full_zeroes: Vec<u32> = vec![0u32; half * 2];
    let ghost adbc_v = limbs_val(ad_bc@);
    let ghost adbc_seq = ad_bc@;
    let ghost hz_pre = half_zeroes@;
    half_zeroes.append(&mut ad_bc);
    let ghost fz_pre = full_zeroes@;
    let mut ac_vec = digital_ac;
    let ghost ac_seq = ac_vec@;
    full_zeroes.append(&mut ac_vec);
    proof {
        // A run of zero limbs below a value multiplies it by the radix
        // power of the run's length.
        assert(vals(half_zeroes@).take(half as int) =~= vals(hz_pre));
        assert forall|k: int| 0 <= k < vals(hz_pre).len() implies #[trigger] vals(hz_pre)[k]
            == 0 by {}
        lemma_seq_val_all_zero(vals(hz_pre), b32());
        lemma_seq_val_split(vals(half_zeroes@), b32(), half as int);
        assert forall|k: int|
            0 <= k < vals(half_zeroes@).take(half as int).len() implies #[trigger] vals(
            half_zeroes@,
        ).take(half as int)[k] == 0 by {}
        lemma_seq_val_all_zero(vals(half_zeroes@).take(half as int), b32());
        assert(vals(half_zeroes@).skip(half as int) =~= vals(adbc_seq));
        assert(limbs_val(half_zeroes@) == ph * adbc_v);

        lemma_seq_val_split(vals(full_zeroes@), b32(), (half * 2) as int);
        assert forall|k: int|
            0 <= k < vals(full_zeroes@).take((half * 2) as int).len() implies #[trigger] vals(
            full_zeroes@,
        ).take((half * 2) as int)[k] == 0 by {}
        lemma_seq_val_all_zero(vals(full_zeroes@).take((half * 2) as int), b32());
        assert(vals(full_zeroes@).skip((half * 2) as int) =~= vals(ac_seq));
        vstd::arithmetic::power::lemma_pow_adds(b32(), half as nat, half as nat);
        assert(limbs_val(full_zeroes@) == (ph * ph) * acv);
    }

    let mut result = digital_bd;
    digital_add_in_place(&mut result, half_zeroes.as_slice(), DigitalWrap::Max);
    digital_add_in_place(&mut result, full_zeroes.as_slice(), DigitalWrap::Max);
    proof {
        assert(limbs_val(result@) == bdv + ph * adbc_v + (ph * ph) * acv);
        assert(adbc_v == av * dv + bv * cv) by (nonlinear_arith)
            requires
                adbc_v == kv - acv - bdv,
                kv == (av + bv) * (cv + dv),
                acv == av * cv,
                bdv == bv * dv,
        ;
        let t1 = ph * av;
        let t2 = ph * cv;
        assert(lval * rval == bv * dv + bv * t2 + t1 * dv + t1 * t2) by (nonlinear_arith)
            requires
                lval == bv + t1,
                rval == dv + t2,
        ;
        assert(bv * t2 == ph * (bv * cv)) by (nonlinear_arith)
            requires
                t2 == ph * cv,
        ;
        assert(t1 * dv == ph * (av * dv)) by (nonlinear_arith)
            requires
                t1 == ph * av,
        ;
        assert(t1 * t2 == (ph * ph) * (av * cv)) by (nonlinear_arith)
            requires
                t1 == ph * av,
                t2 == ph * cv,
        ;
        assert(ph * adbc_v == ph * (av * dv) + ph * (bv * cv)) by (nonlinear_arith)
            requires
                adbc_v == av * dv + bv * cv,
        ;
        assert(bdv + ph * adbc_v + (ph * ph) * acv == lval * rval);
    }
    result
}

} // verus!

//! Radix-generic limb addition with carry propagation, in a pure and an
//! in-place form.

use vstd::prelude::*;
use vstd::arithmetic::power::pow;
use crate::limb::{Limb, base_of, copy_limbs, lemma_vals_in_range, vals, wrap_of, wrap_ok};
use crate::radix::{
    bounded, lemma_pow_unfold, lemma_seq_val_nonneg, lemma_seq_val_push, lemma_seq_val_singleton,
    lemma_seq_val_take_succ, max_nat, min_nat, seq_val,
};
use crate::wrap::DigitalWrap;

verus! {

/// One digit of addition under the wrap point that `base` describes:
/// the plain sum while it does not pass the wrap point, else the sum
/// reduced by the radix (wraparound).
pub fn wrapping_add<I: Limb>(lhs: I, rhs: I, base: DigitalWrap) -> (r: I)
    requires
        wrap_ok::<I>(base),
        lhs.val() <= wrap_of::<I>(base),
        rhs.val() <= wrap_of::<I>(base),
    ensures
        r.val() == if lhs.val() + rhs.val() <= wrap_of::<I>(base) {
            lhs.val() + rhs.val()
        } else {
            lhs.val() + rhs.val() - base_of::<I>(base)
        },
        0 <= r.val() <= wrap_of::<I>(base),
{
    proof {
        lhs.val_in_range();
        rhs.val_in_range();
    }
    match I::from_wrap(base) {
        Some(wrap) => {
            let ceil = wrap.limb_sub(lhs);
            if ceil.limb_lt(rhs) {
                rhs.limb_sub(ceil).limb_sub(I::limb_one())
            } else {
                lhs.limb_add(rhs)
            }
        },
        None => {
            proof {
                assert(false);
            }
            I::limb_zero()
        },
    }
}

/// The carry-loop invariant: the digits produced so far, plus the
/// pending carry weighted by `base^idx`, equal the sums of both
/// operands' prefixes of length `min(idx, len)`.
pub open spec fn add_prefix_ok<I: Limb>(
    result: Seq<int>,
    lhs: Seq<int>,
    rhs: Seq<int>,
    carry: bool,
    idx: nat,
    base: int,
) -> bool {
    seq_val(result, base) + (if carry {
        1int
    } else {
        0int
    }) * pow(base, idx) == seq_val(lhs.take(min_nat(idx, lhs.len()) as int), base) + seq_val(
        rhs.take(min_nat(idx, rhs.len()) as int),
        base,
    )
}

/// The sum of two limb sequences of possibly unequal length under the
/// given radix, least-significant digit first.
pub fn digital_add<I: Limb>(lhs: &[I], rhs: &[I], base: DigitalWrap) -> (r: Vec<I>)
    requires
        wrap_ok::<I>(base),
        bounded(vals(lhs@), wrap_of::<I>(base)),
        bounded(vals(rhs@), wrap_of::<I>(base)),
    ensures
        bounded(vals(r@), wrap_of::<I>(base)),
        seq_val(vals(r@), base_of::<I>(base)) == seq_val(vals(lhs@), base_of::<I>(base)) + seq_val(
            vals(rhs@),
            base_of::<I>(base),
        ),
        r@.len() <= max_nat(lhs@.len(), rhs@.len()) + 1,
        lhs@.len() >= 1 && rhs@.len() >= 1 ==> r@.len() >= max_nat(lhs@.len(), rhs@.len()),
        r@.len() > max_nat(lhs@.len(), rhs@.len()) ==> seq_val(vals(r@), base_of::<I>(base))
            >= pow(base_of::<I>(base), max_nat(lhs@.len(), rhs@.len())),
{
    let ghost wrap = wrap_of::<I>(base);
    let ghost bb = base_of::<I>(base);
    let zero = I::limb_zero();
    if lhs.len() == 1 && lhs[0].limb_eq(zero) {
        let r = copy_limbs(rhs);
        proof {
            assert(vals(lhs@) =~= seq![0int]);
            lemma_seq_val_singleton(0, bb);
        }
        return r;
    }
    if rhs.len() == 1 && rhs[0].limb_eq(zero) {
        let r = copy_limbs(lhs);
        proof {
            assert(vals(rhs@) =~= seq![0int]);
            lemma_seq_val_singleton(0, bb);
        }
        return r;
    }

    let mut result: Vec<I> = Vec::new();
    let mut carry: bool = false;
    let mut idx: usize = 0;

    proof {
        assert(vals(lhs@).take(0) =~= Seq::<int>::empty());
        assert(vals(rhs@).take(0) =~= Seq::<int>::empty());
        vstd::arithmetic::power::lemma_pow0(bb);
    }

    while idx < lhs.len() && idx < rhs.len()
        invariant
            wrap_ok::<I>(base),
            wrap == wrap_of::<I>(base),
            bb == base_of::<I>(base),
            bounded(vals(lhs@), wrap),
            bounded(vals(rhs@), wrap),
            idx <= lhs@.len(),
            idx <= rhs@.len(),
            result@.len() == idx,
            bounded(vals(result@), wrap),
            carry ==> wrap >= 1,
            add_prefix_ok::<I>(vals(result@), vals(lhs@), vals(rhs@), carry, idx as nat, bb),
        decreases lhs@.len() - idx,
    {
        let current_left = lhs[idx];
        let current_right = rhs[idx];
        let current_carry = I::from_bool(carry);
        proof {
            I::bool_val_is_bit(carry);
            current_left.val_in_range();
            current_right.val_in_range();
            assert(vals(lhs@)[idx as int] == current_left.val());
            assert(vals(rhs@)[idx as int] == current_right.val());
            assert(current_left.val() <= wrap);
            assert(current_right.val() <= wrap);
            assert(current_carry.val() <= wrap);
        }
        let before_carry = wrapping_add(current_left, current_right, base);
        let after_carry = wrapping_add(before_carry, current_carry, base);
        let new_carry = before_carry.limb_lt(current_left) || after_carry.limb_lt(before_carry);
        let ghost pre_result = result@;
        result.push(after_carry);
        carry = new_carry;
        idx += 1;
        proof {
            let a = current_left.val();
            let b = current_right.val();
            let ci: int = if current_carry.val() == 1 {
                1
            } else {
                0
            };
            let co: int = if carry {
                1
            } else {
                0
            };
            let p = pow(bb, (idx - 1) as nat);
            vstd::arithmetic::power::lemma_pow_positive(bb, (idx - 1) as nat);
            lemma_pow_unfold(bb, idx as nat);
            assert(after_carry.val() == a + b + ci - bb * co);
            assert(vals(result@) =~= vals(pre_result).push(after_carry.val()));
            lemma_seq_val_push(vals(pre_result), bb, after_carry.val());
            lemma_seq_val_take_succ(vals(lhs@), bb, idx - 1);
            lemma_seq_val_take_succ(vals(rhs@), bb, idx - 1);
            assert(vals(lhs@)[idx - 1] == a);
            assert(vals(rhs@)[idx - 1] == b);
            assert(min_nat((idx - 1) as nat, lhs@.len()) == (idx - 1) as nat);
            assert(min_nat((idx - 1) as nat, rhs@.len()) == (idx - 1) as nat);
            assert(min_nat(idx as nat, lhs@.len()) == idx as nat);
            assert(min_nat(idx as nat, rhs@.len()) == idx as nat);
            let s0 = seq_val(vals(pre_result), bb);
            let s_new = seq_val(vals(result@), bb);
            let l_old = seq_val(vals(lhs@).take(idx - 1), bb);
            let l_new = seq_val(vals(lhs@).take(idx as int), bb);
            let r_old = seq_val(vals(rhs@).take(idx - 1), bb);
            let r_new = seq_val(vals(rhs@).take(idx as int), bb);
            assert(s_new + co * pow(bb, idx as nat) == l_new + r_new) by (nonlinear_arith)
                requires
                    s_new == s0 + p * after_carry.val(),
                    pow(bb, idx as nat) == bb * p,
                    s0 + ci * p == l_old + r_old,
                    l_new == l_old + p * a,
                    r_new == r_old + p * b,
                    after_carry.val() == a + b + ci - bb * co,
            ;
            assert(add_prefix_ok::<I>(vals(result@), vals(lhs@), vals(rhs@), carry, idx as nat, bb));
            assert(bounded(vals(result@), wrap));
        }
    }

    // Propagate the carry through whichever operand still has digits.
    let left_has_more = idx < lhs.len();
    let remainder: &[I] = if left_has_more {
        lhs
    } else {
        rhs
    };
    proof {
        if left_has_more {
            assert(vals(rhs@).take(min_nat(idx as nat, rhs@.len()) as int) =~= vals(rhs@));
        } else {
            assert(vals(lhs@).take(min_nat(idx as nat, lhs@.len()) as int) =~= vals(lhs@));
        }
    }

    while idx < remainder.len()
        invariant
            wrap_ok::<I>(base),
            wrap == wrap_of::<I>(base),
            bb == base_of::<I>(base),
            bounded(vals(lhs@), wrap),
            bounded(vals(rhs@), wrap),
            remainder@ == if left_has_more {
                lhs@
            } else {
                rhs@
            },
            left_has_more ==> idx >= rhs@.len(),
            !left_has_more ==> idx >= lhs@.len(),
            idx <= remainder@.len(),
            result@.len() == idx,
            bounded(vals(result@), wrap),
            carry ==> wrap >= 1,
            add_prefix_ok::<I>(vals(result@), vals(lhs@), vals(rhs@), carry, idx as nat, bb),
        decreases remainder@.len() - idx,
    {
        let current_left = remainder[idx];
        let current_carry = I::from_bool(carry);
        proof {
            I::bool_val_is_bit(carry);
            current_left.val_in_range();
            assert(vals(remainder@)[idx as int] == current_left.val());
            assert(current_left.val() <= wrap);
            assert(current_carry.val() <= wrap);
        }
        let after_carry = wrapping_add(current_left, current_carry, base);
        let new_carry = after_carry.limb_lt(current_left);
        let ghost pre_result = result@;
        result.push(after_carry);
        carry = new_carry;
        idx += 1;
        proof {
            let a = current_left.val();
            let ci: int = if current_carry.val() == 1 {
                1
            } else {
                0
            };
            let co: int = if carry {
                1
            } else {
                0
            };
            let p = pow(bb, (idx - 1) as nat);
            vstd::arithmetic::power::lemma_pow_positive(bb, (idx - 1) as nat);
            lemma_pow_unfold(bb, idx as nat);
            assert(after_carry.val() == a + ci - bb * co);
            assert(vals(result@) =~= vals(pre_result).push(after_carry.val()));
            lemma_seq_val_push(vals(pre_result), bb, after_carry.val());
            lemma_seq_val_take_succ(vals(remainder@), bb, idx - 1);
            assert(vals(remainder@)[idx - 1] == a);
            let s0 = seq_val(vals(pre_result), bb);
            let s_new = seq_val(vals(result@), bb);
            let m_old = seq_val(vals(remainder@).take(idx - 1), bb);
            let m_new = seq_val(vals(remainder@).take(idx as int), bb);
            let ghost other = if left_has_more {
                rhs@
            } else {
                lhs@
            };
            assert(vals(other).take(min_nat((idx - 1) as nat, other.len()) as int) =~= vals(
                other,
            ).take(min_nat(idx as nat, other.len()) as int));
            let o_val = seq_val(vals(other).take(min_nat(idx as nat, other.len()) as int), bb);
            assert(min_nat((idx - 1) as nat, remainder@.len()) == (idx - 1) as nat);
            assert(min_nat(idx as nat, remainder@.len()) == idx as nat);
            assert(s_new + co * pow(bb, idx as nat) == m_new + o_val) by (nonlinear_arith)
                requires
                    s_new == s0 + p * after_carry.val(),
                    pow(bb, idx as nat) == bb * p,
                    s0 + ci * p == m_old + o_val,
                    m_new == m_old + p * a,
                    after_carry.val() == a + ci - bb * co,
            ;
            assert(add_prefix_ok::<I>(vals(result@), vals(lhs@), vals(rhs@), carry, idx as nat, bb));
        }
    }

    proof {
        assert(vals(lhs@).take(min_nat(idx as nat, lhs@.len()) as int) =~= vals(lhs@));
        assert(vals(rhs@).take(min_nat(idx as nat, rhs@.len()) as int) =~= vals(rhs@));
        assert(idx as nat == max_nat(lhs@.len(), rhs@.len()));
    }

    if carry {
        let one = I::limb_one();
        proof {
            assert(vals(result@.push(one)) =~= vals(result@).push(1));
            lemma_seq_val_push(vals(result@), bb, 1);
            lemma_seq_val_nonneg(vals(result@), bb);
            vstd::arithmetic::power::lemma_pow_positive(bb, idx as nat);
        }
        result.push(one);
    }
    result
}

/// In-place variant: extends `lhs` with the sum of itself and `rhs`,
/// growing the limb vector as the carry demands.
pub fn digital_add_in_place<I: Limb>(lhs: &mut Vec<I>, rhs: &[I], base: DigitalWrap)
    requires
        wrap_ok::<I>(base),
        bounded(vals(old(lhs)@), wrap_of::<I>(base)),
        bounded(vals(rhs@), wrap_of::<I>(base)),
    ensures
        bounded(vals(final(lhs)@), wrap_of::<I>(base)),
        seq_val(vals(final(lhs)@), base_of::<I>(base)) == seq_val(
            vals(old(lhs)@),
            base_of::<I>(base),
        ) + seq_val(vals(rhs@), base_of::<I>(base)),
        old(lhs)@.len() >= 2 ==> final(lhs)@.len() >= old(lhs)@.len(),
        final(lhs)@.len() <= max_nat(old(lhs)@.len(), rhs@.len()) + 1,
        old(lhs)@.len() >= 1 && rhs@.len() >= 1 ==> final(lhs)@.len() >= max_nat(
            old(lhs)@.len(),
            rhs@.len(),
        ),
        final(lhs)@.len() > max_nat(old(lhs)@.len(), rhs@.len()) ==> seq_val(
            vals(final(lhs)@),
            base_of::<I>(base),
        ) >= pow(base_of::<I>(base), max_nat(old(lhs)@.len(), rhs@.len())),
{
    let ghost orig = old(lhs)@;
    let ghost wrap = wrap_of::<I>(base);
    let ghost bb = base_of::<I>(base);
    let zero = I::limb_zero();
    if lhs.len() == 1 && lhs[0].limb_eq(zero) {
        let r = copy_limbs(rhs);
        *lhs = r;
        proof {
            assert(vals(orig) =~= seq![0int]);
            lemma_seq_val_singleton(0, bb);
        }
        return ;
    }
    if rhs.len() == 1 && rhs[0].limb_eq(zero) {
        proof {
            assert(vals(rhs@) =~= seq![0int]);
            lemma_seq_val_singleton(0, bb);
        }
        return ;
    }

    let mut carry: bool = false;
    let mut idx: usize = 0;

    proof {
        assert(vals(orig).take(0) =~= Seq::<int>::empty());
        assert(vals(rhs@).take(0) =~= Seq::<int>::empty());
        assert(vals(lhs@).take(0) =~= Seq::<int>::empty());
        vstd::arithmetic::power::lemma_pow0(bb);
    }

    while idx < lhs.len() && idx < rhs.len()
        invariant
            wrap_ok::<I>(base),
            wrap == wrap_of::<I>(base),
            bb == base_of::<I>(base),
            bounded(vals(orig), wrap),
            bounded(vals(rhs@), wrap),
            lhs@.len() == orig.len(),
            idx <= orig.len(),
            idx <= rhs@.len(),
            lhs@.skip(idx as int) == orig.skip(idx as int),
            bounded(vals(lhs@), wrap),
            carry ==> wrap >= 1,
            seq_val(vals(lhs@).take(idx as int), bb) + (if carry {
                1int
            } else {
                0int
            }) * pow(bb, idx as nat) == seq_val(vals(orig).take(idx as int), bb) + seq_val(
                vals(rhs@).take(idx as int),
                bb,
            ),
        decreases lhs@.len() - idx,
    {
        let current_left = lhs[idx];
        let current_right = rhs[idx];
        let current_carry = I::from_bool(carry);
        proof {
            I::bool_val_is_bit(carry);
            current_left.val_in_range();
            current_right.val_in_range();
            assert(vals(lhs@)[idx as int] == current_left.val());
            assert(vals(rhs@)[idx as int] == current_right.val());
            assert(orig[idx as int] == lhs@.skip(idx as int)[0]);
            assert(current_left.val() <= wrap);
            assert(current_right.val() <= wrap);
            assert(current_carry.val() <= wrap);
        }
        let before_carry = wrapping_add(current_left, current_right, base);
        let after_carry = wrapping_add(before_carry, current_carry, base);
        let new_carry = before_carry.limb_lt(current_left) || after_carry.limb_lt(before_carry);
        let ghost pre = lhs@;
        lhs[idx] = after_carry;
        carry = new_carry;
        proof {
            let a = current_left.val();
            let b = current_right.val();
            assert(lhs@ == pre.update(idx as int, after_carry));
            assert(lhs@.skip(idx + 1) =~= orig.skip(idx + 1)) by {
                assert forall|j: int| 0 <= j < lhs@.skip(idx + 1).len() implies #[trigger] lhs@.skip(
                    idx + 1,
                )[j] == orig.skip(idx + 1)[j] by {
                    assert(pre.skip(idx as int)[j + 1] == orig.skip(idx as int)[j + 1]);
                }
            }
            assert(vals(lhs@).take(idx + 1) =~= vals(pre).take(idx as int).push(after_carry.val()));
            assert(vals(lhs@).take(idx as int) =~= vals(pre).take(idx as int));
            assert(bounded(vals(lhs@), wrap)) by {
                assert forall|j: int| 0 <= j < vals(lhs@).len() implies 0 <= #[trigger] vals(
                    lhs@,
                )[j] <= wrap by {
                    if j != idx {
                        assert(vals(pre)[j] == vals(lhs@)[j]);
                    }
                }
            }
            let cin: int = if current_carry.val() == 1 {
                1
            } else {
                0
            };
            let co: int = if carry {
                1
            } else {
                0
            };
            let p = pow(bb, idx as nat);
            vstd::arithmetic::power::lemma_pow_positive(bb, idx as nat);
            lemma_pow_unfold(bb, (idx + 1) as nat);
            assert(after_carry.val() == a + b + cin - bb * co);
            assert(vals(pre).take(idx as int).len() == idx);
            lemma_seq_val_push(vals(pre).take(idx as int), bb, after_carry.val());
            lemma_seq_val_take_succ(vals(orig), bb, idx as int);
            lemma_seq_val_take_succ(vals(rhs@), bb, idx as int);
            assert(vals(orig)[idx as int] == a);
            assert(vals(rhs@)[idx as int] == b);
            let s0 = seq_val(vals(pre).take(idx as int), bb);
            let s_new = seq_val(vals(lhs@).take(idx + 1), bb);
            let l_old = seq_val(vals(orig).take(idx as int), bb);
            let l_new = seq_val(vals(orig).take(idx + 1), bb);
            let r_old = seq_val(vals(rhs@).take(idx as int), bb);
            let r_new = seq_val(vals(rhs@).take(idx + 1), bb);
            assert(s_new + co * pow(bb, (idx + 1) as nat) == l_new + r_new) by (nonlinear_arith)
                requires
                    s_new == s0 + p * after_carry.val(),
                    pow(bb, (idx + 1) as nat) == bb * p,
                    s0 + cin * p == l_old + r_old,
                    l_new == l_old + p * a,
                    r_new == r_old + p * b,
                    after_carry.val() == a + b + cin - bb * co,
            ;
        }
        idx += 1;
    }

    let ghost n = orig.len();
    let ghost m = rhs@.len();

    // Push the tail of a longer right operand, still absorbing the carry.
    if idx < rhs.len() {
        proof {
            assert(idx == orig.len());
            assert(vals(lhs@).take(idx as int) =~= vals(lhs@));
            assert(vals(orig).take(idx as int) =~= vals(orig));
        }
        while idx < rhs.len()
            invariant
            wrap_ok::<I>(base),
            wrap == wrap_of::<I>(base),
            bb == base_of::<I>(base),
            n == orig.len(),
            m == rhs@.len(),
            bounded(vals(orig), wrap),
            bounded(vals(rhs@), wrap),
            idx >= n,
            idx <= m,
            lhs@.len() == idx,
            bounded(vals(lhs@), wrap),
            carry ==> wrap >= 1,
            seq_val(vals(lhs@), bb) + (if carry {
                1int
            } else {
                0int
            }) * pow(bb, idx as nat) == seq_val(vals(orig), bb) + seq_val(
                vals(rhs@).take(idx as int),
                bb,
            ),
        decreases rhs@.len() - idx,
    {
        proof {
            if idx == n {
                assert(vals(lhs@).take(idx as int) =~= vals(lhs@));
                assert(vals(orig).take(idx as int) =~= vals(orig));
                assert(lhs@.skip(idx as int) =~= Seq::<I>::empty());
            }
        }
        let current_left = rhs[idx];
        let current_carry = I::from_bool(carry);
        proof {
            I::bool_val_is_bit(carry);
            current_left.val_in_range();
            assert(vals(rhs@)[idx as int] == current_left.val());
            assert(current_left.val() <= wrap);
            assert(current_carry.val() <= wrap);
        }
        let after_carry = wrapping_add(current_left, current_carry, base);
        let new_carry = after_carry.limb_lt(current_left);
        let ghost old_lhs_b = lhs@;
        proof {
            let a = current_left.val();
            let ci: int = if carry {
                1
            } else {
                0
            };
            let co: int = if new_carry {
                1
            } else {
                0
            };
            let p = pow(bb, idx as nat);
            vstd::arithmetic::power::lemma_pow_positive(bb, idx as nat);
            lemma_pow_unfold(bb, (idx + 1) as nat);
            assert(after_carry.val() == a + ci - bb * co);
            assert(vals(lhs@.push(after_carry)) =~= vals(lhs@).push(after_carry.val()));
            lemma_seq_val_push(vals(lhs@), bb, after_carry.val());
            lemma_seq_val_take_succ(vals(rhs@), bb, idx as int);
            let s = seq_val(vals(lhs@), bb);
            assert(s + after_carry.val() * p + co * (bb * p) == (s + ci * p) + a * p)
                by (nonlinear_arith)
                requires
                    after_carry.val() == a + ci - bb * co,
            ;
            assert(co * pow(bb, (idx + 1) as nat) == co * (bb * p)) by (nonlinear_arith)
                requires
                    pow(bb, (idx + 1) as nat) == bb * p,
            ;
        }
        lhs.push(after_carry);
        carry = new_carry;
        idx += 1;
        proof {
            let ci: int = if current_carry.val() == 1 {
                1
            } else {
                0
            };
            let co: int = if carry {
                1
            } else {
                0
            };
            let p = pow(bb, (idx - 1) as nat);
            let a = current_left.val();
            let after = after_carry.val();
            let s0 = seq_val(vals(old_lhs_b), bb);
            let vv = seq_val(vals(orig), bb);
            let r_old = seq_val(vals(rhs@).take(idx - 1), bb);
            let r_new = seq_val(vals(rhs@).take(idx as int), bb);
            let s_new = seq_val(vals(lhs@), bb);
            assert(s_new + co * pow(bb, idx as nat) == vv + r_new) by (nonlinear_arith)
                requires
                    s_new == s0 + p * after,
                    pow(bb, idx as nat) == bb * p,
                    s0 + ci * p == vv + r_old,
                    r_new == r_old + p * a,
                    after == a + ci - bb * co,
            ;
        }
        }
    }

    proof {
        assert(vals(rhs@).take(min_nat(idx as nat, m) as int) =~= vals(rhs@));
        assert(vals(lhs@).take(idx as int) =~= vals(lhs@).take(idx as int));
        if idx >= lhs@.len() {
            assert(vals(lhs@).take(idx as int) =~= vals(lhs@));
        }
        assert(vals(orig).take(min_nat(idx as nat, n) as int) =~= if idx >= n {
            vals(orig)
        } else {
            vals(orig).take(idx as int)
        });
        assert(vals(rhs@).take(min_nat(idx as nat, m) as int) =~= vals(rhs@));
    }

    // Propagate any remaining carry through the rest of the left operand.
    while carry && idx < lhs.len()
        invariant
            wrap_ok::<I>(base),
            wrap == wrap_of::<I>(base),
            bb == base_of::<I>(base),
            n == orig.len(),
            m == rhs@.len(),
            bounded(vals(orig), wrap),
            bounded(vals(rhs@), wrap),
            idx >= m,
            idx <= lhs@.len(),
            lhs@.len() == max_nat(n, m),
            idx < lhs@.len() ==> lhs@.skip(idx as int) == orig.skip(idx as int),
            bounded(vals(lhs@), wrap),
            carry ==> wrap >= 1,
            seq_val(vals(lhs@).take(idx as int), bb) + (if carry {
                1int
            } else {
                0int
            }) * pow(bb, idx as nat) == seq_val(vals(orig).take(min_nat(idx as nat, n) as int), bb)
                + seq_val(vals(rhs@), bb),
        decreases lhs@.len() - idx,
    {
        let current_left = lhs[idx];
        let current_carry = I::from_bool(carry);
        proof {
            I::bool_val_is_bit(carry);
            current_left.val_in_range();
            assert(vals(lhs@)[idx as int] == current_left.val());
            assert(current_left.val() <= wrap);
            assert(current_carry.val() <= wrap);
            assert(orig[idx as int] == lhs@.skip(idx as int)[0]);
            assert(idx < n);
        }
        let after_carry = wrapping_add(current_left, current_carry, base);
        let new_carry = after_carry.limb_lt(current_left);
        let ghost pre = lhs@;
        lhs[idx] = after_carry;
        carry = new_carry;
        proof {
            let a = current_left.val();
            let ci: int = 1;
            let co: int = if carry {
                1
            } else {
                0
            };
            assert(lhs@ == pre.update(idx as int, after_carry));
            if idx + 1 < lhs@.len() {
                assert(lhs@.skip(idx + 1) =~= orig.skip(idx + 1)) by {
                    assert forall|j: int|
                        0 <= j < lhs@.skip(idx + 1).len() implies #[trigger] lhs@.skip(idx + 1)[j]
                        == orig.skip(idx + 1)[j] by {
                        assert(pre.skip(idx as int)[j + 1] == orig.skip(idx as int)[j + 1]);
                    }
                }
            }
            assert(vals(lhs@).take(idx + 1) =~= vals(pre).take(idx as int).push(after_carry.val()));
            assert(vals(lhs@).take(idx as int) =~= vals(pre).take(idx as int));
            assert(bounded(vals(lhs@), wrap)) by {
                assert forall|j: int| 0 <= j < vals(lhs@).len() implies 0 <= #[trigger] vals(
                    lhs@,
                )[j] <= wrap by {
                    if j != idx {
                        assert(vals(pre)[j] == vals(lhs@)[j]);
                    }
                }
            }
            let p = pow(bb, idx as nat);
            vstd::arithmetic::power::lemma_pow_positive(bb, idx as nat);
            lemma_pow_unfold(bb, (idx + 1) as nat);
            assert(after_carry.val() == a + ci - bb * co);
            assert(vals(pre).take(idx as int).len() == idx);
            lemma_seq_val_push(vals(pre).take(idx as int), bb, after_carry.val());
            lemma_seq_val_take_succ(vals(orig), bb, idx as int);
            assert(vals(orig)[idx as int] == a);
            assert(min_nat((idx + 1) as nat, n) == (idx + 1) as nat);
            assert(min_nat(idx as nat, n) == idx as nat);
            let after = after_carry.val();
            let s0 = seq_val(vals(pre).take(idx as int), bb);
            let s_new = seq_val(vals(lhs@).take(idx + 1), bb);
            let o_old = seq_val(vals(orig).take(idx as int), bb);
            let o_new = seq_val(vals(orig).take(idx + 1), bb);
            let rr = seq_val(vals(rhs@), bb);
            assert(s_new + co * pow(bb, (idx + 1) as nat) == o_new + rr) by (nonlinear_arith)
                requires
                    s_new == s0 + p * after,
                    pow(bb, (idx + 1) as nat) == bb * p,
                    s0 + ci * p == o_old + rr,
                    o_new == o_old + p * a,
                    after == a + ci - bb * co,
            ;
        }
        idx += 1;
    }

    proof {
        crate::radix::lemma_seq_val_split(vals(lhs@), bb, idx as int);
        let k = min_nat(idx as nat, n) as int;
        assert(vals(lhs@).skip(idx as int) =~= vals(orig).skip(k)) by {
            assert forall|j: int| 0 <= j < vals(lhs@).skip(idx as int).len() implies #[trigger] vals(
                lhs@,
            ).skip(idx as int)[j] == vals(orig).skip(k)[j] by {
                assert(idx < lhs@.len());
                assert(k == idx);
                assert(lhs@.skip(idx as int)[j] == orig.skip(idx as int)[j]);
                assert(vals(lhs@).skip(idx as int)[j] == lhs@.skip(idx as int)[j].val());
                assert(vals(orig).skip(k)[j] == orig.skip(k)[j].val());
            }
        }
        crate::radix::lemma_seq_val_split(vals(orig), bb, k);
    }

    if carry {
        let one = I::limb_one();
        proof {
            assert(idx == lhs@.len());
            assert(vals(lhs@).take(idx as int) =~= vals(lhs@));
            assert(vals(lhs@.push(one)) =~= vals(lhs@).push(1));
            lemma_seq_val_push(vals(lhs@), bb, 1);
            lemma_seq_val_nonneg(vals(lhs@), bb);
            vstd::arithmetic::power::lemma_pow_positive(bb, idx as nat);
        }
        lhs.push(one);
    }
}

} // verus!

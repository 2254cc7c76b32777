//! Radix-generic limb subtraction: magnitudes are compared first, the
//! smaller is subtracted from the larger with borrow propagation, and
//! the sign of the difference reports which way round that was.

use vstd::prelude::*;
use vstd::arithmetic::power::pow;
use core::cmp::Ordering;
use crate::comparison::{digital_cmp, lemma_cmp_spec_value, lemma_trim_len_le, lemma_seq_val_trim,
    trim_len_spec, trimmed_len};
use crate::limb::{Limb, base_of, vals, wrap_of, wrap_ok};
use crate::radix::{
    bounded, lemma_pow_unfold, lemma_seq_val_lower, lemma_seq_val_push, lemma_seq_val_singleton,
    lemma_seq_val_take_succ, lemma_seq_val_upper, max_nat, min_nat, seq_val, trimmed,
};
use crate::sign::Sign;
use crate::wrap::DigitalWrap;

verus! {

/// One digit of subtraction under the wrap point that `base` describes:
/// the plain difference while nothing is owed, else the difference
/// raised by the radix (wraparound).
pub fn wrapping_subtract<I: Limb>(lhs: I, rhs: I, base: DigitalWrap) -> (r: I)
    requires
        wrap_ok::<I>(base),
        lhs.val() <= wrap_of::<I>(base),
        rhs.val() <= wrap_of::<I>(base),
    ensures
        r.val() == if rhs.val() <= lhs.val() {
            lhs.val() - rhs.val()
        } else {
            lhs.val() - rhs.val() + base_of::<I>(base)
        },
        0 <= r.val() <= wrap_of::<I>(base),
{
    proof {
        lhs.val_in_range();
        rhs.val_in_range();
    }
    match I::from_wrap(base) {
        Some(wrap) => {
            if lhs.limb_lt(rhs) {
                wrap.limb_sub(rhs.limb_sub(lhs).limb_sub(I::limb_one()))
            } else {
                lhs.limb_sub(rhs)
            }
        },
        None => {
            proof {
                assert(false);
            }
            I::limb_zero()
        },
    }
}

/// The difference of two limb sequences under the given radix, with the
/// sign that records which operand was larger: `Zero` for equal
/// magnitudes (and the canonical zero digits), `Negative` when the left
/// operand was smaller. The digits returned are trimmed.
pub fn digital_subtract<I: Limb>(lhs: &[I], rhs: &[I], base: DigitalWrap) -> (r: (Vec<I>, Sign))
    requires
        wrap_ok::<I>(base),
        bounded(vals(lhs@), wrap_of::<I>(base)),
        bounded(vals(rhs@), wrap_of::<I>(base)),
    ensures
        bounded(vals(r.0@), wrap_of::<I>(base)),
        trimmed(vals(r.0@)),
        r.0@.len() >= 1,
        r.0@.len() <= max_nat(max_nat(lhs@.len(), rhs@.len()), 1),
        ({
            let lv = seq_val(vals(lhs@), base_of::<I>(base));
            let rv = seq_val(vals(rhs@), base_of::<I>(base));
            let dv = seq_val(vals(r.0@), base_of::<I>(base));
            &&& (lv == rv ==> r.1 == Sign::Zero && vals(r.0@) =~= seq![0int])
            &&& (lv > rv ==> r.1 == Sign::Positive && dv == lv - rv)
            &&& (lv < rv ==> r.1 == Sign::Negative && dv == rv - lv)
        }),
{
    let ghost wrap = wrap_of::<I>(base);
    let ghost bb = base_of::<I>(base);
    let zero = I::limb_zero();
    proof {
        zero.val_in_range();
        lemma_cmp_spec_value(vals(lhs@), vals(rhs@), bb, wrap);
    }
    let ordering = digital_cmp(lhs, rhs);
    let lhs_larger: bool = match ordering {
        Ordering::Equal => {
            let mut out: Vec<I> = Vec::new();
            out.push(zero);
            proof {
                assert(vals(out@) =~= seq![0int]);
                lemma_seq_val_singleton(0, bb);
            }
            return (out, Sign::Zero);
        },
        Ordering::Greater => true,
        Ordering::Less => false,
    };
    let larger: &[I] = if lhs_larger {
        lhs
    } else {
        rhs
    };
    let smaller: &[I] = if lhs_larger {
        rhs
    } else {
        lhs
    };
    let sign = if lhs_larger {
        Sign::Positive
    } else {
        Sign::Negative
    };
    let ghost lval = seq_val(vals(larger@), bb);
    let ghost sval = seq_val(vals(smaller@), bb);

    let la = trimmed_len(larger);
    let ls = trimmed_len(smaller);
    proof {
        lemma_trim_len_le(vals(larger@));
        lemma_trim_len_le(vals(smaller@));
        lemma_seq_val_trim(vals(larger@), bb);
        lemma_seq_val_trim(vals(smaller@), bb);
        // The smaller magnitude cannot have the longer trimmed form.
        if ls > la {
            lemma_seq_val_upper(vals(larger@).take(la as int), bb, wrap);
            lemma_seq_val_lower(vals(smaller@).take(ls as int), bb, wrap);
            vstd::arithmetic::power::lemma_pow_increases(bb as nat, la as nat, (ls - 1) as nat);
            assert(false);
        }
        assert(vals(larger@).take(0) =~= Seq::<int>::empty());
        assert(vals(smaller@).take(0) =~= Seq::<int>::empty());
        vstd::arithmetic::power::lemma_pow0(bb);
    }

    let mut result: Vec<I> = Vec::new();
    let mut borrow: bool = false;
    let mut idx: usize = 0;

    while idx < la
        invariant
            wrap_ok::<I>(base),
            wrap == wrap_of::<I>(base),
            bb == base_of::<I>(base),
            bounded(vals(larger@), wrap),
            bounded(vals(smaller@), wrap),
            la as nat == trim_len_spec(vals(larger@)),
            ls as nat == trim_len_spec(vals(smaller@)),
            la <= larger@.len(),
            ls <= smaller@.len(),
            ls <= la,
            idx <= la,
            result@.len() == idx,
            bounded(vals(result@), wrap),
            borrow ==> wrap >= 1,
            seq_val(vals(result@), bb) + seq_val(
                vals(smaller@).take(min_nat(idx as nat, ls as nat) as int),
                bb,
            ) == seq_val(vals(larger@).take(idx as int), bb) + (if borrow {
                1int
            } else {
                0int
            }) * pow(bb, idx as nat),
        decreases la - idx,
    {
        let current_left = larger[idx];
        let current_borrow = I::from_bool(borrow);
        proof {
            I::bool_val_is_bit(borrow);
            current_left.val_in_range();
            assert(vals(larger@)[idx as int] == current_left.val());
            assert(current_left.val() <= wrap);
            assert(current_borrow.val() <= wrap);
        }
        let after_borrow = wrapping_subtract(current_left, current_borrow, base);
        let w1 = current_left.limb_lt(after_borrow);
        let (after_sub, w2) = if idx < ls {
            let current_right = smaller[idx];
            proof {
                current_right.val_in_range();
                assert(vals(smaller@)[idx as int] == current_right.val());
                assert(current_right.val() <= wrap);
            }
            let after = wrapping_subtract(after_borrow, current_right, base);
            let wrapped = after_borrow.limb_lt(after);
            (after, wrapped)
        } else {
            (after_borrow, false)
        };
        let new_borrow = w1 || w2;
        proof {
            let a = current_left.val();
            let sdig: int = if idx < ls {
                vals(smaller@)[idx as int]
            } else {
                0
            };
            let ci: int = if borrow {
                1
            } else {
                0
            };
            let co: int = if new_borrow {
                1
            } else {
                0
            };
            let p = pow(bb, idx as nat);
            vstd::arithmetic::power::lemma_pow_positive(bb, idx as nat);
            lemma_pow_unfold(bb, (idx + 1) as nat);
            assert(after_sub.val() == a - ci - sdig + bb * co);
            assert(vals(result@.push(after_sub)) =~= vals(result@).push(after_sub.val()));
            lemma_seq_val_push(vals(result@), bb, after_sub.val());
            lemma_seq_val_take_succ(vals(larger@), bb, idx as int);
            if idx < ls {
                lemma_seq_val_take_succ(vals(smaller@), bb, idx as int);
                assert(min_nat((idx + 1) as nat, ls as nat) == (idx + 1) as nat);
            } else {
                assert(min_nat((idx + 1) as nat, ls as nat) == ls as nat);
                assert(min_nat(idx as nat, ls as nat) == ls as nat);
            }
            let s0 = seq_val(vals(result@), bb);
            let s_new = seq_val(vals(result@).push(after_sub.val()), bb);
            let m_old = seq_val(vals(smaller@).take(min_nat(idx as nat, ls as nat) as int), bb);
            let m_new = seq_val(
                vals(smaller@).take(min_nat((idx + 1) as nat, ls as nat) as int),
                bb,
            );
            let l_old = seq_val(vals(larger@).take(idx as int), bb);
            let l_new = seq_val(vals(larger@).take(idx + 1), bb);
            assert(s_new + m_new == l_new + co * pow(bb, (idx + 1) as nat)) by (nonlinear_arith)
                requires
                    s_new == s0 + p * after_sub.val(),
                    pow(bb, (idx + 1) as nat) == bb * p,
                    s0 + m_old == l_old + ci * p,
                    m_new == m_old + p * sdig,
                    l_new == l_old + p * a,
                    after_sub.val() == a - ci - sdig + bb * co,
            ;
        }
        result.push(after_sub);
        borrow = new_borrow;
        idx += 1;
    }

    proof {
        // No borrow can remain: the larger magnitude is strictly larger.
        assert(vals(smaller@).take(min_nat(idx as nat, ls as nat) as int) == vals(smaller@).take(
            ls as int,
        ));
        assert(seq_val(vals(smaller@).take(ls as int), bb) == sval);
        assert(seq_val(vals(larger@).take(la as int), bb) == lval);
        lemma_seq_val_upper(vals(result@), bb, wrap);
        if borrow {
            vstd::arithmetic::power::lemma_pow_positive(bb, la as nat);
            assert(seq_val(vals(result@), bb) == lval - sval + pow(bb, la as nat));
            assert(false);
        }
        assert(seq_val(vals(result@), bb) == lval - sval);
    }

    // Trim the difference of redundant most-significant zero digits.
    let tl = trimmed_len(result.as_slice());
    proof {
        lemma_trim_len_le(vals(result@));
        lemma_seq_val_trim(vals(result@), bb);
        if tl == 0 {
            crate::radix::lemma_seq_val_all_zero(vals(result@), bb);
            assert(false);
        }
    }
    let ghost pre_t = result@;
    result.truncate(tl);
    proof {
        assert(result@ == pre_t.take(tl as int));
        assert(vals(result@) =~= vals(pre_t).take(tl as int));
    }
    (result, sign)
}

} // verus!

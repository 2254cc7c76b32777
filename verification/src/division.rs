//! Scalar division: long division of a u32 limb sequence by a single
//! nonzero limb, most significant limb first, carrying the running
//! remainder into each step through a double-width dividend.

use vstd::prelude::*;
use crate::limb::{copy_limbs, vals};
use crate::multiplication::{b32, limbs_val};
use crate::radix::seq_val;

verus! {

/// Divides a one- or two-limb value by a single limb, returning the
/// double-width quotient and the remainder.
pub fn digital_u64_u32_divide_with_rem(lhs: &[u32], rhs: u32) -> (r: (u64, u32))
    requires
        rhs != 0,
        1 <= lhs@.len() <= 2,
    ensures
        r.0 == limbs_val(lhs@) / rhs as int,
        r.1 == limbs_val(lhs@) % rhs as int,
{
    let combined: u64 = if lhs.len() == 1 {
        proof {
            assert(vals(lhs@) =~= seq![lhs@[0] as int]);
            crate::radix::lemma_seq_val_singleton(lhs@[0] as int, b32());
        }
        lhs[0] as u64
    } else {
        let lo = lhs[0];
        let hi = lhs[1];
        proof {
            assert((hi as u64) << 32u64 == (hi as u64) * 0x1_0000_0000u64) by (bit_vector);
            assert(vals(lhs@) =~= seq![lo as int].push(hi as int));
            crate::radix::lemma_seq_val_push(seq![lo as int], b32(), hi as int);
            crate::radix::lemma_seq_val_singleton(lo as int, b32());
            vstd::arithmetic::power::lemma_pow1(b32());
            vstd::arithmetic::mul::lemma_mul_inequality(hi as int, 0xFFFF_FFFF, 0x1_0000_0000);
        }
        lo as u64 + ((hi as u64) << 32)
    };
    let cast_divisor = rhs as u64;
    let (quot, rem) = (combined / cast_divisor, combined % cast_divisor);
    (quot, rem as u32)
}

/// Long division of `lhs` by the single limb `rhs`, in place: the limbs
/// become the quotient (same length, possibly with new leading zeros)
/// and the remainder is returned.
pub fn digital_scalar_divide_in_place_u32(lhs: &mut Vec<u32>, rhs: u32) -> (rem: u32)
    requires
        rhs != 0,
        old(lhs)@.len() >= 1,
    ensures
        final(lhs)@.len() == old(lhs)@.len(),
        limbs_val(final(lhs)@) == limbs_val(old(lhs)@) / rhs as int,
        rem == limbs_val(old(lhs)@) % rhs as int,
{
    let ghost orig = old(lhs)@;
    if lhs.len() == 1 {
        let dividend = lhs[0];
        let (quot, rem) = (dividend / rhs, dividend % rhs);
        lhs[0] = quot;
        proof {
            assert(vals(orig) =~= seq![orig[0] as int]);
            assert(vals(lhs@) =~= seq![quot as int]);
            crate::radix::lemma_seq_val_singleton(orig[0] as int, b32());
            crate::radix::lemma_seq_val_singleton(quot as int, b32());
        }
        return rem;
    }
    let mut idx = lhs.len();
    let mut rem: u32 = 0;
    proof {
        assert(vals(lhs@).skip(idx as int) =~= Seq::<int>::empty());
        assert(vals(orig).skip(idx as int) =~= Seq::<int>::empty());
    }
    while idx > 0
        invariant
            rhs != 0,
            idx <= lhs@.len(),
            lhs@.len() == orig.len(),
            lhs@.take(idx as int) == orig.take(idx as int),
            rem < rhs,
            seq_val(vals(orig).skip(idx as int), b32()) == seq_val(
                vals(lhs@).skip(idx as int),
                b32(),
            ) * rhs + rem,
        decreases idx,
    {
        idx -= 1;
        let ghost pre = lhs@;
        let current = lhs[idx];
        proof {
            assert(current == orig[idx as int]) by {
                assert(pre.take(idx + 1)[idx as int] == orig.take(idx + 1)[idx as int]);
            }
        }
        let pair: [u32; 2] = [current, rem];
        proof {
            assert(pair@ =~= seq![current].push(rem));
            assert(vals(pair@) =~= seq![current as int].push(rem as int));
            crate::radix::lemma_seq_val_push(seq![current as int], b32(), rem as int);
            crate::radix::lemma_seq_val_singleton(current as int, b32());
            vstd::arithmetic::power::lemma_pow1(b32());
        }
        let (quot, current_rem) = digital_u64_u32_divide_with_rem(pair.as_slice(), rhs);
        proof {
            let combined = current as int + b32() * (rem as int);
            vstd::arithmetic::div_mod::lemma_fundamental_div_mod(combined, rhs as int);
            assert(combined < rhs as int * b32()) by (nonlinear_arith)
                requires
                    combined == current as int + b32() * (rem as int),
                    current < 0x1_0000_0000,
                    (rem as int) < rhs as int,
            ;
            assert(quot < 0x1_0000_0000) by (nonlinear_arith)
                requires
                    quot as int * (rhs as int) + (current_rem as int) == combined,
                    combined < rhs as int * b32(),
                    0 <= (current_rem as int),
                    0 < rhs as int,
                    0 <= quot as int,
            ;
        }
        let quot32 = quot as u32;
        let ghost rem_old = rem as int;
        rem = current_rem;
        lhs[idx] = quot32;
        proof {
            assert(lhs@ == pre.update(idx as int, quot32));
            assert(lhs@.take(idx as int) =~= orig.take(idx as int));
            // The new suffix and the old stand in the long-division
            // relation again, one limb further down.
            assert(vals(lhs@).skip(idx as int).skip(1) =~= vals(pre).skip(idx + 1));
            assert(vals(orig).skip(idx as int).skip(1) =~= vals(orig).skip(idx + 1));
            assert(vals(lhs@).skip(idx as int)[0] == quot32 as int);
            assert(vals(orig).skip(idx as int)[0] == orig[idx as int] as int);
            assert(vals(pre).skip(idx + 1) =~= vals(lhs@).skip(idx + 1));
            let q_tail = seq_val(vals(pre).skip(idx + 1), b32());
            let o_tail = seq_val(vals(orig).skip(idx + 1), b32());
            let o_new = seq_val(vals(orig).skip(idx as int), b32());
            let q_new = seq_val(vals(lhs@).skip(idx as int), b32());
            assert(o_new == orig[idx as int] as int + b32() * o_tail);
            assert(q_new == quot32 as int + b32() * q_tail);
            assert(o_new == q_new * (rhs as int) + rem as int) by (nonlinear_arith)
                requires
                    o_new == current as int + b32() * o_tail,
                    o_tail == q_tail * (rhs as int) + rem_old,
                    q_new == quot as int + b32() * q_tail,
                    quot as int * (rhs as int) + rem as int == current as int + b32() * rem_old,
            ;
        }
    }
    proof {
        assert(vals(orig).skip(0) =~= vals(orig));
        assert(vals(lhs@).skip(0) =~= vals(lhs@));
        vstd::arithmetic::div_mod::lemma_fundamental_div_mod_converse(
            limbs_val(orig),
            rhs as int,
            limbs_val(lhs@),
            rem as int,
        );
    }
    rem
}

/// The quotient and remainder of `lhs` divided by the single limb
/// `rhs`, allocating anew.
pub fn digital_scalar_divide_u32(lhs: &[u32], rhs: u32) -> (r: (Vec<u32>, u32))
    requires
        rhs != 0,
        lhs@.len() >= 1,
    ensures
        limbs_val(r.0@) == limbs_val(lhs@) / rhs as int,
        r.1 == limbs_val(lhs@) % rhs as int,
        r.0@.len() == lhs@.len(),
{
    let mut cloned = copy_limbs(lhs);
    let rem = digital_scalar_divide_in_place_u32(&mut cloned, rhs);
    (cloned, rem)
}

/// The remainder of `lhs` divided by the single limb `rhs`.
pub fn digital_scalar_rem_u32(lhs: &[u32], rhs: u32) -> (r: u32)
    requires
        rhs != 0,
        lhs@.len() >= 1,
    ensures
        r == limbs_val(lhs@) % rhs as int,
{
    let mut cloned = copy_limbs(lhs);
    digital_scalar_divide_in_place_u32(&mut cloned, rhs)
}

} // verus!

//! Fixed-capacity variants of the digit algorithms for environments
//! with a bounded arena: each value lives in exactly `ARENA_LIMBS`
//! limbs (an arena plus explicit-length representation), zero-filled
//! above its magnitude, and shares the algorithmic core of the growable
//! forms. A result that would not fit the capacity is a caller error,
//! excluded by precondition.

use vstd::prelude::*;
use vstd::arithmetic::power::pow;
use crate::addition::{digital_add, digital_add_in_place};
use crate::comparison::{lemma_seq_val_trim, lemma_trim_len_le, trimmed_len};
use crate::limb::{base_of, lemma_vals_in_range, vals, wrap_of, wrap_ok, Limb};
use crate::multiplication::{b32, digital_multiply_u32, digital_scalar_multiply_in_place_u32,
    karatsuba_mul, limbs_val};
use crate::radix::{bounded, lemma_seq_val_push, max_nat, seq_val};
use crate::sign::Sign;
use crate::subtraction::digital_subtract;
use crate::wrap::DigitalWrap;

verus! {

/// The capacity of the fixed arena, in limbs.
pub const ARENA_LIMBS: usize = 65536;

/// Pads a limb vector with most-significant zeros up to `len` limbs;
/// the value is unchanged.
fn pad_to<I: Limb>(v: &mut Vec<I>, len: usize, Ghost(base): Ghost<int>)
    requires
        old(v)@.len() <= len,
    ensures
        final(v)@.len() == len,
        final(v)@.take(old(v)@.len() as int) == old(v)@,
        seq_val(vals(final(v)@), base) == seq_val(vals(old(v)@), base),
        forall|i: int| old(v)@.len() <= i < len ==> #[trigger] vals(final(v)@)[i] == 0,
{
    let zero = I::limb_zero();
    let ghost orig = old(v)@;
    while v.len() < len
        invariant
            orig.len() <= v@.len() <= len,
            zero.val() == 0,
            v@.take(orig.len() as int) == orig,
            seq_val(vals(v@), base) == seq_val(vals(orig), base),
            forall|i: int| orig.len() <= i < v@.len() ==> #[trigger] vals(v@)[i] == 0,
        decreases len - v@.len(),
    {
        let ghost pre = v@;
        v.push(zero);
        proof {
            assert(vals(v@) =~= vals(pre).push(0));
            lemma_seq_val_push(vals(pre), base, 0);
            assert(pow(base, pre.len()) * 0 == 0) by (nonlinear_arith);
            assert(v@.take(orig.len() as int) =~= pre.take(orig.len() as int));
        }
    }
}

/// Fixed-capacity limb addition: the sum of two operands, zero-padded
/// to the arena capacity. The sum must fit the arena.
pub fn digital_add_fixed_width<I: Limb>(lhs: &[I], rhs: &[I], base: DigitalWrap) -> (r: Vec<I>)
    requires
        wrap_ok::<I>(base),
        bounded(vals(lhs@), wrap_of::<I>(base)),
        bounded(vals(rhs@), wrap_of::<I>(base)),
        lhs@.len() <= ARENA_LIMBS as int,
        rhs@.len() <= ARENA_LIMBS as int,
        seq_val(vals(lhs@), base_of::<I>(base)) + seq_val(vals(rhs@), base_of::<I>(base)) < pow(
            base_of::<I>(base),
            ARENA_LIMBS as nat,
        ),
    ensures
        r@.len() == ARENA_LIMBS as int,
        bounded(vals(r@), wrap_of::<I>(base)),
        seq_val(vals(r@), base_of::<I>(base)) == seq_val(vals(lhs@), base_of::<I>(base))
            + seq_val(vals(rhs@), base_of::<I>(base)),
{
    let mut sum = digital_add(lhs, rhs, base);
    let tl = trimmed_len(sum.as_slice());
    proof {
        lemma_trim_len_le(vals(sum@));
        lemma_seq_val_trim(vals(sum@), base_of::<I>(base));
        if tl > ARENA_LIMBS {
            crate::bigint::lemma_trimmed_lower(
                vals(sum@).take(tl as int),
                base_of::<I>(base),
                wrap_of::<I>(base),
            );
            vstd::arithmetic::power::lemma_pow_increases(
                base_of::<I>(base) as nat,
                ARENA_LIMBS as nat,
                (tl - 1) as nat,
            );
            assert(false);
        }
    }
    let ghost pre_t = sum@;
    sum.truncate(tl);
    proof {
        assert(sum@ == pre_t.take(tl as int));
        assert(vals(sum@) =~= vals(pre_t).take(tl as int));
    }
    pad_to(&mut sum, ARENA_LIMBS, Ghost(base_of::<I>(base)));
    proof {
        assert forall|i: int| 0 <= i < vals(sum@).len() implies 0 <= #[trigger] vals(sum@)[i]
            <= wrap_of::<I>(base) by {
            sum@[i].val_in_range();
            if i < tl {
                assert(sum@[i] == pre_t.take(tl as int)[i]);
                assert(vals(pre_t)[i] == pre_t[i].val());
            }
        }
    }
    sum
}

/// Fixed-capacity in-place limb addition on a full arena.
pub fn digital_add_in_place_fixed_width<I: Limb>(lhs: &mut Vec<I>, rhs: &[I], base: DigitalWrap)
    requires
        wrap_ok::<I>(base),
        bounded(vals(old(lhs)@), wrap_of::<I>(base)),
        bounded(vals(rhs@), wrap_of::<I>(base)),
        old(lhs)@.len() == ARENA_LIMBS as int,
        rhs@.len() <= ARENA_LIMBS as int,
        seq_val(vals(old(lhs)@), base_of::<I>(base)) + seq_val(vals(rhs@), base_of::<I>(base))
            < pow(base_of::<I>(base), ARENA_LIMBS as nat),
    ensures
        final(lhs)@.len() == ARENA_LIMBS as int,
        bounded(vals(final(lhs)@), wrap_of::<I>(base)),
        seq_val(vals(final(lhs)@), base_of::<I>(base)) == seq_val(
            vals(old(lhs)@),
            base_of::<I>(base),
        ) + seq_val(vals(rhs@), base_of::<I>(base)),
{
    digital_add_in_place(lhs, rhs, base);
    proof {
        assert(max_nat(old(lhs)@.len(), rhs@.len()) == ARENA_LIMBS as nat);
        if lhs@.len() > ARENA_LIMBS {
            assert(false);
        }
    }
}

/// Fixed-capacity limb subtraction: difference digits zero-padded to
/// the arena capacity, with the comparison-derived sign.
pub fn digital_subtract_fixed_width<I: Limb>(lhs: &[I], rhs: &[I], base: DigitalWrap) -> (r: (
    Vec<I>,
    Sign,
))
    requires
        wrap_ok::<I>(base),
        bounded(vals(lhs@), wrap_of::<I>(base)),
        bounded(vals(rhs@), wrap_of::<I>(base)),
        lhs@.len() <= ARENA_LIMBS as int,
        rhs@.len() <= ARENA_LIMBS as int,
    ensures
        r.0@.len() == ARENA_LIMBS as int,
        bounded(vals(r.0@), wrap_of::<I>(base)),
        ({
            let lv = seq_val(vals(lhs@), base_of::<I>(base));
            let rv = seq_val(vals(rhs@), base_of::<I>(base));
            let dv = seq_val(vals(r.0@), base_of::<I>(base));
            &&& (lv == rv ==> r.1 == Sign::Zero && dv == 0)
            &&& (lv > rv ==> r.1 == Sign::Positive && dv == lv - rv)
            &&& (lv < rv ==> r.1 == Sign::Negative && dv == rv - lv)
        }),
{
    let (mut difference, sign) = digital_subtract(lhs, rhs, base);
    proof {
        let lv = seq_val(vals(lhs@), base_of::<I>(base));
        let rv = seq_val(vals(rhs@), base_of::<I>(base));
        if lv == rv {
            crate::radix::lemma_seq_val_singleton(0, base_of::<I>(base));
        }
    }
    let ghost pre = difference@;
    pad_to(&mut difference, ARENA_LIMBS, Ghost(base_of::<I>(base)));
    proof {
        assert forall|i: int| 0 <= i < vals(difference@).len() implies 0 <= #[trigger] vals(
            difference@,
        )[i] <= wrap_of::<I>(base) by {
            difference@[i].val_in_range();
            if i < pre.len() {
                assert(difference@[i] == pre.take(pre.len() as int)[i]);
                assert(vals(pre)[i] == pre[i].val());
            }
        }
    }
    (difference, sign)
}

/// Fixed-capacity full multiplication: the product of two operands
/// whose combined magnitude fits the arena, zero-padded to capacity.
pub fn digital_multiply_u32_into_fixed_width(lhs: &[u32], rhs: &[u32]) -> (r: Vec<u32>)
    requires
        lhs@.len() + rhs@.len() <= ARENA_LIMBS as int,
    ensures
        r@.len() == ARENA_LIMBS as int,
        limbs_val(r@) == limbs_val(lhs@) * limbs_val(rhs@),
{
    let product = digital_multiply_u32(lhs, rhs);
    proof {
        lemma_product_fits(lhs@, rhs@);
    }
    fit_product_into_arena(product, Ghost(limbs_val(lhs@) * limbs_val(rhs@)), Ghost(
        lhs@.len() + rhs@.len() as int,
    ))
}

/// Fixed-capacity Karatsuba multiplication, padded to capacity like the
/// schoolbook form; behavior equals the schoolbook form for every
/// crossover.
pub fn karatsuba_mul_fixed_width(lhs: &[u32], rhs: &[u32], crossover: usize) -> (r: Vec<u32>)
    requires
        crossover >= 1,
        lhs@.len() + rhs@.len() <= ARENA_LIMBS as int,
    ensures
        r@.len() == ARENA_LIMBS as int,
        limbs_val(r@) == limbs_val(lhs@) * limbs_val(rhs@),
{
    let product = karatsuba_mul(lhs, rhs, crossover);
    proof {
        lemma_product_fits(lhs@, rhs@);
    }
    fit_product_into_arena(product, Ghost(limbs_val(lhs@) * limbs_val(rhs@)), Ghost(
        lhs@.len() + rhs@.len() as int,
    ))
}

/// The product of two magnitudes fits as many limbs as the operands
/// hold together (or is zero outright).
proof fn lemma_product_fits(lhs: Seq<u32>, rhs: Seq<u32>)
    ensures
        limbs_val(lhs) * limbs_val(rhs) == 0 || limbs_val(lhs) * limbs_val(rhs) < pow(
            b32(),
            (lhs.len() + rhs.len()) as nat,
        ),
{
    lemma_vals_in_range::<u32>(lhs);
    lemma_vals_in_range::<u32>(rhs);
    crate::radix::lemma_seq_val_upper(vals(lhs), b32(), 0xFFFF_FFFF);
    crate::radix::lemma_seq_val_upper(vals(rhs), b32(), 0xFFFF_FFFF);
    vstd::arithmetic::power::lemma_pow_adds(b32(), lhs.len(), rhs.len());
    let lv = limbs_val(lhs);
    let rv = limbs_val(rhs);
    if lv == 0 || rv == 0 {
        assert(lv * rv == 0) by (nonlinear_arith)
            requires
                lv == 0 || rv == 0,
        ;
    } else {
        assert(lv * rv < pow(b32(), lhs.len()) * pow(b32(), rhs.len())) by (nonlinear_arith)
            requires
                1 <= lv,
                1 <= rv,
                lv < pow(b32(), lhs.len()),
                rv < pow(b32(), rhs.len()),
        ;
    }
}

/// Trims a product known to fit `cap` limbs and pads it to the arena
/// capacity.
fn fit_product_into_arena(
    product: Vec<u32>,
    Ghost(value): Ghost<int>,
    Ghost(cap): Ghost<int>,
) -> (r: Vec<u32>)
    requires
        limbs_val(product@) == value,
        0 <= cap <= ARENA_LIMBS as int,
        value < pow(b32(), cap as nat) || value == 0,
    ensures
        r@.len() == ARENA_LIMBS as int,
        limbs_val(r@) == value,
{
    let mut out = product;
    let tl = trimmed_len(out.as_slice());
    proof {
        lemma_vals_in_range::<u32>(out@);
        lemma_trim_len_le(vals(out@));
        lemma_seq_val_trim(vals(out@), b32());
        if tl > ARENA_LIMBS {
            assert(vals(out@)[tl - 1] != 0);
            assert(vals(out@).take(tl as int)[tl - 1] >= 1);
            crate::radix::lemma_seq_val_lower(vals(out@).take(tl as int), b32(), 0xFFFF_FFFF);
            vstd::arithmetic::power::lemma_pow_increases(
                b32() as nat,
                cap as nat,
                (tl - 1) as nat,
            );
            vstd::arithmetic::power::lemma_pow_positive(b32(), (tl - 1) as nat);
            assert(false);
        }
    }
    let ghost pre_t = out@;
    out.truncate(tl);
    proof {
        assert(out@ == pre_t.take(tl as int));
        assert(vals(out@) =~= vals(pre_t).take(tl as int));
    }
    pad_to(&mut out, ARENA_LIMBS, Ghost(b32()));
    out
}

/// Fixed-capacity scalar multiplication into a fresh arena; the product
/// must fit the capacity.
pub fn digital_scalar_multiply_out_of_place_u32_fixed_width(lhs: &[u32], rhs: u32) -> (r: Vec<u32>)
    requires
        lhs@.len() <= ARENA_LIMBS as int,
        rhs * limbs_val(lhs@) < pow(b32(), ARENA_LIMBS as nat),
    ensures
        r@.len() == ARENA_LIMBS as int,
        limbs_val(r@) == rhs * limbs_val(lhs@),
{
    let mut result = crate::limb::copy_limbs(lhs);
    proof {
        lemma_vals_in_range::<u32>(lhs@);
        crate::radix::lemma_seq_val_nonneg(vals(lhs@), b32());
    }
    digital_scalar_multiply_in_place_u32(&mut result, rhs);
    fit_product_into_arena(result, Ghost(rhs * limbs_val(lhs@)), Ghost(ARENA_LIMBS as int))
}

/// Fixed-capacity scalar multiplication in place on a full arena; the
/// product must fit the capacity.
pub fn digital_scalar_multiply_in_place_u32_fixed_width(lhs: &mut Vec<u32>, rhs: u32)
    requires
        old(lhs)@.len() == ARENA_LIMBS as int,
        rhs * limbs_val(old(lhs)@) < pow(b32(), ARENA_LIMBS as nat),
    ensures
        final(lhs)@.len() == ARENA_LIMBS as int,
        limbs_val(final(lhs)@) == rhs * limbs_val(old(lhs)@),
{
    digital_scalar_multiply_in_place_u32(lhs, rhs);
    proof {
        if lhs@.len() > ARENA_LIMBS {
            assert(false);
        }
    }
}

} // verus!

//! The general laws of the arithmetic, stated over the value model and
//! proved from the operations' contracts: uniqueness of the canonical
//! representation, commutativity, additive identity and inverse, the
//! sign rule of multiplication, the equivalence of the two multipliers,
//! the order's agreement with subtraction, and the scalar division
//! round trip.

use vstd::prelude::*;
use core::cmp::Ordering;
use crate::bigint::{lemma_order_value, lemma_wf_value, order_spec, BigInt};
use crate::limb::{lemma_vals_in_range, vals};
use crate::multiplication::{b32, limbs_val};
use crate::sign::Sign;

verus! {

/// A well-formed value has exactly one representation: equal values
/// mean equal sign tags and equal limb vectors.
pub proof fn lemma_canonical_representation(a: BigInt, b: BigInt)
    requires
        a.well_formed(),
        b.well_formed(),
        a.value() == b.value(),
    ensures
        a.sign == b.sign,
        a.digits@ == b.digits@,
{
    lemma_wf_value(a);
    lemma_wf_value(b);
    lemma_vals_in_range::<u32>(a.digits@);
    lemma_vals_in_range::<u32>(b.digits@);
    assert(a.mag() == b.mag());
    crate::radix::lemma_seq_val_canonical(vals(a.digits@), vals(b.digits@), b32(), 0xFFFF_FFFF);
    assert(a.digits@ =~= b.digits@) by {
        assert forall|i: int| 0 <= i < a.digits@.len() implies #[trigger] a.digits@[i]
            == b.digits@[i] by {
            assert(vals(a.digits@)[i] == vals(b.digits@)[i]);
        }
    }
}

/// Addition is commutative: well-formed results of `a + b` and `b + a`
/// are one and the same representation.
pub proof fn lemma_add_commutative(a: BigInt, b: BigInt, ab: BigInt, ba: BigInt)
    requires
        a.well_formed(),
        b.well_formed(),
        ab.well_formed(),
        ba.well_formed(),
        ab.value() == a.value() + b.value(),
        ba.value() == b.value() + a.value(),
    ensures
        ab.value() == ba.value(),
        ab.sign == ba.sign,
        ab.digits@ == ba.digits@,
{
    lemma_canonical_representation(ab, ba);
}

/// Multiplication is commutative: well-formed results of `a * b` and
/// `b * a` are one and the same representation.
pub proof fn lemma_mul_commutative(a: BigInt, b: BigInt, ab: BigInt, ba: BigInt)
    requires
        a.well_formed(),
        b.well_formed(),
        ab.well_formed(),
        ba.well_formed(),
        ab.value() == a.value() * b.value(),
        ba.value() == b.value() * a.value(),
    ensures
        ab.value() == ba.value(),
        ab.sign == ba.sign,
        ab.digits@ == ba.digits@,
{
    vstd::arithmetic::mul::lemma_mul_is_commutative(a.value(), b.value());
    lemma_canonical_representation(ab, ba);
}

/// Adding zero changes nothing: the sum of `a` and a zero value is
/// `a` itself, representation included.
pub proof fn lemma_add_identity(a: BigInt, z: BigInt, r: BigInt)
    requires
        a.well_formed(),
        z.well_formed(),
        r.well_formed(),
        z.value() == 0,
        r.value() == a.value() + z.value(),
    ensures
        r.sign == a.sign,
        r.digits@ == a.digits@,
{
    lemma_canonical_representation(r, a);
}

/// Subtracting a value from itself yields zero with the zero sign tag
/// and the canonical zero limb vector.
pub proof fn lemma_sub_self(a: BigInt, d: BigInt)
    requires
        a.well_formed(),
        d.well_formed(),
        d.value() == a.value() - a.value(),
    ensures
        d.sign == Sign::Zero,
        d.digits@ =~= seq![0u32],
{
    lemma_wf_value(d);
    assert(d.digits@ =~= seq![0u32]);
}

/// Adding then subtracting the same value cancels, for every sign
/// combination: `(a + b) - b == a`, representation included.
pub proof fn lemma_add_sub_cancel(a: BigInt, b: BigInt, sum: BigInt, back: BigInt)
    requires
        a.well_formed(),
        b.well_formed(),
        sum.well_formed(),
        back.well_formed(),
        sum.value() == a.value() + b.value(),
        back.value() == sum.value() - b.value(),
    ensures
        back.sign == a.sign,
        back.digits@ == a.digits@,
{
    lemma_canonical_representation(back, a);
}

/// The sign rule of multiplication: a zero factor absorbs, and the
/// product is negative exactly when one factor alone is negative.
pub proof fn lemma_mul_sign(a: BigInt, b: BigInt, p: BigInt)
    requires
        a.well_formed(),
        b.well_formed(),
        p.well_formed(),
        p.value() == a.value() * b.value(),
    ensures
        a.sign == Sign::Zero || b.sign == Sign::Zero ==> p.sign == Sign::Zero,
        p.sign == Sign::Negative <==> ((a.sign == Sign::Negative) != (b.sign == Sign::Negative))
            && a.sign != Sign::Zero && b.sign != Sign::Zero,
{
    lemma_wf_value(a);
    lemma_wf_value(b);
    lemma_wf_value(p);
    let x = a.value();
    let y = b.value();
    assert(x > 0 && y > 0 ==> x * y > 0) by (nonlinear_arith);
    assert(x < 0 && y < 0 ==> x * y > 0) by (nonlinear_arith);
    assert(x > 0 && y < 0 ==> x * y < 0) by (nonlinear_arith);
    assert(x < 0 && y > 0 ==> x * y < 0) by (nonlinear_arith);
    assert(x == 0 || y == 0 ==> x * y == 0) by (nonlinear_arith);
}

/// The Karatsuba and schoolbook multipliers agree: under their
/// contracts both produce the digit value `lhs * rhs`, whatever the
/// crossover threshold was.
pub proof fn lemma_multiplication_equivalence(
    lhs: Seq<u32>,
    rhs: Seq<u32>,
    karatsuba: Seq<u32>,
    schoolbook: Seq<u32>,
)
    requires
        limbs_val(karatsuba) == limbs_val(lhs) * limbs_val(rhs),
        limbs_val(schoolbook) == limbs_val(lhs) * limbs_val(rhs),
    ensures
        limbs_val(karatsuba) == limbs_val(schoolbook),
{
}

/// The ordering is a strict total order consistent with subtraction:
/// `a` is below `b` exactly when `a - b` carries the negative sign,
/// equal to `b` exactly when the difference carries the zero sign.
/// Together with `lemma_order_value` this is the order of the numeric
/// values themselves.
pub proof fn lemma_order_matches_subtraction(a: BigInt, b: BigInt, d: BigInt)
    requires
        a.well_formed(),
        b.well_formed(),
        d.well_formed(),
        d.value() == a.value() - b.value(),
    ensures
        order_spec(a, b) == Ordering::Less <==> d.sign == Sign::Negative,
        order_spec(a, b) == Ordering::Equal <==> d.sign == Sign::Zero,
        order_spec(a, b) == Ordering::Greater <==> d.sign == Sign::Positive,
{
    lemma_order_value(a, b);
    lemma_wf_value(d);
}

/// The scalar round trip: for every dividend and nonzero scalar,
/// `(a / s) * s + (a % s)` restores `a`, representation included — the
/// quotient floors and the remainder is the nonnegative Euclidean one.
pub proof fn lemma_scalar_round_trip(a: BigInt, s: u32, q: BigInt, m: u32, back: BigInt)
    requires
        a.well_formed(),
        q.well_formed(),
        back.well_formed(),
        s != 0,
        q.value() == a.value() / (s as int),
        m == a.value() % (s as int),
        back.value() == q.value() * s + m,
    ensures
        back.value() == a.value(),
        back.sign == a.sign,
        back.digits@ == a.digits@,
{
    lemma_wf_value(a);
    vstd::arithmetic::div_mod::lemma_fundamental_div_mod(a.value(), s as int);
    vstd::arithmetic::mul::lemma_mul_is_commutative(a.value() / (s as int), s as int);
    lemma_canonical_representation(back, a);
}

} // verus!

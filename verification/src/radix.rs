//! The mathematical value of a little-endian limb sequence under a radix,
//! and the lemmas about it that the carry/borrow proofs rest on.

use vstd::prelude::*;
use vstd::arithmetic::power::pow;
use vstd::arithmetic::mul::{
    lemma_mul_inequality, lemma_mul_is_distributive_add, lemma_mul_is_distributive_sub,
    lemma_mul_is_associative, lemma_mul_nonnegative,
};

verus! {

/// The larger of two lengths.
pub open spec fn max_nat(a: nat, b: nat) -> nat {
    if a >= b {
        a
    } else {
        b
    }
}

/// The smaller of two lengths.
pub open spec fn min_nat(a: nat, b: nat) -> nat {
    if a <= b {
        a
    } else {
        b
    }
}

/// Value of the little-endian digit sequence `s` in base `base`.
pub open spec fn seq_val(s: Seq<int>, base: int) -> int
    decreases s.len(),
{
    if s.len() == 0 {
        0
    } else {
        s[0] + base * seq_val(s.skip(1), base)
    }
}

/// Every digit lies in `[0, wrap]`, where `wrap` is the radix minus one.
pub open spec fn bounded(s: Seq<int>, wrap: int) -> bool {
    forall|i: int| 0 <= i < s.len() ==> 0 <= #[trigger] s[i] <= wrap
}

/// No redundant most-significant zero digit (a single digit is always fine).
pub open spec fn trimmed(s: Seq<int>) -> bool {
    s.len() <= 1 || s[s.len() - 1] != 0
}

pub proof fn lemma_seq_val_singleton(x: int, base: int)
    ensures
        seq_val(seq![x], base) == x,
{
    assert(seq![x].skip(1) =~= Seq::<int>::empty());
    assert(seq_val(seq![x].skip(1), base) == 0);
}

/// One unfolding of `pow`, which vstd keeps opaque.
pub proof fn lemma_pow_unfold(b: int, e: nat)
    requires
        e >= 1,
    ensures
        pow(b, e) == b * pow(b, (e - 1) as nat),
{
    reveal(pow);
}

pub proof fn lemma_seq_val_nonneg(s: Seq<int>, base: int)
    requires
        base >= 1,
        forall|i: int| 0 <= i < s.len() ==> 0 <= #[trigger] s[i],
    ensures
        seq_val(s, base) >= 0,
    decreases s.len(),
{
    if s.len() > 0 {
        lemma_seq_val_nonneg(s.skip(1), base);
        lemma_mul_nonnegative(base, seq_val(s.skip(1), base));
    }
}

pub proof fn lemma_seq_val_all_zero(s: Seq<int>, base: int)
    requires
        forall|i: int| 0 <= i < s.len() ==> #[trigger] s[i] == 0,
    ensures
        seq_val(s, base) == 0,
    decreases s.len(),
{
    if s.len() > 0 {
        lemma_seq_val_all_zero(s.skip(1), base);
    }
}

/// Splitting a sequence at `k` splits its value: low part plus `base^k`
/// times the high part.
pub proof fn lemma_seq_val_split(s: Seq<int>, base: int, k: int)
    requires
        0 <= k <= s.len(),
    ensures
        seq_val(s, base) == seq_val(s.take(k), base) + pow(base, k as nat) * seq_val(
            s.skip(k),
            base,
        ),
    decreases k,
{
    if k == 0 {
        assert(s.take(0) =~= Seq::<int>::empty());
        assert(s.skip(0) =~= s);
        assert(pow(base, 0) == 1) by {
            vstd::arithmetic::power::lemma_pow0(base);
        }
    } else {
        let tail = s.skip(1);
        lemma_seq_val_split(tail, base, k - 1);
        assert(s.take(k).skip(1) =~= tail.take(k - 1));
        assert(s.skip(k) =~= tail.skip(k - 1));
        let p1 = pow(base, (k - 1) as nat);
        let hi = seq_val(tail.skip(k - 1), base);
        let lo = seq_val(tail.take(k - 1), base);
        // tail value splits; multiply through by base and regroup.
        assert(base * (lo + p1 * hi) == base * lo + base * (p1 * hi)) by {
            lemma_mul_is_distributive_add(base, lo, p1 * hi);
        }
        assert(base * (p1 * hi) == (base * p1) * hi) by {
            lemma_mul_is_associative(base, p1, hi);
        }
        assert(pow(base, k as nat) == base * p1) by {
            lemma_pow_unfold(base, k as nat);
        }
        assert(seq_val(s.take(k), base) == s[0] + base * lo);
    }
}

/// A bounded sequence's value is below `base^len`.
pub proof fn lemma_seq_val_upper(s: Seq<int>, base: int, wrap: int)
    requires
        base == wrap + 1,
        wrap >= 0,
        bounded(s, wrap),
    ensures
        0 <= seq_val(s, base),
        seq_val(s, base) < pow(base, s.len()),
    decreases s.len(),
{
    if s.len() == 0 {
        vstd::arithmetic::power::lemma_pow0(base);
    } else {
        let tail = s.skip(1);
        lemma_seq_val_upper(tail, base, wrap);
        let v = seq_val(tail, base);
        let p = pow(base, tail.len());
        assert(base * v <= base * (p - 1)) by {
            lemma_mul_inequality(v, p - 1, base);
        }
        assert(base * (p - 1) == base * p - base) by {
            lemma_mul_is_distributive_sub(base, p, 1);
        }
        lemma_mul_nonnegative(base, v);
        assert(pow(base, s.len()) == base * p) by {
            lemma_pow_unfold(base, s.len());
        }
    }
}

/// A sequence whose top digit is nonzero has value at least
/// `base^(len-1)`.
pub proof fn lemma_seq_val_lower(s: Seq<int>, base: int, wrap: int)
    requires
        base == wrap + 1,
        wrap >= 0,
        bounded(s, wrap),
        s.len() >= 1,
        s[s.len() - 1] >= 1,
    ensures
        seq_val(s, base) >= pow(base, (s.len() - 1) as nat),
{
    let k = s.len() - 1;
    lemma_seq_val_split(s, base, k);
    lemma_seq_val_upper(s.take(k), base, wrap);
    let p = pow(base, k as nat);
    assert(s.skip(k) =~= seq![s[k]]);
    lemma_seq_val_singleton(s[k], base);
    assert(seq_val(s.skip(k), base) == s[k]);
    assert(p * s[k] >= p * 1) by {
        vstd::arithmetic::power::lemma_pow_positive(base, k as nat);
        lemma_mul_inequality(1, s[k], p);
        vstd::arithmetic::mul::lemma_mul_is_commutative(p, s[k]);
    }
}

/// Appending one digit adds `digit * base^len` to the value.
pub proof fn lemma_seq_val_push(s: Seq<int>, base: int, x: int)
    ensures
        seq_val(s.push(x), base) == seq_val(s, base) + pow(base, s.len()) * x,
    decreases s.len(),
{
    if s.len() == 0 {
        assert(s.push(x) =~= seq![x]);
        lemma_seq_val_singleton(x, base);
        assert(s =~= Seq::<int>::empty());
        assert(seq_val(s, base) == 0);
        vstd::arithmetic::power::lemma_pow0(base);
    } else {
        let tail = s.skip(1);
        lemma_seq_val_push(tail, base, x);
        assert(s.push(x).skip(1) =~= tail.push(x));
        let p1 = pow(base, tail.len());
        let v = seq_val(tail, base);
        assert(base * (v + p1 * x) == base * v + base * (p1 * x)) by {
            lemma_mul_is_distributive_add(base, v, p1 * x);
        }
        assert(base * (p1 * x) == (base * p1) * x) by {
            lemma_mul_is_associative(base, p1, x);
        }
        assert(pow(base, s.len()) == base * p1) by {
            lemma_pow_unfold(base, s.len());
        }
    }
}

/// The value of a prefix extended by one digit.
pub proof fn lemma_seq_val_take_succ(s: Seq<int>, base: int, i: int)
    requires
        0 <= i < s.len(),
    ensures
        seq_val(s.take(i + 1), base) == seq_val(s.take(i), base) + pow(base, i as nat) * s[i],
{
    assert(s.take(i + 1) =~= s.take(i).push(s[i]));
    lemma_seq_val_push(s.take(i), base, s[i]);
}

/// Under equal lengths and equal digits above position `i`, a larger
/// digit at `i` means a larger value.
pub proof fn lemma_seq_val_msd(s: Seq<int>, t: Seq<int>, base: int, wrap: int, i: int)
    requires
        base == wrap + 1,
        wrap >= 0,
        s.len() == t.len(),
        bounded(s, wrap),
        bounded(t, wrap),
        0 <= i < s.len(),
        forall|j: int| i < j < s.len() ==> #[trigger] s[j] == t[j],
        s[i] > t[i],
    ensures
        seq_val(s, base) > seq_val(t, base),
{
    lemma_seq_val_split(s, base, i + 1);
    lemma_seq_val_split(t, base, i + 1);
    assert(s.skip(i + 1) =~= t.skip(i + 1));
    lemma_seq_val_take_succ(s, base, i);
    lemma_seq_val_take_succ(t, base, i);
    lemma_seq_val_upper(s.take(i), base, wrap);
    lemma_seq_val_upper(t.take(i), base, wrap);
    let p = pow(base, i as nat);
    assert(p * s[i] >= p * (t[i] + 1)) by {
        vstd::arithmetic::power::lemma_pow_positive(base, i as nat);
        lemma_mul_inequality(t[i] + 1, s[i], p);
        vstd::arithmetic::mul::lemma_mul_is_commutative(p, s[i]);
        vstd::arithmetic::mul::lemma_mul_is_commutative(p, t[i] + 1);
    }
    assert(p * (t[i] + 1) == p * t[i] + p) by {
        lemma_mul_is_distributive_add(p, t[i], 1);
    }
}

/// A bounded value of zero forces every digit to zero.
pub proof fn lemma_seq_val_zero_all_zero(s: Seq<int>, base: int, wrap: int)
    requires
        base == wrap + 1,
        wrap >= 0,
        bounded(s, wrap),
        seq_val(s, base) == 0,
    ensures
        forall|i: int| 0 <= i < s.len() ==> #[trigger] s[i] == 0,
    decreases s.len(),
{
    if s.len() > 0 {
        let tail = s.skip(1);
        lemma_seq_val_upper(tail, base, wrap);
        lemma_mul_nonnegative(base, seq_val(tail, base));
        if seq_val(tail, base) > 0 {
            lemma_mul_inequality(1, seq_val(tail, base), base);
            vstd::arithmetic::mul::lemma_mul_is_commutative(base, seq_val(tail, base));
            assert(false);
        }
        lemma_seq_val_zero_all_zero(tail, base, wrap);
        assert forall|i: int| 0 <= i < s.len() implies #[trigger] s[i] == 0 by {
            if i > 0 {
                assert(s[i] == tail[i - 1]);
            }
        }
    }
}

/// Two trimmed, bounded sequences with the same value are the same
/// sequence: the canonical representation is unique.
pub proof fn lemma_seq_val_canonical(s: Seq<int>, t: Seq<int>, base: int, wrap: int)
    requires
        base == wrap + 1,
        wrap >= 0,
        bounded(s, wrap),
        bounded(t, wrap),
        trimmed(s),
        trimmed(t),
        s.len() >= 1,
        t.len() >= 1,
        seq_val(s, base) == seq_val(t, base),
    ensures
        s =~= t,
    decreases s.len(),
{
    // Equal values force equal lengths: a longer trimmed sequence has a
    // strictly larger value range.
    if s.len() < t.len() {
        lemma_seq_val_upper(s, base, wrap);
        lemma_seq_val_lower(t, base, wrap);
        vstd::arithmetic::power::lemma_pow_increases(base as nat, s.len(), (t.len() - 1) as nat);
        assert(false);
    }
    if t.len() < s.len() {
        lemma_seq_val_upper(t, base, wrap);
        lemma_seq_val_lower(s, base, wrap);
        vstd::arithmetic::power::lemma_pow_increases(base as nat, t.len(), (s.len() - 1) as nat);
        assert(false);
    }
    if s.len() == 1 {
        assert(s =~= seq![s[0]]);
        assert(t =~= seq![t[0]]);
        lemma_seq_val_singleton(s[0], base);
        lemma_seq_val_singleton(t[0], base);
        assert(s[0] == t[0]);
        assert(s =~= t);
    } else {
        // The digits above the first position are equal by induction on
        // the tails; the first digits then agree because the rest does.
        let st = s.skip(1);
        let tt = t.skip(1);
        if seq_val(st, base) != seq_val(tt, base) {
            if seq_val(st, base) > seq_val(tt, base) {
                lemma_mul_inequality(seq_val(tt, base) + 1, seq_val(st, base), base);
                vstd::arithmetic::mul::lemma_mul_is_commutative(base, seq_val(st, base));
                vstd::arithmetic::mul::lemma_mul_is_commutative(base, seq_val(tt, base) + 1);
                lemma_mul_is_distributive_add(base, seq_val(tt, base), 1);
                assert(false);
            } else {
                lemma_mul_inequality(seq_val(st, base) + 1, seq_val(tt, base), base);
                vstd::arithmetic::mul::lemma_mul_is_commutative(base, seq_val(tt, base));
                vstd::arithmetic::mul::lemma_mul_is_commutative(base, seq_val(st, base) + 1);
                lemma_mul_is_distributive_add(base, seq_val(st, base), 1);
                assert(false);
            }
        }
        assert(st[st.len() - 1] == s[s.len() - 1]);
        assert(tt[tt.len() - 1] == t[t.len() - 1]);
        lemma_seq_val_canonical(st, tt, base, wrap);
        assert(s[0] == t[0]);
        assert forall|i: int| 0 <= i < s.len() implies s[i] == t[i] by {
            if i > 0 {
                assert(s[i] == st[i - 1]);
                assert(t[i] == tt[i - 1]);
            }
        }
        assert(s =~= t);
    }
}

} // verus!

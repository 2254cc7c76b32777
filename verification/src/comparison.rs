//! Magnitude comparison of limb sequences: most-significant zero digits
//! are ignored, then lengths are compared, then digits from the most
//! significant end down. This is the single source of truth for
//! magnitude ordering; a lemma ties it to the numeric value under any
//! radix that bounds the digits.

use vstd::prelude::*;
use vstd::arithmetic::power::pow;
use core::cmp::Ordering;
use crate::limb::{Limb, vals, lemma_vals_in_range};
use crate::radix::{
    bounded, lemma_seq_val_lower, lemma_seq_val_msd, lemma_seq_val_split, lemma_seq_val_upper,
    seq_val, trimmed,
};

verus! {

/// Length of `s` once most-significant zero digits are dropped.
pub open spec fn trim_len_spec(s: Seq<int>) -> nat
    decreases s.len(),
{
    if s.len() == 0 {
        0
    } else if s[s.len() - 1] != 0 {
        s.len()
    } else {
        trim_len_spec(s.drop_last())
    }
}

/// Digit-by-digit comparison of two equally long sequences, most
/// significant digit first.
pub open spec fn cmp_msd(s: Seq<int>, t: Seq<int>) -> Ordering
    decreases s.len(),
{
    if s.len() == 0 {
        Ordering::Equal
    } else if s.last() > t.last() {
        Ordering::Greater
    } else if s.last() < t.last() {
        Ordering::Less
    } else {
        cmp_msd(s.drop_last(), t.drop_last())
    }
}

/// The magnitude ordering of two digit sequences: trim, compare trimmed
/// lengths, then compare digits from the top.
pub open spec fn cmp_spec(s: Seq<int>, t: Seq<int>) -> Ordering {
    let ts = s.take(trim_len_spec(s) as int);
    let tt = t.take(trim_len_spec(t) as int);
    if ts.len() < tt.len() {
        Ordering::Less
    } else if ts.len() > tt.len() {
        Ordering::Greater
    } else {
        cmp_msd(ts, tt)
    }
}

pub proof fn lemma_trim_len_le(s: Seq<int>)
    ensures
        trim_len_spec(s) <= s.len(),
        trim_len_spec(s) >= 1 ==> s[trim_len_spec(s) - 1] != 0,
        forall|j: int| trim_len_spec(s) <= j < s.len() ==> #[trigger] s[j] == 0,
        trimmed(s.take(trim_len_spec(s) as int)),
    decreases s.len(),
{
    if s.len() == 0 {
    } else if s[s.len() - 1] != 0 {
        assert(s.take(s.len() as int) =~= s);
    } else {
        lemma_trim_len_le(s.drop_last());
        let k = trim_len_spec(s);
        assert(k == trim_len_spec(s.drop_last()));
        assert forall|j: int| k <= j < s.len() implies #[trigger] s[j] == 0 by {
            if j < s.len() - 1 {
                assert(s.drop_last()[j] == s[j]);
            }
        }
        if k >= 1 {
            assert(s[k - 1] == s.drop_last()[k - 1]);
        }
        assert(s.take(k as int) =~= s.drop_last().take(k as int));
    }
}

/// Trimming never changes the value.
pub proof fn lemma_seq_val_trim(s: Seq<int>, base: int)
    ensures
        seq_val(s.take(trim_len_spec(s) as int), base) == seq_val(s, base),
    decreases s.len(),
{
    if s.len() == 0 {
        assert(s.take(0) =~= s);
    } else if s[s.len() - 1] != 0 {
        assert(s.take(s.len() as int) =~= s);
    } else {
        let d = s.drop_last();
        lemma_seq_val_trim(d, base);
        lemma_seq_val_split(s, base, s.len() - 1);
        assert(s.take(s.len() - 1) =~= d);
        assert(s.skip(s.len() - 1) =~= seq![0int]);
        crate::radix::lemma_seq_val_singleton(0, base);
        assert(pow(base, (s.len() - 1) as nat) * 0 == 0) by (nonlinear_arith);
        lemma_trim_len_le(d);
        assert(s.take(trim_len_spec(s) as int) =~= d.take(trim_len_spec(d) as int));
    }
}

/// Digit-by-digit comparison of equally long sequences agrees with the
/// numeric value under any radix that bounds the digits.
pub proof fn lemma_cmp_msd_value(s: Seq<int>, t: Seq<int>, base: int, wrap: int)
    requires
        base == wrap + 1,
        wrap >= 0,
        s.len() == t.len(),
        bounded(s, wrap),
        bounded(t, wrap),
    ensures
        cmp_msd(s, t) == Ordering::Equal <==> seq_val(s, base) == seq_val(t, base),
        cmp_msd(s, t) == Ordering::Less <==> seq_val(s, base) < seq_val(t, base),
        cmp_msd(s, t) == Ordering::Greater <==> seq_val(s, base) > seq_val(t, base),
    decreases s.len(),
{
    if s.len() == 0 {
        assert(s =~= t);
    } else if s.last() > t.last() {
        lemma_seq_val_msd(s, t, base, wrap, s.len() - 1);
    } else if s.last() < t.last() {
        lemma_seq_val_msd(t, s, base, wrap, s.len() - 1);
    } else {
        lemma_cmp_msd_value(s.drop_last(), t.drop_last(), base, wrap);
        lemma_seq_val_split(s, base, s.len() - 1);
        lemma_seq_val_split(t, base, t.len() - 1);
        assert(s.take(s.len() - 1) =~= s.drop_last());
        assert(t.take(t.len() - 1) =~= t.drop_last());
        assert(s.skip(s.len() - 1) =~= seq![s.last()]);
        assert(t.skip(t.len() - 1) =~= seq![t.last()]);
        crate::radix::lemma_seq_val_singleton(s.last(), base);
        crate::radix::lemma_seq_val_singleton(t.last(), base);
    }
}

/// The magnitude ordering agrees with the numeric value under any radix
/// that bounds the digits.
pub proof fn lemma_cmp_spec_value(s: Seq<int>, t: Seq<int>, base: int, wrap: int)
    requires
        base == wrap + 1,
        wrap >= 0,
        bounded(s, wrap),
        bounded(t, wrap),
    ensures
        cmp_spec(s, t) == Ordering::Equal <==> seq_val(s, base) == seq_val(t, base),
        cmp_spec(s, t) == Ordering::Less <==> seq_val(s, base) < seq_val(t, base),
        cmp_spec(s, t) == Ordering::Greater <==> seq_val(s, base) > seq_val(t, base),
{
    let ks = trim_len_spec(s);
    let kt = trim_len_spec(t);
    let ts = s.take(ks as int);
    let tt = t.take(kt as int);
    lemma_trim_len_le(s);
    lemma_trim_len_le(t);
    lemma_seq_val_trim(s, base);
    lemma_seq_val_trim(t, base);
    assert(bounded(ts, wrap));
    assert(bounded(tt, wrap));
    if ks < kt {
        lemma_seq_val_upper(ts, base, wrap);
        lemma_seq_val_lower(tt, base, wrap);
        vstd::arithmetic::power::lemma_pow_increases(base as nat, ks, (kt - 1) as nat);
    } else if ks > kt {
        lemma_seq_val_upper(tt, base, wrap);
        lemma_seq_val_lower(ts, base, wrap);
        vstd::arithmetic::power::lemma_pow_increases(base as nat, kt, (ks - 1) as nat);
    } else {
        lemma_cmp_msd_value(ts, tt, base, wrap);
    }
}

/// The index one past the most significant nonzero limb.
pub fn trimmed_len<I: Limb>(s: &[I]) -> (k: usize)
    ensures
        k as nat == trim_len_spec(vals(s@)),
{
    let zero = I::limb_zero();
    let mut k = s.len();
    let mut done = false;
    proof {
        lemma_trim_len_le(vals(s@));
    }
    while !done && k > 0
        invariant
            zero.val() == 0,
            k <= s@.len(),
            forall|j: int| k <= j < s@.len() ==> #[trigger] vals(s@)[j] == 0,
            trim_len_spec(vals(s@)) <= k,
            done ==> k >= 1 && vals(s@)[k - 1] != 0,
        decreases k + (if done {
            0int
        } else {
            1int
        }),
    {
        if s[k - 1].limb_eq(zero) {
            proof {
                assert(vals(s@)[k - 1] == s@[k - 1].val());
                assert(vals(s@)[k - 1] == 0);
                lemma_trim_len_aux(vals(s@), k as int);
            }
            k -= 1;
        } else {
            proof {
                assert(vals(s@)[k - 1] == s@[k - 1].val());
            }
            done = true;
        }
    }
    proof {
        lemma_trim_len_fix(vals(s@), k as int);
    }
    k
}

/// If every digit at or above `k` is zero, the trimmed length is at
/// most `k`.
proof fn lemma_trim_len_aux(s: Seq<int>, k: int)
    requires
        1 <= k <= s.len(),
        forall|j: int| k - 1 <= j < s.len() ==> #[trigger] s[j] == 0,
    ensures
        trim_len_spec(s) <= k - 1,
    decreases s.len(),
{
    if s.len() == k {
        assert(s[s.len() - 1] == 0);
        lemma_trim_len_le(s.drop_last());
    } else {
        assert(s[s.len() - 1] == 0);
        assert forall|j: int| k - 1 <= j < s.drop_last().len() implies #[trigger] s.drop_last()[j]
            == 0 by {
            assert(s.drop_last()[j] == s[j]);
        }
        lemma_trim_len_aux(s.drop_last(), k);
    }
}

/// If the digits above `k` are zero and digit `k - 1` is nonzero (or
/// `k` is zero), the trimmed length is exactly `k`.
proof fn lemma_trim_len_fix(s: Seq<int>, k: int)
    requires
        0 <= k <= s.len(),
        forall|j: int| k <= j < s.len() ==> #[trigger] s[j] == 0,
        k == 0 || s[k - 1] != 0,
    ensures
        trim_len_spec(s) == k,
    decreases s.len(),
{
    if s.len() == 0 {
    } else if s.len() == k {
    } else {
        assert(s[s.len() - 1] == 0);
        assert forall|j: int| k <= j < s.drop_last().len() implies #[trigger] s.drop_last()[j]
            == 0 by {
            assert(s.drop_last()[j] == s[j]);
        }
        if k > 0 {
            assert(s.drop_last()[k - 1] == s[k - 1]);
        }
        lemma_trim_len_fix(s.drop_last(), k);
    }
}

/// Magnitude ordering of two limb sequences, most-significant zero
/// limbs ignored.
pub fn digital_cmp<I: Limb>(lhs: &[I], rhs: &[I]) -> (r: Ordering)
    ensures
        r == cmp_spec(vals(lhs@), vals(rhs@)),
{
    let la = trimmed_len(lhs);
    let lb = trimmed_len(rhs);
    proof {
        lemma_trim_len_le(vals(lhs@));
        lemma_trim_len_le(vals(rhs@));
    }
    let ghost ts = vals(lhs@).take(la as int);
    let ghost tt = vals(rhs@).take(lb as int);
    if la < lb {
        Ordering::Less
    } else if la > lb {
        Ordering::Greater
    } else {
        let mut i: usize = la;
        proof {
            assert(ts.take(la as int) =~= ts);
            assert(tt.take(lb as int) =~= tt);
        }
        while i > 0
            invariant
                i <= la,
                la == lb,
                la as nat == trim_len_spec(vals(lhs@)),
                lb as nat == trim_len_spec(vals(rhs@)),
                la <= lhs@.len(),
                lb <= rhs@.len(),
                ts == vals(lhs@).take(la as int),
                tt == vals(rhs@).take(lb as int),
                cmp_msd(ts, tt) == cmp_msd(ts.take(i as int), tt.take(i as int)),
            decreases i,
        {
            i -= 1;
            let a = lhs[i];
            let b = rhs[i];
            proof {
                assert(ts.take(i + 1).last() == vals(lhs@)[i as int]);
                assert(tt.take(i + 1).last() == vals(rhs@)[i as int]);
                assert(ts.take(i + 1).drop_last() =~= ts.take(i as int));
                assert(tt.take(i + 1).drop_last() =~= tt.take(i as int));
                assert(vals(lhs@)[i as int] == a.val());
                assert(vals(rhs@)[i as int] == b.val());
            }
            if b.limb_lt(a) {
                proof {
                    assert(cmp_msd(ts.take(i + 1), tt.take(i + 1)) == Ordering::Greater);
                }
                return Ordering::Greater;
            }
            if a.limb_lt(b) {
                proof {
                    assert(cmp_msd(ts.take(i + 1), tt.take(i + 1)) == Ordering::Less);
                }
                return Ordering::Less;
            }
            proof {
                assert(cmp_msd(ts.take(i + 1), tt.take(i + 1)) == cmp_msd(
                    ts.take(i as int),
                    tt.take(i as int),
                ));
            }
        }
        proof {
            assert(ts.take(0) =~= Seq::<int>::empty());
            assert(tt.take(0) =~= Seq::<int>::empty());
        }
        Ordering::Equal
    }
}

} // verus!

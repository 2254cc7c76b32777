use vstd::prelude::*;

verus! {

/// Three-valued sign tag of a sign-magnitude integer: exactly one of
/// zero, positive or negative.
#[derive(Debug, Default, Clone, Copy, PartialEq, Eq, Structural)]
pub enum Sign {
    #[default]
    Zero,
    Positive,
    Negative,
}

impl Sign {
    /// Sign after negation: positive and negative swap, zero is fixed.
    pub open spec fn negate_spec(self) -> Sign {
        match self {
            Sign::Zero => Sign::Zero,
            Sign::Positive => Sign::Negative,
            Sign::Negative => Sign::Positive,
        }
    }

    /// Sign of a product, by the usual composition table: zero absorbs,
    /// a negative factor flips the other factor's sign.
    pub open spec fn mul_spec(self, rhs: Sign) -> Sign {
        match rhs {
            Sign::Negative => self.negate_spec(),
            Sign::Zero => Sign::Zero,
            Sign::Positive => self,
        }
    }

    /// The integer this sign scales a magnitude by.
    pub open spec fn as_int(self) -> int {
        match self {
            Sign::Zero => 0,
            Sign::Positive => 1,
            Sign::Negative => -1,
        }
    }

    /// Position in the conventional total order Negative < Zero < Positive.
    pub open spec fn rank(self) -> int {
        match self {
            Sign::Negative => 0,
            Sign::Zero => 1,
            Sign::Positive => 2,
        }
    }

    pub fn negated(&self) -> (r: Self)
        ensures
            r == self.negate_spec(),
    {
        match self {
            Sign::Zero => Sign::Zero,
            Sign::Positive => Sign::Negative,
            Sign::Negative => Sign::Positive,
        }
    }

    /// Sign of a product of two signed magnitudes.
    pub fn mul(self, rhs: Self) -> (r: Self)
        ensures
            r == self.mul_spec(rhs),
    {
        match rhs {
            Sign::Negative => self.negated(),
            Sign::Zero => Sign::Zero,
            Sign::Positive => self,
        }
    }

    pub fn is_positive(self) -> (r: bool)
        ensures
            r <==> self == Sign::Positive,
    {
        self == Self::Positive
    }

    pub fn is_negative(self) -> (r: bool)
        ensures
            r <==> self == Sign::Negative,
    {
        self == Self::Negative
    }

    pub fn is_zero(self) -> (r: bool)
        ensures
            r <==> self == Sign::Zero,
    {
        self == Self::Zero
    }
}

impl core::cmp::PartialOrd for Sign {
    /// Conventional total order on signs: Negative < Zero < Positive.
    fn partial_cmp(&self, other: &Self) -> (r: Option<core::cmp::Ordering>) {
        let left: u8 = match self {
            Sign::Negative => 0,
            Sign::Zero => 1,
            Sign::Positive => 2,
        };
        let right: u8 = match other {
            Sign::Negative => 0,
            Sign::Zero => 1,
            Sign::Positive => 2,
        };
        if left < right {
            Some(core::cmp::Ordering::Less)
        } else if left == right {
            Some(core::cmp::Ordering::Equal)
        } else {
            Some(core::cmp::Ordering::Greater)
        }
    }
}

impl vstd::std_specs::cmp::PartialOrdSpecImpl for Sign {
    open spec fn obeys_partial_cmp_spec() -> bool {
        true
    }

    open spec fn partial_cmp_spec(&self, other: &Self) -> Option<core::cmp::Ordering> {
        if self.rank() < other.rank() {
            Some(core::cmp::Ordering::Less)
        } else if self.rank() == other.rank() {
            Some(core::cmp::Ordering::Equal)
        } else {
            Some(core::cmp::Ordering::Greater)
        }
    }
}

} // verus!

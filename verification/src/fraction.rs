use vstd::prelude::*;
use crate::bigint::BigInt;

verus! {

/// A rational number as a pair of arbitrary-precision integers. A
/// placeholder for a rational arithmetic that this design does not yet
/// provide; no operations are defined on it.
pub struct Fraction {
    pub numerator: BigInt,
    pub denominator: BigInt,
}

impl Fraction {
    /// The invariant a rational value will maintain: both parts
    /// well-formed and the denominator nonzero.
    pub open spec fn well_formed(self) -> bool {
        &&& self.numerator.well_formed()
        &&& self.denominator.well_formed()
        &&& self.denominator.value() != 0
    }
}

} // verus!

//! Arbitrary-precision signed integers on little-endian arrays of
//! fixed-width unsigned limbs.
//!
//! The digit-level engine (carry/borrow propagation over a configurable
//! wrap point, schoolbook and Karatsuba multiplication, scalar long
//! division) is generic over the limb width through the [`limb::Limb`]
//! interface; the signed facade [`bigint::BigInt`] composes those
//! primitives with sign-magnitude dispatch rules.

pub mod addition;
pub mod bigint;
pub mod comparison;
pub mod decimal;
pub mod division;
pub mod fixed;
pub mod fraction;
pub mod from_bool;
pub mod laws;
pub mod limb;
pub mod multiplication;
pub mod radix;
pub mod sign;
pub mod subtraction;
pub mod wrap;

pub use bigint::{BigInt, BigIntError};
pub use sign::Sign;

use vstd::prelude::*;

verus! {

/// Describes the wrap point digit arithmetic uses: the limb type's own
/// maximum value, decimal (wrap at nine), or an explicit base.
#[derive(Debug, Default, Clone, Copy)]
pub enum DigitalWrap {
    #[default]
    Max,
    Ten,
    U128(u128),
    U64(u64),
    U32(u32),
    U16(u16),
    U8(u8),
}

/// Whether the wrap point described by `w` exists and fits a limb type
/// whose largest value is `max`.
pub open spec fn wrap_valid(w: DigitalWrap, max: int) -> bool {
    match w {
        DigitalWrap::Max => true,
        DigitalWrap::Ten => 9 <= max,
        DigitalWrap::U128(b) => 1 <= b && b - 1 <= max,
        DigitalWrap::U64(b) => 1 <= b && b - 1 <= max,
        DigitalWrap::U32(b) => 1 <= b && b - 1 <= max,
        DigitalWrap::U16(b) => 1 <= b && b - 1 <= max,
        DigitalWrap::U8(b) => 1 <= b && b - 1 <= max,
    }
}

/// The wrap point itself: the largest digit value, one less than the
/// radix the digits wrap at.
pub open spec fn wrap_point(w: DigitalWrap, max: int) -> int {
    match w {
        DigitalWrap::Max => max,
        DigitalWrap::Ten => 9,
        DigitalWrap::U128(b) => b - 1,
        DigitalWrap::U64(b) => b - 1,
        DigitalWrap::U32(b) => b - 1,
        DigitalWrap::U16(b) => b - 1,
        DigitalWrap::U8(b) => b - 1,
    }
}

} // verus!

//! The interface the digit-level algorithms require from a limb type:
//! an unsigned fixed-width integer, monomorphized per concrete width.

use vstd::prelude::*;
use crate::from_bool::FromBool;
use crate::radix::bounded;
use crate::wrap::{DigitalWrap, wrap_point, wrap_valid};

verus! {

/// An unsigned fixed-width integer usable as one digit of a magnitude.
///
/// `val` is the limb's mathematical value and `max_spec` the width's
/// largest value; the executable methods are the exact-arithmetic
/// operations the carry/borrow loops are written against.
pub trait Limb: FromBool + Copy + Sized {
    spec fn val(self) -> int;

    spec fn max_spec() -> int;

    proof fn val_in_range(self)
        ensures
            0 <= self.val() <= Self::max_spec(),
            Self::max_spec() >= 9,
    ;

    proof fn bool_val_is_bit(init: bool)
        ensures
            Self::bool_val(init).val() == if init {
                1int
            } else {
                0int
            },
    ;

    fn limb_zero() -> (r: Self)
        ensures
            r.val() == 0,
    ;

    fn limb_one() -> (r: Self)
        ensures
            r.val() == 1,
    ;

    fn limb_eq(self, other: Self) -> (r: bool)
        ensures
            r <==> self.val() == other.val(),
    ;

    fn limb_lt(self, other: Self) -> (r: bool)
        ensures
            r <==> self.val() < other.val(),
    ;

    fn limb_add(self, other: Self) -> (r: Self)
        requires
            self.val() + other.val() <= Self::max_spec(),
        ensures
            r.val() == self.val() + other.val(),
    ;

    fn limb_sub(self, other: Self) -> (r: Self)
        requires
            other.val() <= self.val(),
        ensures
            r.val() == self.val() - other.val(),
    ;

    /// The wrap point `w` describes, if it exists and fits this width.
    fn from_wrap(w: DigitalWrap) -> (r: Option<Self>)
        ensures
            r is Some <==> wrap_valid(w, Self::max_spec()),
            r matches Some(p) ==> p.val() == wrap_point(w, Self::max_spec()),
    ;
}

/// The digit values of a limb sequence.
pub open spec fn vals<I: Limb>(s: Seq<I>) -> Seq<int> {
    Seq::new(s.len(), |i: int| s[i].val())
}

/// Every limb sequence is bounded by its width's maximum.
pub proof fn lemma_vals_in_range<I: Limb>(s: Seq<I>)
    ensures
        bounded(vals(s), I::max_spec()),
{
    assert forall|i: int| 0 <= i < vals::<I>(s).len() implies 0 <= #[trigger] vals::<I>(
        s,
    )[i] <= I::max_spec() by {
        s[i].val_in_range();
    }
}

/// Spec shorthand: the wrap point of limb type `I` under descriptor `w`.
pub open spec fn wrap_of<I: Limb>(w: DigitalWrap) -> int {
    wrap_point(w, I::max_spec())
}

/// The radix itself: one more than the wrap point.
pub open spec fn base_of<I: Limb>(w: DigitalWrap) -> int {
    wrap_of::<I>(w) + 1
}

/// Whether descriptor `w` names a wrap point that fits limb type `I`.
pub open spec fn wrap_ok<I: Limb>(w: DigitalWrap) -> bool {
    wrap_valid(w, I::max_spec())
}

/// A fresh vector holding the limbs `src[from..to]`.
pub fn sub_limbs<I: Limb>(src: &[I], from: usize, to: usize) -> (r: Vec<I>)
    requires
        from <= to <= src@.len(),
    ensures
        r@ == src@.subrange(from as int, to as int),
{
    let mut out: Vec<I> = Vec::new();
    let mut i: usize = from;
    while i < to
        invariant
            from <= i <= to <= src@.len(),
            out@ =~= src@.subrange(from as int, i as int),
        decreases to - i,
    {
        out.push(src[i]);
        proof {
            assert(out@ =~= src@.subrange(from as int, i + 1 as int));
        }
        i += 1;
    }
    out
}

/// A fresh vector holding all of `src`.
pub fn copy_limbs<I: Limb>(src: &[I]) -> (r: Vec<I>)
    ensures
        r@ == src@,
{
    let r = sub_limbs(src, 0, src.len());
    proof {
        assert(src@.subrange(0, src@.len() as int) =~= src@);
    }
    r
}

impl Limb for u8 {
    open spec fn val(self) -> int {
        self as int
    }

    open spec fn max_spec() -> int {
        u8::MAX as int
    }

    proof fn val_in_range(self) {
    }

    proof fn bool_val_is_bit(init: bool) {
    }

    fn limb_zero() -> u8 {
        0
    }

    fn limb_one() -> u8 {
        1
    }

    fn limb_eq(self, other: u8) -> bool {
        self == other
    }

    fn limb_lt(self, other: u8) -> bool {
        self < other
    }

    fn limb_add(self, other: u8) -> u8 {
        self + other
    }

    fn limb_sub(self, other: u8) -> u8 {
        self - other
    }

    fn from_wrap(w: DigitalWrap) -> Option<u8> {
        match w {
            DigitalWrap::Max => Some(u8::MAX),
            DigitalWrap::Ten => Some(9),
            DigitalWrap::U128(b) => if 1 <= b && b <= 256 {
                Some((b - 1) as u8)
            } else {
                None
            },
            DigitalWrap::U64(b) => if 1 <= b && b <= 256 {
                Some((b - 1) as u8)
            } else {
                None
            },
            DigitalWrap::U32(b) => if 1 <= b && b <= 256 {
                Some((b - 1) as u8)
            } else {
                None
            },
            DigitalWrap::U16(b) => if 1 <= b && b <= 256 {
                Some((b - 1) as u8)
            } else {
                None
            },
            DigitalWrap::U8(b) => if 1 <= b {
                Some(b - 1)
            } else {
                None
            },
        }
    }
}

impl Limb for u16 {
    open spec fn val(self) -> int {
        self as int
    }

    open spec fn max_spec() -> int {
        u16::MAX as int
    }

    proof fn val_in_range(self) {
    }

    proof fn bool_val_is_bit(init: bool) {
    }

    fn limb_zero() -> u16 {
        0
    }

    fn limb_one() -> u16 {
        1
    }

    fn limb_eq(self, other: u16) -> bool {
        self == other
    }

    fn limb_lt(self, other: u16) -> bool {
        self < other
    }

    fn limb_add(self, other: u16) -> u16 {
        self + other
    }

    fn limb_sub(self, other: u16) -> u16 {
        self - other
    }

    fn from_wrap(w: DigitalWrap) -> Option<u16> {
        match w {
            DigitalWrap::Max => Some(u16::MAX),
            DigitalWrap::Ten => Some(9),
            DigitalWrap::U128(b) => if 1 <= b && b <= 65536 {
                Some((b - 1) as u16)
            } else {
                None
            },
            DigitalWrap::U64(b) => if 1 <= b && b <= 65536 {
                Some((b - 1) as u16)
            } else {
                None
            },
            DigitalWrap::U32(b) => if 1 <= b && b <= 65536 {
                Some((b - 1) as u16)
            } else {
                None
            },
            DigitalWrap::U16(b) => if 1 <= b {
                Some(b - 1)
            } else {
                None
            },
            DigitalWrap::U8(b) => if 1 <= b {
                Some((b - 1) as u16)
            } else {
                None
            },
        }
    }
}

impl Limb for u32 {
    open spec fn val(self) -> int {
        self as int
    }

    open spec fn max_spec() -> int {
        u32::MAX as int
    }

    proof fn val_in_range(self) {
    }

    proof fn bool_val_is_bit(init: bool) {
    }

    fn limb_zero() -> u32 {
        0
    }

    fn limb_one() -> u32 {
        1
    }

    fn limb_eq(self, other: u32) -> bool {
        self == other
    }

    fn limb_lt(self, other: u32) -> bool {
        self < other
    }

    fn limb_add(self, other: u32) -> u32 {
        self + other
    }

    fn limb_sub(self, other: u32) -> u32 {
        self - other
    }

    fn from_wrap(w: DigitalWrap) -> Option<u32> {
        match w {
            DigitalWrap::Max => Some(u32::MAX),
            DigitalWrap::Ten => Some(9),
            DigitalWrap::U128(b) => if 1 <= b && b <= 0x1_0000_0000u128 {
                Some((b - 1) as u32)
            } else {
                None
            },
            DigitalWrap::U64(b) => if 1 <= b && b <= 0x1_0000_0000u64 {
                Some((b - 1) as u32)
            } else {
                None
            },
            DigitalWrap::U32(b) => if 1 <= b {
                Some(b - 1)
            } else {
                None
            },
            DigitalWrap::U16(b) => if 1 <= b {
                Some((b - 1) as u32)
            } else {
                None
            },
            DigitalWrap::U8(b) => if 1 <= b {
                Some((b - 1) as u32)
            } else {
                None
            },
        }
    }
}

impl Limb for u64 {
    open spec fn val(self) -> int {
        self as int
    }

    open spec fn max_spec() -> int {
        u64::MAX as int
    }

    proof fn val_in_range(self) {
    }

    proof fn bool_val_is_bit(init: bool) {
    }

    fn limb_zero() -> u64 {
        0
    }

    fn limb_one() -> u64 {
        1
    }

    fn limb_eq(self, other: u64) -> bool {
        self == other
    }

    fn limb_lt(self, other: u64) -> bool {
        self < other
    }

    fn limb_add(self, other: u64) -> u64 {
        self + other
    }

    fn limb_sub(self, other: u64) -> u64 {
        self - other
    }

    fn from_wrap(w: DigitalWrap) -> Option<u64> {
        match w {
            DigitalWrap::Max => Some(u64::MAX),
            DigitalWrap::Ten => Some(9),
            DigitalWrap::U128(b) => if 1 <= b && b <= 0x1_0000_0000_0000_0000u128 {
                Some((b - 1) as u64)
            } else {
                None
            },
            DigitalWrap::U64(b) => if 1 <= b {
                Some(b - 1)
            } else {
                None
            },
            DigitalWrap::U32(b) => if 1 <= b {
                Some((b - 1) as u64)
            } else {
                None
            },
            DigitalWrap::U16(b) => if 1 <= b {
                Some((b - 1) as u64)
            } else {
                None
            },
            DigitalWrap::U8(b) => if 1 <= b {
                Some((b - 1) as u64)
            } else {
                None
            },
        }
    }
}

} // verus!

use vstd::prelude::*;

verus! {

/// Conversion of a carry/borrow flag into a numeric type: one for a set
/// flag, zero for a clear one.
pub trait FromBool: Sized {
    spec fn bool_val(init: bool) -> Self;

    fn from_bool(init: bool) -> (r: Self)
        ensures
            r == Self::bool_val(init),
    ;
}

impl FromBool for i8 {
    open spec fn bool_val(init: bool) -> i8 {
        if init {
            1
        } else {
            0
        }
    }

    fn from_bool(init: bool) -> i8 {
        if init {
            1
        } else {
            0
        }
    }
}

impl FromBool for u8 {
    open spec fn bool_val(init: bool) -> u8 {
        if init {
            1
        } else {
            0
        }
    }

    fn from_bool(init: bool) -> u8 {
        if init {
            1
        } else {
            0
        }
    }
}

impl FromBool for i16 {
    open spec fn bool_val(init: bool) -> i16 {
        if init {
            1
        } else {
            0
        }
    }

    fn from_bool(init: bool) -> i16 {
        if init {
            1
        } else {
            0
        }
    }
}

impl FromBool for u16 {
    open spec fn bool_val(init: bool) -> u16 {
        if init {
            1
        } else {
            0
        }
    }

    fn from_bool(init: bool) -> u16 {
        if init {
            1
        } else {
            0
        }
    }
}

impl FromBool for i32 {
    open spec fn bool_val(init: bool) -> i32 {
        if init {
            1
        } else {
            0
        }
    }

    fn from_bool(init: bool) -> i32 {
        if init {
            1
        } else {
            0
        }
    }
}

impl FromBool for u32 {
    open spec fn bool_val(init: bool) -> u32 {
        if init {
            1
        } else {
            0
        }
    }

    fn from_bool(init: bool) -> u32 {
        if init {
            1
        } else {
            0
        }
    }
}

impl FromBool for i64 {
    open spec fn bool_val(init: bool) -> i64 {
        if init {
            1
        } else {
            0
        }
    }

    fn from_bool(init: bool) -> i64 {
        if init {
            1
        } else {
            0
        }
    }
}

impl FromBool for u64 {
    open spec fn bool_val(init: bool) -> u64 {
        if init {
            1
        } else {
            0
        }
    }

    fn from_bool(init: bool) -> u64 {
        if init {
            1
        } else {
            0
        }
    }
}

impl FromBool for i128 {
    open spec fn bool_val(init: bool) -> i128 {
        if init {
            1
        } else {
            0
        }
    }

    fn from_bool(init: bool) -> i128 {
        if init {
            1
        } else {
            0
        }
    }
}

impl FromBool for u128 {
    open spec fn bool_val(init: bool) -> u128 {
        if init {
            1
        } else {
            0
        }
    }

    fn from_bool(init: bool) -> u128 {
        if init {
            1
        } else {
            0
        }
    }
}

} // verus!

//! Amplitudes and gains, carried as IEEE 754 binary32 bit patterns.
//!
//! The library never does arithmetic on levels. It compares them, clamps
//! them and passes them on; for that the bit pattern is enough, because the
//! order of two non-negative binary32 numbers is the order of their bits.
//! One half, for example, is `0x3F00_0000`, and one is `0x3F80_0000`.

use vstd::prelude::*;

verus! {

/// A level as its binary32 bit pattern.
pub type Level = u32;

/// The bit pattern of zero.
pub const ZERO: Level = 0;

/// The bit pattern of one.
pub const ONE: Level = 0x3F80_0000;

/// The bit pattern of minus one.
pub const MINUS_ONE: Level = 0xBF80_0000;

/// The sign bit.
pub const SIGN: u32 = 0x8000_0000;

/// The bit pattern of positive infinity; larger magnitudes are not numbers.
pub const INFINITY: u32 = 0x7F80_0000;

/// Whether the sign bit of `x` is set.
pub open spec fn is_negative(x: Level) -> bool {
    x >= SIGN
}

/// The bits of `x` without the sign bit.
pub open spec fn magnitude(x: Level) -> int {
    if x >= SIGN {
        x - SIGN
    } else {
        x as int
    }
}

/// Whether `x` is not a number.
pub open spec fn is_nan(x: Level) -> bool {
    magnitude(x) > INFINITY
}

/// Tells whether a level is not a number.
pub fn is_not_a_number(x: Level) -> (r: bool)
    ensures
        r == is_nan(x),
{
    let mag: u32 = if x >= SIGN {
        x - SIGN
    } else {
        x
    };
    mag > INFINITY
}

/// Whether `x` is a number in the closed interval from zero to one.
pub open spec fn in_unit(x: Level) -> bool {
    magnitude(x) <= ONE && (is_negative(x) ==> magnitude(x) == 0)
}

/// `x` clamped to the interval from zero to one, as the clamp of the
/// standard library does it: what is not a number stays, what lies below
/// zero becomes zero, what lies above one becomes one, the rest stays.
pub open spec fn clamp_unit_spec(x: Level) -> Level {
    if is_nan(x) {
        x
    } else if is_negative(x) && magnitude(x) != 0 {
        ZERO
    } else if !is_negative(x) && magnitude(x) > ONE {
        ONE
    } else {
        x
    }
}

/// Clamps a level to the interval from zero to one.
pub fn clamp_unit(x: Level) -> (r: Level)
    ensures
        r == clamp_unit_spec(x),
        !is_nan(x) ==> in_unit(r),
        in_unit(x) ==> r == x,
{
    let negative: bool = x >= SIGN;
    let mag: u32 = if negative { x - SIGN } else { x };
    if mag > INFINITY {
        x
    } else if negative && mag != 0 {
        ZERO
    } else if !negative && mag > ONE {
        ONE
    } else {
        x
    }
}

/// Whether `x` is a number in the closed interval from minus one to one.
pub open spec fn in_signed_unit(x: Level) -> bool {
    magnitude(x) <= ONE
}

/// `x` clamped to the interval from minus one to one: what is not a number
/// stays, what lies below minus one becomes minus one, what lies above one
/// becomes one, the rest stays.
pub open spec fn clamp_output_spec(x: Level) -> Level {
    if is_nan(x) || magnitude(x) <= ONE {
        x
    } else if is_negative(x) {
        MINUS_ONE
    } else {
        ONE
    }
}

/// Clamps an output level to the interval from minus one to one.
pub fn clamp_output(x: Level) -> (r: Level)
    ensures
        r == clamp_output_spec(x),
        !is_nan(x) ==> in_signed_unit(r),
        in_signed_unit(x) ==> r == x,
{
    let negative: bool = x >= SIGN;
    let mag: u32 = if negative {
        x - SIGN
    } else {
        x
    };
    if mag > INFINITY || mag <= ONE {
        x
    } else if negative {
        MINUS_ONE
    } else {
        ONE
    }
}

} // verus!

//! What rounding to the nearest binary32 number means, in whole numbers of
//! units of `2^-149`.

use crate::nearest::{bit_length, magnitude, nearest_even};
use vstd::arithmetic::power2::pow2;
use vstd::prelude::*;

verus! {

/// How many low binary digits of `n` a binary32 number cannot keep when it
/// stands for `n * 2^e` units: those beyond the 24 digits of a significand,
/// and those below one unit.
pub open spec fn excess(n: nat, e: int) -> nat {
    let over = bit_length(n) - 24;
    let under = -e;
    if over <= 0 && under <= 0 {
        0
    } else if over >= under {
        over as nat
    } else {
        under as nat
    }
}

/// The multiple of the unit nearest to `n * 2^e` units among those that a
/// significand of 24 binary digits can write, ties going to the even
/// significand. No upper limit is applied here.
pub open spec fn rounded_units(n: nat, e: int) -> nat {
    let drop = excess(n, e);
    nearest_even(n, pow2(drop)) * pow2((drop + e) as nat)
}

/// The first magnitude, in units, that is too large to be finite: `2^128`.
pub open spec fn overflow_units() -> nat {
    pow2(277)
}

/// What a binary32 number stands for.
pub enum Extended {
    /// Not a number.
    Nan,
    /// Plus or minus infinity.
    Infinite { negative: bool },
    /// A finite number, counted in units of `2^-149`. Both zeros are 0.
    Finite { units: int },
}

/// A magnitude with its sign.
pub open spec fn signed(negative: bool, size: nat) -> int {
    if negative {
        -size
    } else {
        size as int
    }
}

/// What plus or minus `units` units is as a binary32 number when `units`
/// needs no rounding: infinite from `2^128`.
pub open spec fn limited(negative: bool, units: nat) -> Extended {
    if units >= overflow_units() {
        Extended::Infinite { negative }
    } else if negative {
        Extended::Finite { units: -units }
    } else {
        Extended::Finite { units: units as int }
    }
}

/// The binary32 number nearest to plus or minus `n * 2^e` units: infinite
/// where the rounded magnitude reaches `2^128`.
pub open spec fn rounded(negative: bool, n: nat, e: int) -> Extended {
    let units = rounded_units(n, e);
    if units >= overflow_units() {
        Extended::Infinite { negative }
    } else if negative {
        Extended::Finite { units: -units }
    } else {
        Extended::Finite { units: units as int }
    }
}

impl Extended {
    /// A whole number of pixels as a binary32 number.
    pub open spec fn of_u32(v: u32) -> Extended {
        rounded(false, v as nat, 149)
    }

    /// The same number with the other sign.
    pub open spec fn negated(self) -> Extended {
        match self {
            Extended::Nan => Extended::Nan,
            Extended::Infinite { negative } => Extended::Infinite { negative: !negative },
            Extended::Finite { units } => Extended::Finite { units: -units },
        }
    }

    /// The rounded product. Zero times infinity is not a number.
    pub open spec fn times(self, other: Extended) -> Extended {
        match (self, other) {
            (Extended::Nan, _) => Extended::Nan,
            (_, Extended::Nan) => Extended::Nan,
            (Extended::Finite { units: a }, Extended::Finite { units: b }) => rounded(
                (a < 0) != (b < 0),
                magnitude(a) * magnitude(b),
                -149,
            ),
            (Extended::Infinite { negative }, Extended::Finite { units }) => if units == 0 {
                Extended::Nan
            } else {
                Extended::Infinite { negative: negative != (units < 0) }
            },
            (Extended::Finite { units }, Extended::Infinite { negative }) => if units == 0 {
                Extended::Nan
            } else {
                Extended::Infinite { negative: negative != (units < 0) }
            },
            (Extended::Infinite { negative: a }, Extended::Infinite { negative: b }) => {
                Extended::Infinite { negative: a != b }
            },
        }
    }

    /// The rounded sum. Infinity plus the opposite infinity is not a number.
    pub open spec fn plus(self, other: Extended) -> Extended {
        match (self, other) {
            (Extended::Nan, _) => Extended::Nan,
            (_, Extended::Nan) => Extended::Nan,
            (Extended::Finite { units: a }, Extended::Finite { units: b }) => rounded(
                a + b < 0,
                magnitude(a + b),
                0,
            ),
            (Extended::Infinite { negative }, Extended::Finite { .. }) => Extended::Infinite {
                negative,
            },
            (Extended::Finite { .. }, Extended::Infinite { negative }) => Extended::Infinite {
                negative,
            },
            (Extended::Infinite { negative: a }, Extended::Infinite { negative: b }) => if a
                == b {
                Extended::Infinite { negative: a }
            } else {
                Extended::Nan
            },
        }
    }

    /// The rounded difference.
    pub open spec fn minus(self, other: Extended) -> Extended {
        self.plus(other.negated())
    }

    /// The rounded half.
    pub open spec fn halved(self) -> Extended {
        match self {
            Extended::Nan => Extended::Nan,
            Extended::Infinite { negative } => Extended::Infinite { negative },
            Extended::Finite { units } => rounded(units < 0, magnitude(units), -1),
        }
    }

    /// The number without its fraction, as an unsigned 32-bit number: 0 for
    /// what is not a number and for everything below 1, `u32::MAX` for
    /// everything from `2^32`.
    pub open spec fn truncated(self) -> u32 {
        match self {
            Extended::Nan => 0,
            Extended::Infinite { negative } => if negative {
                0
            } else {
                u32::MAX
            },
            Extended::Finite { units } => whole_of(units),
        }
    }
}

/// The whole part of a number of units, as an unsigned 32-bit number: 0 for
/// everything below 1, `u32::MAX` for everything from `2^32`.
pub open spec fn whole_of(units: int) -> u32 {
    if units <= 0 {
        0
    } else if units / (pow2(149) as int) > u32::MAX {
        u32::MAX
    } else {
        (units / (pow2(149) as int)) as u32
    }
}

} // verus!

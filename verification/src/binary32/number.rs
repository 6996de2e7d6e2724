//! The arithmetic itself, on numbers taken apart into sign, significand and
//! exponent.

use crate::binary32::model::{
    excess, limited, rounded, rounded_units, signed, whole_of, Extended,
};
use crate::binary32::rounding::{
    lemma_absorbed, lemma_representable, lemma_rounded_units_scales, lemma_rounded_zero,
    lemma_sum_of_multiples,
};
use crate::binary32::Binary32;
use crate::nearest::{
    count_bits, lemma_bit_length_bounds, lemma_nearest_even, lemma_pow2_increases,
    lemma_pow2_values, magnitude, power_of_two,
};
use vstd::arithmetic::div_mod::{
    lemma_div_multiples_vanish, lemma_div_multiples_vanish_quotient, lemma_fundamental_div_mod,
};
use vstd::arithmetic::mul::lemma_mul_is_commutative;
use vstd::arithmetic::power2::{lemma2_to64, lemma_pow2_adds, lemma_pow2_pos, lemma_pow2_unfold, pow2};
use vstd::prelude::*;

verus! {

/// A binary32 number taken apart: a finite one is `significand * 2^exponent`
/// units with the given sign.
#[derive(Clone, Copy)]
pub enum Number {
    Nan,
    Infinite { negative: bool },
    Finite { negative: bool, significand: u32, exponent: u32 },
}

impl Number {
    /// Whether a finite number's parts are written as binary32 writes
    /// them: a significand of at most 24 binary digits, of exactly 24 unless
    /// the exponent is 0, and an exponent that keeps the magnitude below
    /// `2^128`.
    pub open spec fn is_valid(self) -> bool {
        match self {
            Number::Finite { significand, exponent, .. } => significand < 0x100_0000 && exponent
                <= 253 && (significand >= 0x80_0000 || exponent == 0),
            _ => true,
        }
    }

    /// What the number stands for.
    pub open spec fn value(self) -> Extended {
        match self {
            Number::Nan => Extended::Nan,
            Number::Infinite { negative } => Extended::Infinite { negative },
            Number::Finite { negative, significand, exponent } => if negative {
                Extended::Finite { units: -(significand * pow2(exponent as nat)) }
            } else {
                Extended::Finite { units: significand * pow2(exponent as nat) }
            },
        }
    }
}

/// The sign and the magnitude of a finite number's units.
pub proof fn lemma_finite_units(negative: bool, significand: u32, exponent: u32)
    ensures
        (Number::Finite { negative, significand, exponent }).value() is Finite,
        magnitude((Number::Finite { negative, significand, exponent }).value()->units)
            == significand * pow2(exponent as nat),
        ((Number::Finite { negative, significand, exponent }).value()->units < 0) == (negative
            && significand > 0),
        ((Number::Finite { negative, significand, exponent }).value()->units == 0) == (
        significand == 0),
{
    lemma_pow2_pos(exponent as nat);
    let size: int = significand * pow2(exponent as nat);
    assert(0 <= size && (size == 0 <==> significand == 0)) by (nonlinear_arith)
        requires
            size == significand * pow2(exponent as nat),
            0 <= significand,
            0 < pow2(exponent as nat),
    ;
}

/// Puts a magnitude `q * 2^exp` units that needs no rounding into parts.
fn pack(negative: bool, q: u128, exp: i32) -> (out: Number)
    requires
        q <= 0x100_0000,
        0 <= exp <= 2000,
    ensures
        out.is_valid(),
        out.value() == limited(negative, q as nat * pow2(exp as nat)),
{
    let ghost units = q as nat * pow2(exp as nat);
    proof {
        lemma_pow2_values();
        lemma_pow2_pos(277);
    }
    if q == 0 {
        proof {
            lemma2_to64();
        }
        return Number::Finite { negative, significand: 0, exponent: 0 };
    }
    let mut q = q;
    let mut exp = exp;
    if q == 0x100_0000 {
        proof {
            lemma_pow2_unfold((exp + 1) as nat);
        }
        q = 0x80_0000;
        exp = exp + 1;
    }
    while q < 0x80_0000 && exp > 0
        invariant
            0 < q < 0x100_0000,
            0 <= exp <= 2001,
            q as nat * pow2(exp as nat) == units,
        decreases exp,
    {
        proof {
            lemma_pow2_unfold(exp as nat);
            assert((q * 2) * pow2((exp - 1) as nat) == q * (2 * pow2((exp - 1) as nat)))
                by (nonlinear_arith);
        }
        q = q * 2;
        exp = exp - 1;
    }
    if exp >= 254 {
        proof {
            lemma_pow2_adds(23, 254);
            lemma_pow2_increases(254, exp as nat);
            assert(q as nat * pow2(exp as nat) >= 0x80_0000 * pow2(254)) by (nonlinear_arith)
                requires
                    q >= 0x80_0000,
                    pow2(exp as nat) >= pow2(254),
            ;
        }
        Number::Infinite { negative }
    } else {
        proof {
            lemma_pow2_adds(24, 253);
            lemma_pow2_increases(exp as nat, 253);
            lemma_pow2_pos(exp as nat);
            assert(q as nat * pow2(exp as nat) < 0x100_0000 * pow2(253)) by (nonlinear_arith)
                requires
                    q < 0x100_0000,
                    0 < pow2(exp as nat) <= pow2(253),
            ;
        }
        Number::Finite { negative, significand: q as u32, exponent: exp as u32 }
    }
}

/// Rounds `n * 2^e` units to what a significand of 24 binary digits can
/// write, and gives the result as a significand and an exponent.
fn round_significand(n: u128, e: i32) -> (out: (u128, i32))
    requires
        n < pow2(126),
        -1000 <= e <= 1000,
    ensures
        out.0 <= 0x100_0000,
        0 <= out.1 <= 2000,
        out.0 as nat * pow2(out.1 as nat) == rounded_units(n as nat, e as int),
{
    let len = count_bits(n);
    let over: i32 = len as i32 - 24;
    let under: i32 = -e;
    let drop: i32 = if over <= 0 && under <= 0 {
        0
    } else if over >= under {
        over
    } else {
        under
    };
    assert(drop == excess(n as nat, e as int));
    proof {
        lemma_pow2_values();
        lemma2_to64();
    }
    if drop == 0 {
        proof {
            if n > 0 {
                lemma_bit_length_bounds(n as nat);
                lemma_pow2_increases(len as nat, 24);
            }
            lemma_nearest_even(n as nat, 1, n as nat, 0);
        }
        (n, e)
    } else if drop > 127 {
        proof {
            lemma_pow2_increases(127, drop as nat);
            lemma_nearest_even(n as nat, pow2(drop as nat), 0, n as nat);
        }
        (0, 0)
    } else {
        let p = power_of_two(drop as u32);
        proof {
            lemma_pow2_pos(drop as nat);
        }
        let q = n / p;
        let r = n % p;
        proof {
            lemma_pow2_pos(drop as nat);
            lemma_fundamental_div_mod(n as int, p as int);
            lemma_mul_is_commutative(p as int, q as int);
            lemma_nearest_even(n as nat, p as nat, q as nat, r as nat);
            lemma_pow2_unfold(drop as nat);
            if n > 0 {
                lemma_bit_length_bounds(n as nat);
                lemma_pow2_increases(len as nat, (24 + drop) as nat);
            }
            lemma_pow2_adds(24, drop as nat);
            assert(q < 0x100_0000) by (nonlinear_arith)
                requires
                    n == q * p + r,
                    n < 0x100_0000 * p,
                    p > 0,
            ;
        }
        let half = p / 2;
        let up = r > half || (r == half && q % 2 == 1);
        if up {
            (q + 1, drop + e)
        } else {
            (q, drop + e)
        }
    }
}

/// The binary32 number nearest to plus or minus `n * 2^e` units.
fn round_pack(negative: bool, n: u128, e: i32) -> (out: Number)
    requires
        n < pow2(126),
        -1000 <= e <= 1000,
    ensures
        out.is_valid(),
        out.value() == rounded(negative, n as nat, e as int),
{
    let (q, exp) = round_significand(n, e);
    pack(negative, q, exp)
}

/// Takes a bit pattern apart.
pub(crate) fn decode(x: Binary32) -> (out: Number)
    ensures
        out.is_valid(),
        out.value() == x.value(),
{
    let negative = x.bits >= 0x8000_0000;
    let field: u32 = (x.bits % 0x8000_0000) / 0x80_0000;
    let fraction: u32 = x.bits % 0x80_0000;
    if field == 255 {
        if fraction == 0 {
            Number::Infinite { negative }
        } else {
            Number::Nan
        }
    } else if field == 0 {
        Number::Finite { negative, significand: fraction, exponent: 0 }
    } else {
        Number::Finite { negative, significand: 0x80_0000 + fraction, exponent: field - 1 }
    }
}

/// A whole number of pixels as a binary32 number.
pub(crate) fn from_u32(v: u32) -> (out: Number)
    ensures
        out.is_valid(),
        out.value() == Extended::of_u32(v),
{
    proof {
        lemma_pow2_values();
    }
    round_pack(false, v as u128, 149)
}

/// The whole part of `significand * 2^exponent` units, at most `u32::MAX`.
fn whole_part(significand: u32, exponent: u32) -> (out: u32)
    requires
        0 < significand < 0x100_0000,
        exponent <= 253,
    ensures
        out == whole_of(significand * pow2(exponent as nat)),
{
    let ghost units: int = significand * pow2(exponent as nat);
    let ghost whole: int = units / (pow2(149) as int);
    proof {
        lemma_pow2_values();
        lemma_pow2_pos(exponent as nat);
        lemma_pow2_pos(149);
        assert(0 < significand * pow2(exponent as nat)) by (nonlinear_arith)
            requires
                0 < significand,
                0 < pow2(exponent as nat),
        ;
    }
    if exponent >= 149 {
        let k: u32 = exponent - 149;
        proof {
            lemma_pow2_adds(149, k as nat);
            lemma_pow2_pos(k as nat);
            assert(units == (pow2(149) as int) * (significand * pow2(k as nat))) by (nonlinear_arith)
                requires
                    units == significand * pow2(exponent as nat),
                    pow2(exponent as nat) == pow2(149) * pow2(k as nat),
            ;
            lemma_div_multiples_vanish(significand * pow2(k as nat), pow2(149) as int);
            assert(whole == significand * pow2(k as nat));
        }
        if k >= 32 {
            proof {
                lemma_pow2_increases(32, k as nat);
                assert(significand * pow2(k as nat) >= pow2(32)) by (nonlinear_arith)
                    requires
                        significand >= 1,
                        pow2(k as nat) >= pow2(32),
                ;
            }
            u32::MAX
        } else {
            proof {
                lemma_pow2_increases(k as nat, 32);
            }
            let p: u64 = power_of_two(k) as u64;
            assert(significand * p < 0x100_0000 * 0x1_0000_0000) by (nonlinear_arith)
                requires
                    significand < 0x100_0000,
                    p <= 0x1_0000_0000,
            ;
            let v: u64 = significand as u64 * p;
            assert(v == whole);
            if v > u32::MAX as u64 {
                u32::MAX
            } else {
                v as u32
            }
        }
    } else {
        let k: u32 = 149 - exponent;
        proof {
            lemma_pow2_adds(exponent as nat, k as nat);
            lemma_pow2_pos(k as nat);
            lemma_div_multiples_vanish_quotient(
                pow2(exponent as nat) as int,
                significand as int,
                pow2(k as nat) as int,
            );
            lemma_mul_is_commutative(significand as int, pow2(exponent as nat) as int);
            assert(whole == (significand as int) / (pow2(k as nat) as int));
        }
        if k >= 24 {
            proof {
                lemma_pow2_increases(24, k as nat);
                lemma_nearest_even(significand as nat, pow2(k as nat), 0, significand as nat);
                assert(whole == 0);
            }
            0
        } else {
            proof {
                lemma_pow2_increases(k as nat, 24);
            }
            let p: u32 = power_of_two(k) as u32;
            let v: u32 = significand / p;
            assert(v == whole);
            v
        }
    }
}

/// Drops the fraction of a number and fits what is left into 32 bits.
pub(crate) fn truncate(a: Number) -> (out: u32)
    requires
        a.is_valid(),
    ensures
        out == a.value().truncated(),
{
    match a {
        Number::Nan => {
            assert(a.value() == Extended::Nan);
            0
        },
        Number::Infinite { negative } => {
            assert(a.value() == Extended::Infinite { negative });
            if negative {
                0
            } else {
                u32::MAX
            }
        },
        Number::Finite { negative, significand, exponent } => {
            let ghost size: int = significand * pow2(exponent as nat);
            proof {
                lemma_pow2_pos(exponent as nat);
                assert(0 <= size) by (nonlinear_arith)
                    requires
                        size == significand * pow2(exponent as nat),
                        0 <= significand,
                        0 < pow2(exponent as nat),
                ;
                if significand == 0 {
                    assert(size == 0) by (nonlinear_arith)
                        requires
                            size == significand * pow2(exponent as nat),
                            significand == 0,
                    ;
                }
            }
            if negative {
                assert(a.value() == Extended::Finite { units: -size });
                0
            } else if significand == 0 {
                assert(a.value() == Extended::Finite { units: size });
                0
            } else {
                assert(a.value() == Extended::Finite { units: size });
                whole_part(significand, exponent)
            }
        },
    }
}

/// The same number with the other sign.
pub(crate) fn negate(a: Number) -> (out: Number)
    requires
        a.is_valid(),
    ensures
        out.is_valid(),
        out.value() == a.value().negated(),
{
    match a {
        Number::Nan => Number::Nan,
        Number::Infinite { negative } => Number::Infinite { negative: !negative },
        Number::Finite { negative, significand, exponent } => {
            proof {
                lemma_finite_units(negative, significand, exponent);
                lemma_finite_units(!negative, significand, exponent);
            }
            Number::Finite { negative: !negative, significand, exponent }
        },
    }
}

/// The rounded product of two numbers.
pub(crate) fn times(a: Number, b: Number) -> (out: Number)
    requires
        a.is_valid(),
        b.is_valid(),
    ensures
        out.is_valid(),
        out.value() == a.value().times(b.value()),
{
    match (a, b) {
        (Number::Nan, _) => Number::Nan,
        (_, Number::Nan) => Number::Nan,
        (
            Number::Finite { negative: na, significand: ma, exponent: ea },
            Number::Finite { negative: nb, significand: mb, exponent: eb },
        ) => {
            proof {
                lemma_finite_units(na, ma, ea);
                lemma_finite_units(nb, mb, eb);
                lemma_pow2_values();
                lemma2_to64();
            }
            if ma == 0 || mb == 0 {
                proof {
                    assert(magnitude(a.value()->units) * magnitude(b.value()->units) == 0)
                        by (nonlinear_arith)
                        requires
                            magnitude(a.value()->units) == 0 || magnitude(b.value()->units) == 0,
                    ;
                    lemma_rounded_zero((a.value()->units < 0) != (b.value()->units < 0), -149);
                }
                Number::Finite { negative: false, significand: 0, exponent: 0 }
            } else {
                assert(ma * mb < 0x100_0000 * 0x100_0000) by (nonlinear_arith)
                    requires
                        ma < 0x100_0000,
                        mb < 0x100_0000,
                ;
                let n: u128 = ma as u128 * mb as u128;
                let e: i32 = ea as i32 + eb as i32 - 149;
                proof {
                    lemma_pow2_adds(ea as nat, eb as nat);
                    assert((ma * pow2(ea as nat)) * (mb * pow2(eb as nat)) == (ma * mb) * pow2(
                        (ea + eb) as nat,
                    )) by (nonlinear_arith)
                        requires
                            pow2((ea + eb) as nat) == pow2(ea as nat) * pow2(eb as nat),
                    ;
                    lemma_rounded_units_scales(n as nat, (ea + eb) as nat, e as int);
                    lemma_pow2_increases(48, 126);
                }
                round_pack(na != nb, n, e)
            }
        },
        (Number::Infinite { negative: na }, Number::Finite { negative: nb, significand, exponent }) => {
            proof {
                lemma_finite_units(nb, significand, exponent);
            }
            if significand == 0 {
                Number::Nan
            } else {
                Number::Infinite { negative: na != nb }
            }
        },
        (Number::Finite { negative: na, significand, exponent }, Number::Infinite { negative: nb }) => {
            proof {
                lemma_finite_units(na, significand, exponent);
            }
            if significand == 0 {
                Number::Nan
            } else {
                Number::Infinite { negative: nb != na }
            }
        },
        (Number::Infinite { negative: na }, Number::Infinite { negative: nb }) => {
            Number::Infinite { negative: na != nb }
        },
    }
}

/// The rounded half of a number.
pub(crate) fn halve(a: Number) -> (out: Number)
    requires
        a.is_valid(),
    ensures
        out.is_valid(),
        out.value() == a.value().halved(),
{
    match a {
        Number::Nan => {
            assert(a.value() == Extended::Nan);
            Number::Nan
        },
        Number::Infinite { negative } => {
            assert(a.value() == Extended::Infinite { negative });
            Number::Infinite { negative }
        },
        Number::Finite { negative, significand, exponent } => {
            let ghost units = a.value()->units;
            proof {
                lemma_finite_units(negative, significand, exponent);
                lemma_pow2_values();
                lemma2_to64();
                lemma_pow2_increases(24, 126);
                assert(a.value().halved() == rounded(units < 0, magnitude(units), -1));
            }
            if significand == 0 {
                proof {
                    lemma_rounded_zero(false, -1);
                }
                Number::Finite { negative: false, significand: 0, exponent: 0 }
            } else {
                proof {
                    lemma_rounded_units_scales(significand as nat, exponent as nat, exponent - 1);
                    assert(rounded_units(magnitude(units), -1) == rounded_units(
                        significand as nat,
                        exponent - 1,
                    ));
                }
                round_pack(negative, significand as u128, exponent as i32 - 1)
            }
        },
    }
}

/// The rounded sum of two finite numbers given by their parts.
pub open spec fn sum_of(na: bool, ma: nat, ea: nat, nb: bool, mb: nat, eb: nat) -> Extended {
    let s = signed(na, ma * pow2(ea)) + signed(nb, mb * pow2(eb));
    rounded(s < 0, magnitude(s), 0)
}

/// The rounded sum of two finite numbers, the first with the larger
/// exponent.
fn add_ordered(na: bool, ma: u32, ea: u32, nb: bool, mb: u32, eb: u32) -> (out: Number)
    requires
        (Number::Finite { negative: na, significand: ma, exponent: ea }).is_valid(),
        (Number::Finite { negative: nb, significand: mb, exponent: eb }).is_valid(),
        ea >= eb,
    ensures
        out.is_valid(),
        out.value() == sum_of(na, ma as nat, ea as nat, nb, mb as nat, eb as nat),
{
    let ghost ua = signed(na, ma as nat * pow2(ea as nat));
    let ghost ub = signed(nb, mb as nat * pow2(eb as nat));
    let ghost s = ua + ub;
    proof {
        lemma_pow2_values();
        lemma2_to64();
        lemma_pow2_pos(ea as nat);
        lemma_pow2_pos(eb as nat);
        lemma_representable(s < 0, ma as nat, ea as nat);
        lemma_representable(s < 0, mb as nat, eb as nat);
    }
    if mb == 0 {
        proof {
            assert(mb as nat * pow2(eb as nat) == 0) by (nonlinear_arith)
                requires
                    mb == 0,
            ;
            assert(magnitude(s) == ma as nat * pow2(ea as nat));
        }
        return Number::Finite { negative: na, significand: ma, exponent: ea };
    }
    if ma == 0 {
        proof {
            assert(ma as nat * pow2(ea as nat) == 0) by (nonlinear_arith)
                requires
                    ma == 0,
            ;
            assert(magnitude(s) == mb as nat * pow2(eb as nat));
        }
        return Number::Finite { negative: nb, significand: mb, exponent: eb };
    }
    let d: u32 = ea - eb;
    let ghost big: nat = ma as nat * pow2(d as nat);
    let ghost unit: nat = pow2(eb as nat);
    proof {
        lemma_pow2_adds(d as nat, eb as nat);
        assert(big * unit == ma as nat * pow2(ea as nat)) by (nonlinear_arith)
            requires
                big == ma as nat * pow2(d as nat),
                pow2(ea as nat) == pow2(d as nat) * unit,
        ;
        lemma_sum_of_multiples(na, big, nb, mb as nat, unit);
    }
    if d > 100 {
        proof {
            lemma_absorbed(ma as nat, d as nat, mb as nat, eb as nat, na != nb);
            let n: nat = if na != nb {
                (big - mb) as nat
            } else {
                (big + mb) as nat
            };
            assert(magnitude(signed(na, big) + signed(nb, mb as nat)) == n);
            assert(magnitude(s) == n * unit);
            lemma_rounded_units_scales(n, eb as nat, eb as int);
            assert(rounded_units(magnitude(s), 0) == ma as nat * pow2(ea as nat));
            assert((s < 0) == na);
        }
        Number::Finite { negative: na, significand: ma, exponent: ea }
    } else {
        let p = power_of_two(d);
        proof {
            lemma_pow2_pos(d as nat);
            lemma_pow2_increases(d as nat, 100);
            lemma_pow2_adds(24, 100);
            lemma_pow2_unfold(125);
            lemma_pow2_unfold(126);
            assert(ma * p < 0x100_0000 * pow2(100)) by (nonlinear_arith)
                requires
                    ma < 0x100_0000,
                    0 < p <= pow2(100),
            ;
        }
        let shifted: u128 = ma as u128 * p;
        let small: u128 = mb as u128;
        let (negative, n) = if na == nb {
            (na, shifted + small)
        } else if shifted >= small {
            (na, shifted - small)
        } else {
            (nb, small - shifted)
        };
        proof {
            assert(magnitude(signed(na, big) + signed(nb, mb as nat)) == n);
            assert(magnitude(s) == n as nat * unit);
            lemma_rounded_units_scales(n as nat, eb as nat, eb as int);
            assert(rounded_units(magnitude(s), 0) == rounded_units(n as nat, eb as int));
            if n == 0 {
                lemma_rounded_zero(negative, eb as int);
                lemma_rounded_zero(s < 0, 0);
                assert(magnitude(s) == 0) by (nonlinear_arith)
                    requires
                        magnitude(s) == n as nat * unit,
                        n == 0,
                ;
            } else {
                assert((s < 0) == negative);
            }
        }
        round_pack(negative, n, eb as i32)
    }
}

/// The rounded sum of two numbers.
pub(crate) fn plus(a: Number, b: Number) -> (out: Number)
    requires
        a.is_valid(),
        b.is_valid(),
    ensures
        out.is_valid(),
        out.value() == a.value().plus(b.value()),
{
    match (a, b) {
        (Number::Nan, _) => Number::Nan,
        (_, Number::Nan) => Number::Nan,
        (
            Number::Finite { negative: na, significand: ma, exponent: ea },
            Number::Finite { negative: nb, significand: mb, exponent: eb },
        ) => {
            assert(a.value() == Extended::Finite {
                units: signed(na, ma as nat * pow2(ea as nat)),
            });
            assert(b.value() == Extended::Finite {
                units: signed(nb, mb as nat * pow2(eb as nat)),
            });
            if ea >= eb {
                add_ordered(na, ma, ea, nb, mb, eb)
            } else {
                add_ordered(nb, mb, eb, na, ma, ea)
            }
        },
        (Number::Infinite { negative }, Number::Finite { .. }) => Number::Infinite { negative },
        (Number::Finite { .. }, Number::Infinite { negative }) => Number::Infinite { negative },
        (Number::Infinite { negative: na }, Number::Infinite { negative: nb }) => {
            if na == nb {
                Number::Infinite { negative: na }
            } else {
                Number::Nan
            }
        },
    }
}

} // verus!

//! Single-precision binary numbers (IEEE 754 binary32), held by their bit
//! patterns, with the arithmetic that scaling a box needs: products, sums,
//! differences and halves, each rounded to the nearest number and, on a tie,
//! to the one with an even significand, and the conversion to a whole number
//! that drops the fraction.
//!
//! Every finite binary32 number is a whole multiple of `2^-149`, the
//! smallest positive one. The contracts count in that unit, so they are
//! statements about integers.

pub mod model;
pub mod number;
pub mod rounding;

use crate::binary32::model::{rounded_units, Extended};
use crate::nearest::{lemma_pow2_values, magnitude};
use crate::binary32::number::{decode, from_u32, halve, negate, plus, times, truncate};
use crate::binary32::rounding::{
    lemma_representable, lemma_rounded_units_scales, lemma_rounded_zero,
};
use vstd::arithmetic::div_mod::lemma_div_multiples_vanish;
use vstd::arithmetic::mul::lemma_mul_is_commutative;
use vstd::arithmetic::power2::{lemma2_to64, lemma_pow2_adds, lemma_pow2_pos, pow2};
use vstd::prelude::*;

verus! {

/// A binary32 number by its bit pattern: from the top, one sign bit, eight
/// exponent bits and 23 fraction bits.
#[derive(Clone, Copy, Debug, PartialEq, Eq, Structural)]
pub struct Binary32 {
    pub bits: u32,
}

impl Binary32 {
    /// Whether the sign bit is set.
    pub open spec fn sign(self) -> bool {
        self.bits >= 0x8000_0000
    }

    /// The eight exponent bits.
    pub open spec fn exponent_field(self) -> nat {
        ((self.bits % 0x8000_0000) / 0x80_0000) as nat
    }

    /// The 23 fraction bits.
    pub open spec fn fraction_field(self) -> nat {
        (self.bits % 0x80_0000) as nat
    }

    /// What the number stands for. An exponent field of all ones marks
    /// infinity (fraction 0) and what is not a number; one of all zeros has
    /// the fraction count units; any other exponent field `x` puts a leading
    /// one before the fraction and counts `2^(x-1)` units for each.
    pub open spec fn value(self) -> Extended {
        let x = self.exponent_field();
        let f = self.fraction_field();
        if x == 255 {
            if f == 0 {
                Extended::Infinite { negative: self.sign() }
            } else {
                Extended::Nan
            }
        } else {
            let significand = if x == 0 {
                f
            } else {
                0x80_0000 + f
            };
            let size = significand * pow2(if x == 0 {
                0
            } else {
                (x - 1) as nat
            });
            if self.sign() {
                Extended::Finite { units: -size }
            } else {
                Extended::Finite { units: size as int }
            }
        }
    }
}

impl Binary32 {
    /// The pixel at a fraction of a dimension: the rounded product, without
    /// its fraction.
    pub open spec fn spec_scale(self, dimension: u32) -> u32 {
        self.value().times(Extended::of_u32(dimension)).truncated()
    }

    /// The pixels at which an extent around a centre begins and ends, both
    /// given as fractions of a dimension: centre and extent are scaled and
    /// rounded, the extent is halved, and the rounded difference and the
    /// rounded sum each lose their fraction on their own.
    pub open spec fn spec_span(self, extent: Binary32, dimension: u32) -> (u32, u32) {
        let size = Extended::of_u32(dimension);
        let centre = self.value().times(size);
        let half = extent.value().times(size).halved();
        (centre.minus(half).truncated(), centre.plus(half).truncated())
    }

    /// The pixel at a fraction of a dimension.
    #[verifier::when_used_as_spec(spec_scale)]
    pub fn scale(self, dimension: u32) -> (out: u32)
        ensures
            out == self.spec_scale(dimension),
    {
        truncate(times(decode(self), from_u32(dimension)))
    }

    /// The pixels at which an extent around a centre begins and ends.
    #[verifier::when_used_as_spec(spec_span)]
    pub fn span(self, extent: Binary32, dimension: u32) -> (out: (u32, u32))
        ensures
            out == self.spec_span(extent, dimension),
    {
        let size = from_u32(dimension);
        let centre = times(decode(self), size);
        let half = halve(times(decode(extent), size));
        (truncate(plus(centre, negate(half))), truncate(plus(centre, half)))
    }
}

/// Zero of any dimension is pixel 0.
pub proof fn law_scale_of_zero(dimension: u32)
    ensures
        (Binary32 { bits: 0 }).scale(dimension) == 0,
        (Binary32 { bits: 0x8000_0000 }).scale(dimension) == 0,
{
    lemma2_to64();
    let size = Extended::of_u32(dimension);
    let zero = Binary32 { bits: 0 };
    let minus_zero = Binary32 { bits: 0x8000_0000 };
    assert(zero.exponent_field() == 0 && zero.fraction_field() == 0);
    assert(minus_zero.exponent_field() == 0 && minus_zero.fraction_field() == 0);
    assert(zero.value() == Extended::Finite { units: 0 });
    assert(minus_zero.value() == Extended::Finite { units: 0 });
    match size {
        Extended::Finite { units } => {
            assert(magnitude(0) * magnitude(units) == 0) by (nonlinear_arith);
            lemma_rounded_zero((0int < 0) != (units < 0), -149);
        },
        _ => {},
    }
}

/// The whole of a dimension of at most 24 binary digits is that many
/// pixels: one times the dimension needs no rounding.
pub proof fn law_scale_of_one(dimension: u32)
    requires
        dimension < 0x100_0000,
    ensures
        (Binary32 { bits: 0x3f80_0000 }).scale(dimension) == dimension,
{
    lemma_pow2_values();
    lemma2_to64();
    let one = Binary32 { bits: 0x3f80_0000 };
    assert(one.exponent_field() == 127 && one.fraction_field() == 0);
    lemma_pow2_adds(23, 126);
    assert(one.value() == Extended::Finite { units: pow2(149) as int });
    let unit = pow2(149);
    lemma_pow2_pos(149);
    // The dimension as a number: `dimension * 2^149` units.
    lemma_representable(false, dimension as nat, 149);
    lemma_rounded_units_scales(dimension as nat, 149, 149);
    assert(rounded_units(dimension as nat, 149) == dimension * unit);
    assert(Extended::of_u32(dimension) == Extended::Finite { units: dimension * unit });
    // The product: `2^149 * dimension * 2^149` units of the finer scale.
    lemma_pow2_adds(149, 149);
    assert(magnitude(unit as int) * magnitude(dimension * unit) == dimension * pow2(298))
        by (nonlinear_arith)
        requires
            pow2(298) == unit * unit,
            unit > 0,
            dimension >= 0,
    ;
    lemma_rounded_units_scales(dimension as nat, 298, 149);
    assert(rounded_units(dimension as nat * pow2(298), -149) == dimension * unit);
    assert(one.value().times(Extended::of_u32(dimension)) == Extended::Finite {
        units: dimension * unit,
    });
    lemma_div_multiples_vanish(dimension as int, unit as int);
    lemma_mul_is_commutative(dimension as int, unit as int);
}

} // verus!

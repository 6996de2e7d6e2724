//! Double-precision binary numbers (IEEE 754 binary64), held by their bit
//! patterns, as far as a proportion needs them: the quotient of two whole
//! numbers, rounded to the nearest number and, on a tie, to the one with an
//! even significand.

use crate::nearest::{
    bit_length, count_bits, law_nearest_even_is_nearest, lemma_bit_length_at_most,
    lemma_bit_length_bounds, lemma_nearest_even, lemma_pow2_increases, magnitude, nearest_even,
};
use crate::geometry::Ratio;
use vstd::arithmetic::power2::{lemma2_to64, lemma2_to64_rest, lemma_pow2_adds, lemma_pow2_pos, lemma_pow2_unfold, pow2};
use vstd::prelude::*;

verus! {

/// A binary64 number by its bit pattern: from the top, one sign bit, eleven
/// exponent bits and 52 fraction bits.
#[derive(Clone, Copy, Debug, PartialEq, Eq, Structural)]
pub struct Binary64 {
    pub bits: u64,
}

impl Binary64 {
    /// The eleven exponent bits.
    pub open spec fn exponent_field(self) -> nat {
        ((self.bits % 0x8000_0000_0000_0000) / 0x10_0000_0000_0000) as nat
    }

    /// The 52 fraction bits.
    pub open spec fn fraction_field(self) -> nat {
        (self.bits % 0x10_0000_0000_0000) as nat
    }

    /// The significand of a number whose exponent field is neither all
    /// zeros nor all ones: a leading one before the fraction. Such a number
    /// is `significand * 2^(exponent_field - 1075)`.
    pub open spec fn significand(self) -> nat {
        0x10_0000_0000_0000 + self.fraction_field()
    }
}

/// The power of two that brings `num / den` to a significand of 53 binary
/// digits: the `s` with `2^52 <= num * 2^s / den < 2^53`, for `0 < num <=
/// den`.
pub open spec fn quotient_scale(num: nat, den: nat) -> nat {
    let t = (52 + bit_length(den) - bit_length(num)) as nat;
    if num * pow2(t) >= pow2(52) * den {
        t
    } else {
        t + 1
    }
}

/// The binary64 number nearest to `num / den`, for `num <= den` and a
/// positive `den`: zero for zero; otherwise the quotient is scaled to 53
/// binary digits and rounded, and the pattern holds the exponent above the
/// rounded significand without its leading one. A significand that rounds
/// up to `2^53` carries into the exponent.
pub open spec fn quotient_of(num: nat, den: nat) -> Binary64 {
    if num == 0 {
        Binary64 { bits: 0 }
    } else {
        let s = quotient_scale(num, den);
        let m = nearest_even(num * pow2(s), den);
        Binary64 { bits: ((1075 - s) * 0x10_0000_0000_0000 + (m - 0x10_0000_0000_0000)) as u64 }
    }
}

/// The scale of a quotient does bring it to 53 binary digits.
pub proof fn law_quotient_scale(num: nat, den: nat)
    requires
        0 < num <= den,
    ensures
        52 <= (52 + bit_length(den) - bit_length(num)) <= quotient_scale(num, den) <= 53
            + bit_length(den) - bit_length(num),
        pow2(52) * den <= num * pow2(quotient_scale(num, den)) < pow2(53) * den,
        num * pow2((52 + bit_length(den) - bit_length(num)) as nat) < pow2(53) * den,
{
    let ln = bit_length(num);
    let ld = bit_length(den);
    lemma_bit_length_bounds(num);
    lemma_bit_length_bounds(den);
    if ln > ld {
        lemma_pow2_increases(ld, (ln - 1) as nat);
    }
    let t = (52 + ld - ln) as nat;
    let scaled = num * pow2(t);
    lemma_pow2_pos(t);
    lemma_pow2_adds(ln, t);
    lemma_pow2_adds((ln - 1) as nat, t);
    lemma_pow2_adds(53, (ld - 1) as nat);
    lemma_pow2_adds(51, ld);
    lemma_pow2_unfold(t + 1);
    lemma_pow2_unfold(52);
    lemma_pow2_unfold(53);
    lemma_pow2_pos(51);
    lemma_pow2_pos(53);
    assert(scaled < pow2(53) * den && scaled > pow2(51) * den) by (nonlinear_arith)
        requires
            scaled == num * pow2(t),
            pow2((ln - 1) as nat) <= num < pow2(ln),
            pow2((ld - 1) as nat) <= den < pow2(ld),
            pow2(ln) * pow2(t) == pow2(53) * pow2((ld - 1) as nat),
            pow2((ln - 1) as nat) * pow2(t) == pow2(51) * pow2(ld),
            pow2(t) > 0,
            pow2(53) > 0,
            pow2(51) > 0,
    ;
    if scaled < pow2(52) * den {
        assert(num * pow2(t + 1) == 2 * scaled && pow2(52) * den == 2 * (pow2(51) * den) && pow2(
            53,
        ) * den == 2 * (pow2(52) * den)) by (nonlinear_arith)
            requires
                scaled == num * pow2(t),
                pow2(t + 1) == 2 * pow2(t),
                pow2(52) == 2 * pow2(51),
                pow2(53) == 2 * pow2(52),
        ;
    }
}

/// The rounded quotient is a binary64 number between zero and one, written
/// with a full significand, and lies within half a unit of its last binary
/// digit of `num / den`.
pub proof fn law_quotient_is_nearest(num: nat, den: nat)
    requires
        0 < num <= den,
        den < pow2(128),
    ensures
        1 <= quotient_of(num, den).exponent_field() <= 1023,
        quotient_of(num, den).bits <= 0x3ff0_0000_0000_0000,
        2 * magnitude(
            quotient_of(num, den).significand() * den - num * pow2(
                (1075 - quotient_of(num, den).exponent_field()) as nat,
            ),
        ) <= den,
{
    lemma2_to64();
    lemma2_to64_rest();
    law_quotient_scale(num, den);
    let s = quotient_scale(num, den);
    let n = num * pow2(s);
    let m = nearest_even(n, den);
    law_nearest_even_is_nearest(n, den);
    lemma_bit_length_bounds(num);
    lemma_bit_length_at_most(den, 128);
    assert(52 <= s <= 181);
    // The rounded quotient keeps 53 binary digits or is `2^53`.
    assert(0x10_0000_0000_0000 <= m <= 0x20_0000_0000_0000) by (nonlinear_arith)
        requires
            0x10_0000_0000_0000 * den <= n < 0x20_0000_0000_0000 * den,
            2 * magnitude(m * den - n) <= den,
            den > 0,
    ;
    if s == 52 {
        // Only a quotient of one is this large, and it needs no rounding.
        assert(num == den) by (nonlinear_arith)
            requires
                0x10_0000_0000_0000 * den <= num * 0x10_0000_0000_0000,
                num <= den,
        ;
        lemma_nearest_even(n, den, 0x10_0000_0000_0000, 0);
    }
    let b = quotient_of(num, den);
    let high = (1075 - s) as nat;
    let low = (m - 0x10_0000_0000_0000) as nat;
    assert(b.bits == high * 0x10_0000_0000_0000 + low);
    if m == 0x20_0000_0000_0000 {
        assert(b.bits == (high + 1) * 0x10_0000_0000_0000);
        assert(b.exponent_field() == high + 1 && b.fraction_field() == 0) by {
            lemma_nearest_even(b.bits as nat, 0x10_0000_0000_0000, high + 1, 0);
        }
        lemma_pow2_unfold(s);
        let half_scale = pow2((s - 1) as nat);
        assert(2 * magnitude(0x10_0000_0000_0000 * den - num * half_scale) <= den)
            by (nonlinear_arith)
            requires
                n == num * (2 * half_scale),
                2 * magnitude(0x20_0000_0000_0000 * den - n) <= den,
        ;
    } else {
        assert(b.exponent_field() == high && b.fraction_field() == low) by {
            lemma_nearest_even(b.bits as nat, 0x10_0000_0000_0000, high, low);
        }
    }
}

/// One step of long division: doubles a dividend given as `q * den + r`.
fn double_step(den: u128, q: u64, r: u128) -> (out: (u64, u128))
    requires
        r < den,
        q < 0x4000_0000_0000_0000,
    ensures
        out.1 < den,
        out.0 * den + out.1 == 2 * (q * den + r),
{
    let rest = den - r;
    if r >= rest {
        assert((2 * q + 1) * den + (r - rest) == 2 * (q * den + r)) by (nonlinear_arith)
            requires
                rest == den - r,
        ;
        (2 * q + 1, r - rest)
    } else {
        assert((2 * q) * den + (r + r) == 2 * (q * den + r)) by (nonlinear_arith);
        (2 * q, r + r)
    }
}

impl Ratio {
    /// The proportion as a binary64 number: the quotient of numerator and
    /// denominator, rounded to the nearest.
    pub fn to_binary64(self) -> (out: Binary64)
        requires
            self.is_proportion(),
        ensures
            out == quotient_of(self.numerator as nat, self.denominator as nat),
    {
        let num = self.numerator;
        let den = self.denominator;
        if num == 0 {
            return Binary64 { bits: 0 };
        }
        let digits_num = count_bits(num);
        let digits_den = count_bits(den);
        proof {
            lemma2_to64();
            lemma2_to64_rest();
            law_quotient_scale(num as nat, den as nat);
        }
        let t: u32 = 52 + digits_den - digits_num;
        let mut q: u64 = if num == den {
            1
        } else {
            0
        };
        let mut r: u128 = if num == den {
            0
        } else {
            num
        };
        let mut i: u32 = 0;
        while i < t
            invariant
                i <= t <= 180,
                0 < num <= den,
                r < den,
                q * den + r == num * pow2(i as nat),
                num * pow2(t as nat) < pow2(53) * den,
            decreases t - i,
        {
            proof {
                lemma2_to64_rest();
                lemma_pow2_unfold((i + 1) as nat);
                lemma_pow2_increases(i as nat, t as nat);
                assert(q < 0x20_0000_0000_0000) by (nonlinear_arith)
                    requires
                        q * den + r == num * pow2(i as nat),
                        num * pow2(t as nat) < 0x20_0000_0000_0000 * den,
                        pow2(i as nat) <= pow2(t as nat),
                        0 < num,
                        0 < den,
                        0 <= r,
                ;
                assert(2 * (num * pow2(i as nat)) == num * (2 * pow2(i as nat)))
                    by (nonlinear_arith);
            }
            let (q2, r2) = double_step(den, q, r);
            q = q2;
            r = r2;
            i = i + 1;
        }
        proof {
            assert(q < 0x20_0000_0000_0000) by (nonlinear_arith)
                requires
                    q * den + r == num * pow2(t as nat),
                    num * pow2(t as nat) < 0x20_0000_0000_0000 * den,
                    0 < den,
                    0 <= r,
            ;
            assert((q >= 0x10_0000_0000_0000) == (num * pow2(t as nat) >= 0x10_0000_0000_0000
                * den)) by (nonlinear_arith)
                requires
                    q * den + r == num * pow2(t as nat),
                    0 <= r < den,
            ;
        }
        let mut s: u32 = t;
        if q < 0x10_0000_0000_0000 {
            proof {
                lemma_pow2_unfold((t + 1) as nat);
                assert(2 * (num * pow2(t as nat)) == num * (2 * pow2(t as nat)))
                    by (nonlinear_arith);
            }
            let (q2, r2) = double_step(den, q, r);
            q = q2;
            r = r2;
            s = t + 1;
        }
        assert(s == quotient_scale(num as nat, den as nat));
        proof {
            assert(0x10_0000_0000_0000 <= q < 0x20_0000_0000_0000) by (nonlinear_arith)
                requires
                    q * den + r == num * pow2(s as nat),
                    0x10_0000_0000_0000 * den <= num * pow2(s as nat) < 0x20_0000_0000_0000
                        * den,
                    0 <= r < den,
            ;
            lemma_nearest_even(num as nat * pow2(s as nat), den as nat, q as nat, r as nat);
        }
        let rest = den - r;
        let up = r > rest || (r == rest && q % 2 == 1);
        let m: u64 = if up {
            q + 1
        } else {
            q
        };
        assert(m == nearest_even(num as nat * pow2(s as nat), den as nat));
        Binary64 { bits: (1075 - s as u64) * 0x10_0000_0000_0000 + (m - 0x10_0000_0000_0000) }
    }
}

} // verus!

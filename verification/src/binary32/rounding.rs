//! Facts about rounded units.

use crate::binary32::model::{excess, overflow_units, rounded, rounded_units, signed, Extended};
use crate::nearest::{
    bit_length, lemma_bit_length_at_most, lemma_bit_length_bounds, lemma_bit_length_shifts,
    lemma_bit_length_unique, lemma_nearest_even, lemma_nearest_even_exact,
    lemma_nearest_even_scales, lemma_pow2_increases, lemma_pow2_values, magnitude, nearest_even,
};
use vstd::arithmetic::div_mod::lemma_fundamental_div_mod;
use vstd::arithmetic::power2::{lemma2_to64, lemma_pow2_adds, lemma_pow2_pos, lemma_pow2_unfold, pow2};
use vstd::prelude::*;

verus! {

/// What rounding keeps of a number fits a significand: the rounded quotient
/// has at most 24 binary digits, or is `2^24` itself, and the exponent that
/// goes with it is not negative.
pub proof fn law_rounded_significand_fits(n: nat, e: int)
    ensures
        nearest_even(n, pow2(excess(n, e))) <= 0x100_0000,
        excess(n, e) + e >= 0,
{
    let drop = excess(n, e);
    let p = pow2(drop);
    lemma_pow2_values();
    lemma_pow2_pos(drop);
    lemma_fundamental_div_mod(n as int, p as int);
    if n > 0 {
        lemma_bit_length_bounds(n);
        lemma_pow2_increases(bit_length(n), 24 + drop);
    }
    lemma_pow2_adds(24, drop);
    assert(n / p < 0x100_0000) by (nonlinear_arith)
        requires
            n == p * (n / p) + n % p,
            0 <= n % p,
            n < 0x100_0000 * p,
            p > 0,
    ;
}

/// Zero rounds to zero.
pub proof fn lemma_rounded_zero(negative: bool, e: int)
    ensures
        rounded_units(0, e) == 0,
        rounded(negative, 0, e) == (Extended::Finite { units: 0 }),
{
    lemma_pow2_pos(excess(0, e));
    lemma_pow2_pos(277);
    lemma_nearest_even(0, pow2(excess(0, e)), 0, 0);
    assert(rounded_units(0, e) == 0) by (nonlinear_arith)
        requires
            rounded_units(0, e) == 0 * pow2((excess(0, e) + e) as nat),
    ;
}

/// Rounding sees a number of units, not how it is written: `n * 2^k`
/// counted in units of `2^(e-k)` rounds as `n` counted in units of `2^e`.
pub proof fn lemma_rounded_units_scales(n: nat, k: nat, e: int)
    ensures
        rounded_units(n * pow2(k), e - k) == rounded_units(n, e),
{
    lemma_pow2_pos(k);
    lemma2_to64();
    if n == 0 {
        assert(n * pow2(k) == 0) by (nonlinear_arith)
            requires
                n == 0,
        ;
        lemma_pow2_pos(excess(0, e));
        lemma_pow2_pos(excess(0, e - k));
        lemma_nearest_even(0, pow2(excess(0, e)), 0, 0);
        lemma_nearest_even(0, pow2(excess(0, e - k)), 0, 0);
        assert(rounded_units(0, e) == 0) by (nonlinear_arith)
            requires
                rounded_units(0, e) == 0 * pow2((excess(0, e) + e) as nat),
        ;
        assert(rounded_units(0, e - k) == 0) by (nonlinear_arith)
            requires
                rounded_units(0, e - k) == 0 * pow2((excess(0, e - k) + (e - k)) as nat),
        ;
    } else {
        let scaled = n * pow2(k);
        lemma_bit_length_shifts(n, k);
        let over = bit_length(n) - 24;
        let under = -e;
        let raw = if over >= under {
            over
        } else {
            under
        };
        let drop = excess(n, e);
        let drop2 = excess(scaled, e - k);
        assert(drop == if raw > 0 {
            raw
        } else {
            0
        });
        assert(drop2 == if raw + k > 0 {
            raw + k
        } else {
            0
        });
        lemma_pow2_pos(drop);
        if raw >= 0 {
            assert(drop2 == drop + k);
            lemma_pow2_adds(drop, k);
            lemma_nearest_even_scales(n, pow2(drop), pow2(k));
            assert((drop2 + (e - k)) as nat == (drop + e) as nat);
        } else {
            assert(drop == 0);
            assert(e >= 1);
            let j = drop2;
            assert(j <= k);
            assert(j + e - k >= 0);
            lemma_pow2_adds((k - j) as nat, j);
            lemma_pow2_pos(j);
            assert(scaled == (n * pow2((k - j) as nat)) * pow2(j)) by (nonlinear_arith)
                requires
                    scaled == n * pow2(k),
                    pow2(k) == pow2((k - j) as nat) * pow2(j),
            ;
            lemma_nearest_even_exact(n * pow2((k - j) as nat), pow2(j));
            lemma_nearest_even_exact(n, 1);
            assert(n * 1 == n);
            lemma_pow2_adds((k - j) as nat, (j + e - k) as nat);
            assert((k - j) as nat + (j + e - k) as nat == e as nat);
            assert((n * pow2((k - j) as nat)) * pow2((j + e - k) as nat) == n * pow2(e as nat))
                by (nonlinear_arith)
                requires
                    pow2(e as nat) == pow2((k - j) as nat) * pow2((j + e - k) as nat),
            ;
        }
    }
}

/// A number that binary32 can write rounds to itself.
pub proof fn lemma_representable(negative: bool, m: nat, e: nat)
    requires
        m < 0x100_0000,
        e <= 253,
    ensures
        rounded_units(m * pow2(e), 0) == m * pow2(e),
        m * pow2(e) < overflow_units(),
        rounded(negative, m * pow2(e), 0) == (Extended::Finite { units: signed(negative, m * pow2(e)) }),
{
    lemma_pow2_values();
    lemma2_to64();
    lemma_rounded_units_scales(m, e, e as int);
    lemma_bit_length_at_most(m, 24);
    assert(excess(m, e as int) == 0);
    lemma_nearest_even_exact(m, 1);
    assert(m * 1 == m);
    lemma_pow2_adds(24, 253);
    lemma_pow2_increases(e, 253);
    lemma_pow2_pos(e);
    assert(m * pow2(e) < 0x100_0000 * pow2(253)) by (nonlinear_arith)
        requires
            m < 0x100_0000,
            0 < pow2(e) <= pow2(253),
    ;
}

/// A number far below the last binary digit of another does not change it:
/// with a full significand `m`, at least 27 digits more than `small` can
/// reach, the sum and the difference both round back to `m * 2^(d+e)`.
pub proof fn lemma_absorbed(m: nat, d: nat, small: nat, e: nat, subtract: bool)
    requires
        0x80_0000 <= m < 0x100_0000,
        d >= 27,
        small < 0x100_0000,
    ensures
        m * pow2(d) > small,
        rounded_units(
            if subtract {
                (m * pow2(d) - small) as nat
            } else {
                m * pow2(d) + small
            },
            e as int,
        ) == m * pow2(d + e),
{
    lemma_pow2_values();
    lemma2_to64();
    let big = m * pow2(d);
    let p = pow2(d);
    lemma_pow2_adds(24, (d - 24) as nat);
    lemma_pow2_increases(1, (d - 24) as nat);
    lemma_pow2_unfold(d);
    lemma_pow2_unfold((d - 1) as nat);
    lemma_pow2_adds(23, d);
    lemma_pow2_adds(24, d);
    lemma_pow2_adds(22, d);
    lemma_pow2_adds(d, e);
    let half = pow2((d - 1) as nat);
    let quarter = pow2((d - 2) as nat);
    assert(p == 2 * half && half == 2 * quarter);
    assert(p >= 2 * 0x100_0000) by (nonlinear_arith)
        requires
            p == 0x100_0000 * pow2((d - 24) as nat),
            pow2((d - 24) as nat) >= 2,
    ;
    assert(small < quarter) by {
        lemma_pow2_adds(24, (d - 26) as nat);
        lemma_pow2_pos((d - 26) as nat);
        assert(quarter >= 0x100_0000) by (nonlinear_arith)
            requires
                quarter == 0x100_0000 * pow2((d - 26) as nat),
                pow2((d - 26) as nat) >= 1,
        ;
    }
    assert(big >= 0x80_0000 * p && big < 0x100_0000 * p && big == m * p) by (nonlinear_arith)
        requires
            big == m * p,
            0x80_0000 <= m < 0x100_0000,
            p > 0,
    ;
    if !subtract || small == 0 {
        let n = (big + small) as nat;
        assert(n < 0x100_0000 * p) by (nonlinear_arith)
            requires
                n == m * p + small,
                m < 0x100_0000,
                small < p,
        ;
        lemma_bit_length_unique(n, 24 + d);
        assert(excess(n, e as int) == d);
        lemma_nearest_even(n, p, m, small);
        assert(rounded_units(n, e as int) == m * pow2(d + e));
    } else if m > 0x80_0000 {
        let n = (big - small) as nat;
        let r = (p - small) as nat;
        assert(n == (m - 1) * p + r && n >= 0x80_0000 * p) by (nonlinear_arith)
            requires
                n == m * p - small,
                r == p - small,
                m > 0x80_0000,
                0 < small < p,
        ;
        lemma_bit_length_unique(n, 24 + d);
        assert(excess(n, e as int) == d);
        lemma_nearest_even(n, p, (m - 1) as nat, r);
        assert(rounded_units(n, e as int) == m * pow2(d + e));
    } else {
        let n = (big - small) as nat;
        let r = (half - small) as nat;
        assert(n == 0xff_ffff * half + r && n >= 0x40_0000 * p && n < 0x80_0000 * p)
            by (nonlinear_arith)
            requires
                n == m * p - small,
                r == half - small,
                m == 0x80_0000,
                p == 2 * half,
                0 < small < half,
        ;
        lemma_bit_length_unique(n, 23 + d);
        assert(excess(n, e as int) == d - 1);
        lemma_nearest_even(n, half, 0xff_ffff, r);
        assert(nearest_even(n, half) == 0x100_0000);
        lemma_pow2_adds((d - 1) as nat, e);
        lemma_pow2_unfold(d + e);
        assert(0x100_0000 * pow2((d - 1 + e) as nat) == m * pow2(d + e)) by (nonlinear_arith)
            requires
                m == 0x80_0000,
                pow2(d + e) == 2 * pow2((d - 1 + e) as nat),
        ;
    }
}

/// A sum of two signed multiples of `p` is the signed sum of the factors,
/// times `p`.
pub proof fn lemma_sum_of_multiples(na: bool, a: nat, nb: bool, b: nat, p: nat)
    requires
        p > 0,
    ensures
        signed(na, a * p) + signed(nb, b * p) == (signed(na, a) + signed(nb, b)) * p,
        magnitude(signed(na, a * p) + signed(nb, b * p)) == magnitude(
            signed(na, a) + signed(nb, b),
        ) * p,
        (signed(na, a * p) + signed(nb, b * p) < 0) == (signed(na, a) + signed(nb, b) < 0),
{
    let x = signed(na, a);
    let y = signed(nb, b);
    assert(signed(na, a * p) == x * p) by (nonlinear_arith)
        requires
            x == signed(na, a),
    ;
    assert(signed(nb, b * p) == y * p) by (nonlinear_arith)
        requires
            y == signed(nb, b),
    ;
    assert(x * p + y * p == (x + y) * p) by (nonlinear_arith);
    let t = x + y;
    assert(((t * p < 0) == (t < 0)) && (t >= 0 ==> t * p >= 0) && (-(t * p) == (-t) * p))
        by (nonlinear_arith)
        requires
            p > 0,
    ;
}

} // verus!

//! Binary digits, powers of two and quotients rounded to the nearest whole
//! number: what both binary formats round with.

use vstd::arithmetic::div_mod::{lemma_fundamental_div_mod, lemma_fundamental_div_mod_converse};
use vstd::arithmetic::power2::{
    lemma2_to64, lemma2_to64_rest, lemma_pow2_adds, lemma_pow2_pos,
    lemma_pow2_strictly_increases, lemma_pow2_unfold, pow2,
};
use vstd::prelude::*;

verus! {

/// The number of binary digits of a natural number: 0 for 0, and for a
/// positive `n` the `k` with `2^(k-1) <= n < 2^k`.
pub open spec fn bit_length(n: nat) -> nat
    decreases n,
{
    if n == 0 {
        0
    } else {
        bit_length(n / 2) + 1
    }
}

/// The whole number nearest to `n / d`; of two that are equally near, the
/// even one.
pub open spec fn nearest_even(n: nat, d: nat) -> nat {
    let q = n / d;
    let r = n % d;
    if 2 * r < d || (2 * r == d && q % 2 == 0) {
        q
    } else {
        q + 1
    }
}

/// The distance of an integer from zero.
pub open spec fn magnitude(v: int) -> nat {
    if v < 0 {
        (-v) as nat
    } else {
        v as nat
    }
}

/// The powers of two that bound the machine arithmetic of this module.
pub proof fn lemma_pow2_values()
    ensures
        pow2(23) == 0x80_0000,
        pow2(24) == 0x100_0000,
        pow2(32) == 0x1_0000_0000,
        pow2(126) == 0x4000_0000_0000_0000_0000_0000_0000_0000,
        pow2(127) == 0x8000_0000_0000_0000_0000_0000_0000_0000,
        pow2(128) == 0x1_0000_0000_0000_0000_0000_0000_0000_0000,
{
    lemma_pow2_adds(64, 64);
    lemma2_to64();
    lemma2_to64_rest();
    lemma_pow2_adds(63, 63);
    lemma_pow2_adds(63, 64);
}

/// Powers of two grow with the exponent.
pub proof fn lemma_pow2_increases(a: nat, b: nat)
    requires
        a <= b,
    ensures
        pow2(a) <= pow2(b),
{
    if a < b {
        lemma_pow2_strictly_increases(a, b);
    }
}

/// A positive number lies between the two powers of two that its number of
/// binary digits names.
pub proof fn lemma_bit_length_bounds(n: nat)
    requires
        n > 0,
    ensures
        bit_length(n) >= 1,
        pow2((bit_length(n) - 1) as nat) <= n < pow2(bit_length(n)),
    decreases n,
{
    lemma2_to64();
    if n == 1 {
        assert(bit_length(1) == 1) by {
            reveal_with_fuel(bit_length, 2);
        }
    } else {
        let half = n / 2;
        lemma_bit_length_bounds(half);
        lemma_pow2_unfold(bit_length(half));
        lemma_pow2_unfold(bit_length(n));
    }
}

/// The number of binary digits of a positive number is the only `k` with
/// `2^(k-1) <= n < 2^k`.
pub proof fn lemma_bit_length_unique(n: nat, k: nat)
    requires
        k >= 1,
        pow2((k - 1) as nat) <= n < pow2(k),
    ensures
        bit_length(n) == k,
{
    lemma_pow2_pos((k - 1) as nat);
    lemma_bit_length_bounds(n);
    let b = bit_length(n);
    if b < k {
        if b < k - 1 {
            lemma_pow2_strictly_increases(b, (k - 1) as nat);
        }
    } else if b > k {
        if k < b - 1 {
            lemma_pow2_strictly_increases(k, (b - 1) as nat);
        }
    }
}

/// A number below `2^k` has at most `k` binary digits.
pub proof fn lemma_bit_length_at_most(n: nat, k: nat)
    requires
        n < pow2(k),
    ensures
        bit_length(n) <= k,
{
    if n > 0 {
        lemma_bit_length_bounds(n);
        if bit_length(n) > k + 1 {
            lemma_pow2_strictly_increases(k, (bit_length(n) - 1) as nat);
        }
    }
}

/// Multiplying by `2^k` adds `k` binary digits.
pub proof fn lemma_bit_length_shifts(n: nat, k: nat)
    requires
        n > 0,
    ensures
        bit_length(n * pow2(k)) == bit_length(n) + k,
{
    let len = bit_length(n);
    lemma_bit_length_bounds(n);
    lemma_pow2_adds((len - 1) as nat, k);
    lemma_pow2_adds(len, k);
    lemma_pow2_pos(k);
    assert(pow2((len - 1) as nat) * pow2(k) <= n * pow2(k) < pow2(len) * pow2(k))
        by (nonlinear_arith)
        requires
            pow2((len - 1) as nat) <= n < pow2(len),
            pow2(k) > 0,
    ;
    lemma_bit_length_unique(n * pow2(k), len + k);
}

/// Quotient, remainder and rounded quotient of a number written as
/// `q * d + r` with `r < d`.
pub proof fn lemma_nearest_even(n: nat, d: nat, q: nat, r: nat)
    requires
        d > 0,
        r < d,
        n == q * d + r,
    ensures
        n / d == q,
        n % d == r,
        nearest_even(n, d) == if 2 * r < d || (2 * r == d && q % 2 == 0) {
            q
        } else {
            q + 1
        },
{
    lemma_fundamental_div_mod_converse(n as int, d as int, q as int, r as int);
}

/// The rounded quotient is a nearest whole number: it is at most half a
/// divisor away from the exact quotient, and exactly half away only where it
/// is even.
pub proof fn law_nearest_even_is_nearest(n: nat, d: nat)
    requires
        d > 0,
    ensures
        2 * magnitude(nearest_even(n, d) * d - n) <= d,
        2 * magnitude(nearest_even(n, d) * d - n) == d ==> nearest_even(n, d) % 2 == 0,
{
    let q = n / d;
    let r = n % d;
    lemma_fundamental_div_mod(n as int, d as int);
    assert(q * d - n == -r && (q + 1) * d - n == d - r) by (nonlinear_arith)
        requires
            n == d * q + r,
    ;
    if 2 * r == d && q % 2 != 0 {
        assert((q + 1) % 2 == 0);
    }
}

/// Scaling a number and its divisor alike does not change the rounded
/// quotient.
pub proof fn lemma_nearest_even_scales(n: nat, d: nat, c: nat)
    requires
        d > 0,
        c > 0,
    ensures
        nearest_even(n * c, d * c) == nearest_even(n, d),
{
    let q = n / d;
    let r = n % d;
    lemma_fundamental_div_mod(n as int, d as int);
    assert(n == q * d + r) by (nonlinear_arith)
        requires
            n == d * q + r,
    ;
    lemma_nearest_even(n, d, q, r);
    assert(n * c == q * (d * c) + r * c && r * c < d * c && d * c > 0 && ((2 * (r * c) < d * c)
        <==> (2 * r < d)) && ((2 * (r * c) == d * c) <==> (2 * r == d))) by (nonlinear_arith)
        requires
            n == q * d + r,
            r < d,
            c > 0,
    ;
    lemma_nearest_even(n * c, d * c, q, r * c);
}

/// A multiple of the divisor rounds to its quotient.
pub proof fn lemma_nearest_even_exact(q: nat, d: nat)
    requires
        d > 0,
    ensures
        nearest_even(q * d, d) == q,
{
    lemma_nearest_even(q * d, d, q, 0);
}

/// Counts the binary digits of a number.
pub(crate) fn count_bits(n: u128) -> (len: u32)
    ensures
        len == bit_length(n as nat),
        len <= 128,
        n < pow2(126) ==> len <= 126,
{
    let mut rest = n;
    let mut len: u32 = 0;
    proof {
        lemma_pow2_values();
        lemma_bit_length_at_most(n as nat, 128);
        if n < pow2(126) {
            lemma_bit_length_at_most(n as nat, 126);
        }
    }
    while rest > 0
        invariant
            bit_length(n as nat) == len + bit_length(rest as nat),
            len + bit_length(rest as nat) <= 128,
        decreases rest,
    {
        rest = rest / 2;
        len = len + 1;
    }
    len
}

/// Computes a power of two.
pub(crate) fn power_of_two(k: u32) -> (p: u128)
    requires
        k <= 127,
    ensures
        p == pow2(k as nat),
{
    let mut p: u128 = 1;
    let mut i: u32 = 0;
    proof {
        lemma2_to64();
    }
    while i < k
        invariant
            i <= k <= 127,
            p == pow2(i as nat),
        decreases k - i,
    {
        proof {
            lemma_pow2_values();
            lemma_pow2_unfold((i + 1) as nat);
            if i < 126 {
                lemma_pow2_increases(i as nat, 126);
            }
        }
        p = p * 2;
        i = i + 1;
    }
    p
}

} // verus!

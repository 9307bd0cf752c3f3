//! Sizing math for the filter.
//!
//! The optimal bit-array length for an expected element count `n` and a
//! target false-positive rate `p` is `ceil(-(n * ln(p)) / ln(2)^2)`, and the
//! hash count is `ceil(m / n * ln(2))`. The rate is a rational `num / den`
//! with `0 < num < den`, so `-ln(p) = ln(den / num) = log2(den / num) * ln(2)`
//! and the bit count simplifies to `ceil(n * log2(den / num) / ln(2))`.
//!
//! All arithmetic is integral: `log2(den / num)` is computed in 32-bit
//! fixed point by the classical shift-and-square method, and `ln(2)` enters
//! as the 32-bit fixed-point constant [`LN2_Q32`]. Both derived values are
//! floored to at least 1 even for pathological inputs.

use vstd::prelude::*;
use vstd::arithmetic::div_mod::{
    lemma_div_is_ordered, lemma_div_multiples_vanish, lemma_multiply_divide_lt,
};
use vstd::arithmetic::mul::lemma_mul_upper_bound;
use vstd::arithmetic::power2::{lemma2_to64, lemma_pow2_strictly_increases, lemma_pow2_unfold, pow2};

verus! {

/// `ln(2)` in 32-bit fixed point: the nearest integer to `ln(2) * 2^32`.
pub const LN2_Q32: u64 = 2977044472;

/// `2^32`, the fixed-point scale.
pub const Q32_ONE: u64 = 0x1_0000_0000;

/// How many times `a` can be doubled while staying at or below `b`:
/// the exponent `e` with `a * 2^e <= b < a * 2^(e + 1)`, i.e. the
/// integer part of `log2(b / a)`.
pub open spec fn norm_exp(a: nat, b: nat) -> nat
    decreases b - a
        when 1 <= a <= b
{
    if b < 2 * a {
        0
    } else {
        1 + norm_exp(2 * a, b)
    }
}

/// The shift-and-square digit loop for the fractional part of a base-two
/// logarithm. `x` is a fixed-point value with 62 fractional bits in
/// `[2^62, 2^63)`, standing for a real in `[1, 2)`; each round squares it,
/// and the renormalizing shift is the next fractional bit of `log2`.
/// `acc` collects the bits produced so far, most significant first.
pub open spec fn frac_loop(x: nat, acc: nat, rounds: nat) -> nat
    decreases rounds,
{
    if rounds == 0 {
        acc
    } else {
        let y = (x * x) / 0x4000_0000_0000_0000;
        if y >= 0x8000_0000_0000_0000 {
            frac_loop(y / 2, 2 * acc + 1, (rounds - 1) as nat)
        } else {
            frac_loop(y, 2 * acc, (rounds - 1) as nat)
        }
    }
}

/// `log2(den / num)` in 32-bit fixed point, for `1 <= num < den`:
/// the integer part in the high bits, then 32 fractional bits from
/// the shift-and-square loop.
pub open spec fn spec_log2_q32(num: nat, den: nat) -> nat {
    let e = norm_exp(num, den);
    let x0 = (den * 0x4000_0000_0000_0000) / (num * pow2(e));
    e * 0x1_0000_0000 + frac_loop(x0, 0, 32)
}

/// The bit-array length derived from a capacity and a rate `num / den`:
/// `ceil(capacity * log2(den / num) / ln(2))` in 32-bit fixed point,
/// floored to at least 1.
pub open spec fn spec_num_bits(capacity: nat, num: nat, den: nat) -> nat {
    let m = (capacity * spec_log2_q32(num, den) + (LN2_Q32 - 1)) / (LN2_Q32 as int);
    if m == 0 {
        1
    } else {
        m as nat
    }
}

/// The hash count derived from a bit-array length and a capacity:
/// `ceil(m / capacity * ln(2))` in 32-bit fixed point, floored to at
/// least 1.
pub open spec fn spec_num_hashes(m: nat, capacity: nat) -> nat {
    let k = (m * LN2_Q32 + capacity * Q32_ONE - 1) / (capacity * (Q32_ONE as int));
    if k == 0 {
        1
    } else {
        k as nat
    }
}

/// `a >= b * c` implies `a / b >= c`, for positive `b`.
proof fn lemma_div_at_least(a: int, b: int, c: int)
    requires
        0 < b,
        b * c <= a,
    ensures
        c <= a / b,
{
    lemma_div_is_ordered(b * c, a, b);
    lemma_div_multiples_vanish(c, b);
}

/// `log2(den / num)` scaled by `2^32`, computed by normalizing and then
/// running the shift-and-square digit loop.
fn log2_q32(num: u64, den: u64) -> (l: u64)
    requires
        1 <= num < den,
    ensures
        l == spec_log2_q32(num as nat, den as nat),
        l < 0x40_0000_0000,
{
    let mut hi: u128 = num as u128;
    let mut e: u64 = 0;
    proof {
        lemma2_to64();
    }
    while (den as u128) >= 2 * hi
        invariant
            1 <= num < den,
            1 <= hi,
            hi as nat == (num as nat) * pow2(e as nat),
            hi <= den as u128,
            e <= 63,
            norm_exp(num as nat, den as nat) == e + norm_exp(hi as nat, den as nat),
        decreases den as int - hi as int,
    {
        proof {
            // Doubling keeps `hi` at or below `den < 2^64`, so the exponent
            // stays below 64.
            lemma_pow2_unfold((e + 1) as nat);
            assert((num as nat) * pow2((e + 1) as nat) == 2 * ((num as nat) * pow2(e as nat)))
                by (nonlinear_arith)
                requires
                    pow2((e + 1) as nat) == 2 * pow2(e as nat);
            if e + 1 >= 64 {
                lemma2_to64();
                lemma_pow2_strictly_increases(63, (e + 1) as nat);
                assert((num as nat) * pow2((e + 1) as nat) >= pow2((e + 1) as nat))
                    by (nonlinear_arith)
                    requires
                        num >= 1;
                assert(false);
            }
        }
        hi = 2 * hi;
        e = e + 1;
    }
    // Normalized start value: den / (num * 2^e) in [1, 2), with 62
    // fractional bits.
    let x_start: u128 = ((den as u128) * 0x4000_0000_0000_0000u128) / hi;
    proof {
        let d62: int = 0x4000_0000_0000_0000;
        assert((hi as int) * d62 <= (den as int) * d62) by (nonlinear_arith)
            requires
                (hi as int) <= (den as int),
                d62 > 0,
                (hi as int) >= 1;
        lemma_div_at_least((den as int) * d62, hi as int, d62);
        assert((den as int) * d62 < (hi as int) * (2 * d62)) by (nonlinear_arith)
            requires
                (den as int) < 2 * (hi as int),
                d62 > 0;
        lemma_multiply_divide_lt((den as int) * d62, hi as int, 2 * d62);
    }
    let ghost x0: nat = x_start as nat;
    let mut x: u128 = x_start;
    let mut acc: u64 = 0;
    let mut i: u64 = 0;
    while i < 32
        invariant
            0x4000_0000_0000_0000 <= x < 0x8000_0000_0000_0000,
            i <= 32,
            (acc as nat) < pow2(i as nat),
            frac_loop(x0, 0, 32) == frac_loop(x as nat, acc as nat, (32 - i) as nat),
        decreases 32 - i,
    {
        proof {
            assert((x as int) * (x as int) < 0x8000_0000_0000_0000 * 0x8000_0000_0000_0000)
                by (nonlinear_arith)
                requires
                    0 <= (x as int) && (x as int) < 0x8000_0000_0000_0000;
        }
        let y: u128 = (x * x) / 0x4000_0000_0000_0000u128;
        proof {
            let d62: int = 0x4000_0000_0000_0000;
            assert(d62 * d62 <= (x as int) * (x as int)) by (nonlinear_arith)
                requires
                    0 < d62,
                    d62 <= (x as int);
            lemma_div_at_least((x as int) * (x as int), d62, d62);
            assert((x as int) * (x as int) < d62 * (4 * d62)) by (nonlinear_arith)
                requires
                    0 <= (x as int),
                    (x as int) < 2 * d62;
            lemma_multiply_divide_lt((x as int) * (x as int), d62, 4 * d62);
            lemma_pow2_unfold((i + 1) as nat);
            lemma_pow2_strictly_increases(i as nat, 32);
            lemma2_to64();
        }
        if y >= 0x8000_0000_0000_0000u128 {
            x = y / 2;
            acc = 2 * acc + 1;
        } else {
            x = y;
            acc = 2 * acc;
        }
        i = i + 1;
    }
    proof {
        lemma2_to64();
        assert(norm_exp(hi as nat, den as nat) == 0);
        assert((acc as nat) < pow2(32));
    }
    e * Q32_ONE + acc
}

/// The number of bits a filter of the given capacity and rate gets.
///
/// The capacity bound is a machine limit: it keeps the derived length
/// (never above `93 * capacity + 1`) well inside the address space, so
/// the bit array can be allocated on any word size.
pub fn num_bits_for(capacity: usize, num: u64, den: u64) -> (m: usize)
    requires
        1 <= num < den,
        1 <= capacity,
        capacity as nat <= usize::MAX as nat / 1024,
    ensures
        m as nat == spec_num_bits(capacity as nat, num as nat, den as nat),
        1 <= m,
        m as nat <= usize::MAX as nat / 8,
{
    let l = log2_q32(num, den);
    proof {
        lemma_mul_upper_bound(capacity as int, u64::MAX as int, l as int, 0x40_0000_0000);
    }
    let wide: u128 = (capacity as u128) * (l as u128) + (LN2_Q32 as u128 - 1);
    let m_wide: u128 = wide / (LN2_Q32 as u128);
    proof {
        // The numerator stays below LN2_Q32 * (93 * capacity + 1), so the
        // quotient stays at or below 93 * capacity.
        let c: int = capacity as int;
        let ln2: int = LN2_Q32 as int;
        assert(c * (l as int) + (ln2 - 1) < ln2 * (93 * c + 1)) by (nonlinear_arith)
            requires
                1 <= c,
                0 <= (l as int) && (l as int) < 0x40_0000_0000,
                ln2 == 2977044472;
        lemma_multiply_divide_lt(c * (l as int) + (ln2 - 1), ln2, 93 * c + 1);
        // 93 * capacity stays far below usize::MAX / 8.
        assert(93 * c < usize::MAX as int / 8) by (nonlinear_arith)
            requires
                1 <= c,
                c <= usize::MAX as int / 1024,
                usize::MAX as int >= 0xFFFF_FFFF;
    }
    let m_floored: u128 = if m_wide == 0 {
        1
    } else {
        m_wide
    };
    m_floored as usize
}

/// The number of hash-derived positions for a filter of `m` bits and the
/// given capacity.
pub fn num_hashes_for(m: usize, capacity: usize) -> (k: usize)
    requires
        1 <= m,
        1 <= capacity,
    ensures
        k as nat == spec_num_hashes(m as nat, capacity as nat),
        1 <= k,
        k as nat <= m as nat,
{
    proof {
        lemma_mul_upper_bound(capacity as int, u64::MAX as int, Q32_ONE as int, Q32_ONE as int);
        assert((capacity as int) * (Q32_ONE as int) >= Q32_ONE as int) by (nonlinear_arith)
            requires
                (capacity as int) >= 1;
        lemma_mul_upper_bound(m as int, u64::MAX as int, LN2_Q32 as int, LN2_Q32 as int);
    }
    let scale: u128 = (capacity as u128) * (Q32_ONE as u128);
    let wide: u128 = (m as u128) * (LN2_Q32 as u128) + (scale - 1);
    let k_wide: u128 = wide / scale;
    proof {
        let mi: int = m as int;
        let s: int = scale as int;
        assert(mi * (LN2_Q32 as int) + (s - 1) < s * (mi + 1)) by (nonlinear_arith)
            requires
                1 <= mi,
                s >= Q32_ONE as int,
                Q32_ONE as int > LN2_Q32 as int,
                LN2_Q32 as int > 0;
        lemma_multiply_divide_lt(mi * (LN2_Q32 as int) + (s - 1), s, mi + 1);
    }
    let k_floored: u128 = if k_wide == 0 {
        1
    } else {
        k_wide
    };
    k_floored as usize
}

} // verus!

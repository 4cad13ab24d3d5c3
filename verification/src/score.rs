//! Fixed-point arithmetic for the UCB1 selection score.
//!
//! Scores are integers scaled by 2^16 (Q16 fixed point). The selection
//! formula `mean + sqrt(2 * ln(parent_visits) / visits)` is evaluated in
//! this representation, so comparing scores is exact integer comparison at
//! a fixed, documented granularity of 2^-16; no value is ever collapsed to
//! a whole number before comparison. The logarithm and square root are
//! themselves fixed-point algorithms defined exactly by the spec functions
//! below, so every score is a deterministic function of the visit and
//! value statistics alone.

use vstd::arithmetic::div_mod::{
    lemma_fundamental_div_mod, lemma_hoist_over_denominator, lemma_multiply_divide_le,
    lemma_multiply_divide_lt,
};
use vstd::prelude::*;

verus! {

/// Integer square root: the greatest `r` with `r * r <= n`.
pub open spec fn spec_isqrt(n: nat) -> nat
    decreases n,
{
    if n == 0 {
        0
    } else {
        let r = spec_isqrt((n - 1) as nat);
        if (r + 1) * (r + 1) <= n {
            (r + 1) as nat
        } else {
            r
        }
    }
}

pub proof fn lemma_isqrt_bounds(n: nat)
    ensures
        spec_isqrt(n) * spec_isqrt(n) <= n,
        n < (spec_isqrt(n) + 1) * (spec_isqrt(n) + 1),
    decreases n,
{
    if n == 0 {
        assert(n < (spec_isqrt(n) + 1) * (spec_isqrt(n) + 1)) by (nonlinear_arith)
            requires n == 0, spec_isqrt(n) == 0,
        ;
    } else {
        lemma_isqrt_bounds((n - 1) as nat);
        let r0 = spec_isqrt((n - 1) as nat);
        if (r0 + 1) * (r0 + 1) <= n {
            assert((r0 + 1) * (r0 + 1) < (r0 + 2) * (r0 + 2)) by (nonlinear_arith);
        }
    }
}

pub proof fn lemma_isqrt_unique(n: nat, r: nat)
    requires
        r * r <= n,
        n < (r + 1) * (r + 1),
    ensures
        r == spec_isqrt(n),
{
    let s = spec_isqrt(n);
    lemma_isqrt_bounds(n);
    if r < s {
        assert((r + 1) * (r + 1) <= s * s) by (nonlinear_arith)
            requires r + 1 <= s,
        ;
    }
    if s < r {
        assert((s + 1) * (s + 1) <= r * r) by (nonlinear_arith)
            requires s + 1 <= r,
        ;
    }
}

/// Exact integer square root, by binary search.
pub fn isqrt(n: u64) -> (r: u64)
    ensures
        r == spec_isqrt(n as nat),
{
    let mut lo: u64 = 0;
    let mut hi: u64 = if n < 0x1_0000_0000 {
        n
    } else {
        0xFFFF_FFFF
    };
    proof {
        assert((hi + 1) * (hi + 1) > n) by (nonlinear_arith)
            requires hi + 1 > 0xFFFF_FFFF || hi + 1 > n,
                n <= u64::MAX,
        ;
    }
    while lo < hi
        invariant
            lo <= hi,
            hi <= 0xFFFF_FFFF,
            lo * lo <= n,
            n < (hi + 1) * (hi + 1),
        decreases hi - lo,
    {
        let mid: u64 = lo + (hi - lo + 1) / 2;
        proof {
            assert((mid as u128) * (mid as u128) < 0x1_0000_0000_0000_0000u128)
                by (nonlinear_arith)
                requires mid <= 0xFFFF_FFFFu64,
            ;
        }
        if (mid as u128) * (mid as u128) <= n as u128 {
            lo = mid;
        } else {
            hi = mid - 1;
        }
    }
    proof {
        lemma_isqrt_unique(n as nat, lo as nat);
    }
    lo
}

/// 2^k.
pub open spec fn spec_pow2(k: nat) -> nat
    decreases k,
{
    if k == 0 {
        1
    } else {
        2 * spec_pow2((k - 1) as nat)
    }
}

pub proof fn lemma_pow2_monotone(a: nat, b: nat)
    requires
        a <= b,
    ensures
        spec_pow2(a) <= spec_pow2(b),
    decreases b,
{
    if a < b {
        lemma_pow2_monotone(a, (b - 1) as nat);
    }
}

/// Floor of the base-2 logarithm.
pub open spec fn spec_floor_log2(n: nat) -> nat
    decreases n,
{
    if n < 2 {
        0
    } else {
        (1 + spec_floor_log2(n / 2)) as nat
    }
}

/// The square-and-compare sweep that yields the fractional bits of log2.
/// `x` is the normalized mantissa in Q32 (in `[2^32, 2^33)` at the start);
/// each round squares it, renormalizes, and shifts the next bit into `acc`.
pub open spec fn spec_log2_frac(x: nat, acc: nat, rounds: nat) -> nat
    decreases rounds,
{
    if rounds == 0 {
        acc
    } else {
        let y = (x * x) / 0x1_0000_0000;
        if y >= 0x2_0000_0000 {
            spec_log2_frac(y / 2, acc * 2 + 1, (rounds - 1) as nat)
        } else {
            spec_log2_frac(y, acc * 2, (rounds - 1) as nat)
        }
    }
}

/// The input mantissa for the fractional sweep: n / 2^floor_log2(n), in Q32.
pub open spec fn spec_norm(n: nat) -> nat {
    (n * 0x1_0000_0000) / spec_pow2(spec_floor_log2(n))
}

/// log2(n) in Q16: the integer part exactly, then 16 fractional bits
/// computed by `spec_log2_frac`.
pub open spec fn spec_log2_fp(n: nat) -> nat {
    spec_floor_log2(n) * 0x10000 + spec_log2_frac(spec_norm(n), 0, 16)
}

/// ln(n) in Q16: log2(n) scaled by ln(2) in Q16.
pub open spec fn spec_ln_fp(n: nat) -> nat {
    (spec_log2_fp(n) * 45426) / 0x10000
}

/// The integer part of log2(n) together with 2^(that part).
fn floor_log2_pow(n: u64) -> (kd: (u64, u64))
    requires
        1 <= n,
    ensures
        kd.0 == spec_floor_log2(n as nat),
        kd.1 == spec_pow2(kd.0 as nat),
        kd.0 <= 63,
        kd.1 as nat <= n as nat,
        (n as nat) < 2 * (kd.1 as nat),
{
    let mut m: u64 = n;
    let mut k: u64 = 0;
    let mut d: u64 = 1;
    while m >= 2
        invariant
            1 <= m,
            1 <= n,
            k <= 63,
            d == spec_pow2(k as nat),
            spec_floor_log2(n as nat) == k + spec_floor_log2(m as nat),
            (d as nat) * (m as nat) <= n as nat,
            (n as nat) < (d as nat) * (m as nat + 1),
        decreases m,
    {
        proof {
            assert((2 * (d as nat)) * ((m as nat) / 2) <= (d as nat) * (m as nat)
                && (d as nat) * (m as nat + 1) <= (2 * (d as nat)) * ((m as nat) / 2 + 1)
                && 2 * (d as nat) <= (d as nat) * (m as nat)) by (nonlinear_arith)
                requires (m as nat) >= 2,
            ;
            if k >= 63 {
                lemma_pow2_monotone(63, k as nat);
                assert(spec_pow2(63) == 0x8000_0000_0000_0000) by {
                    reveal_with_fuel(spec_pow2, 64);
                }
            }
        }
        m = m / 2;
        k = k + 1;
        d = d * 2;
    }
    proof {
        assert((n as nat) < 2 * (d as nat)) by (nonlinear_arith)
            requires
                (n as nat) < (d as nat) * ((m as nat) + 1),
                m == 1,
        ;
    }
    (k, d)
}

/// The 16 fractional bits of log2 of the Q32 mantissa `x0`.
fn log2_frac16(x0: u128) -> (r: u64)
    requires
        x0 < 0x2_0000_0000,
    ensures
        r == spec_log2_frac(x0 as nat, 0, 16),
        r < 0x10000,
{
    let mut x: u128 = x0;
    let mut acc: u64 = 0;
    let mut j: u64 = 0;
    while j < 16
        invariant
            j <= 16,
            x < 0x2_0000_0000,
            acc < spec_pow2(j as nat),
            spec_log2_frac(x0 as nat, 0, 16) == spec_log2_frac(
                x as nat,
                acc as nat,
                (16 - j) as nat,
            ),
        decreases 16 - j,
    {
        proof {
            lemma_pow2_monotone(j as nat, 15);
            assert(spec_pow2(15) == 0x8000) by {
                reveal_with_fuel(spec_pow2, 16);
            }
            assert(x * x < 0x40_0000_0000_0000_0000) by (nonlinear_arith)
                requires x < 0x2_0000_0000,
            ;
        }
        let y: u128 = (x * x) / 0x1_0000_0000;
        proof {
            assert((x as int) * (x as int) < 0x1_0000_0000 * 0x4_0000_0000)
                by (nonlinear_arith)
                requires x < 0x2_0000_0000,
            ;
            lemma_multiply_divide_lt(x as int * x as int, 0x1_0000_0000, 0x4_0000_0000);
        }
        if y >= 0x2_0000_0000 {
            x = y / 2;
            acc = acc * 2 + 1;
        } else {
            x = y;
            acc = acc * 2;
        }
        j = j + 1;
    }
    proof {
        assert(spec_pow2(16) == 0x10000) by {
            reveal_with_fuel(spec_pow2, 17);
        }
    }
    acc
}

/// log2 in Q16 fixed point, exactly as `spec_log2_fp` defines it.
pub fn log2_fp(n: u64) -> (r: u64)
    requires
        1 <= n,
    ensures
        r == spec_log2_fp(n as nat),
        r < 0x400000,
{
    let (k, d) = floor_log2_pow(n);
    proof {
        assert((n as nat) * 0x1_0000_0000 < (d as nat) * 0x2_0000_0000) by (nonlinear_arith)
            requires (n as nat) < 2 * (d as nat),
        ;
        lemma_multiply_divide_lt(n as int * 0x1_0000_0000, d as int, 0x2_0000_0000);
    }
    let x0: u128 = ((n as u128) * 0x1_0000_0000) / (d as u128);
    let frac: u64 = log2_frac16(x0);
    k * 0x10000 + frac
}

/// ln in Q16 fixed point, exactly as `spec_ln_fp` defines it.
pub fn ln_fp(n: u64) -> (r: u64)
    requires
        1 <= n,
    ensures
        r == spec_ln_fp(n as nat),
        r < 0x400000,
{
    let lg = log2_fp(n);
    proof {
        lemma_multiply_divide_le(lg as int * 45426, 0x10000, lg as int);
        assert((lg as int) * 45426 <= 0x10000 * (lg as int)) by (nonlinear_arith);
    }
    (lg * 45426) / 0x10000
}

/// The accumulated value a node may carry after `visits` updates, each of
/// which adds one reward in `[i64::MIN, i64::MAX]`.
pub open spec fn value_in_range(value: int, visits: nat) -> bool {
    -((visits * 0x8000_0000_0000_0000) as int) <= value
        <= (visits * 0x8000_0000_0000_0000) as int
}

/// m * 2^16 / visits, rounded down.
pub open spec fn spec_udiv_fp(m: nat, visits: nat) -> nat {
    (m * 0x10000) / visits
}

/// The mean reward in Q16, truncated toward zero.
pub open spec fn spec_mean_fp(value: int, visits: nat) -> int {
    if value >= 0 {
        spec_udiv_fp(value as nat, visits) as int
    } else {
        -(spec_udiv_fp((-value) as nat, visits) as int)
    }
}

/// The UCB1 score in Q16: mean plus sqrt(2 * ln(parent_visits) / visits),
/// every stage evaluated in the fixed-point algorithms above.
pub open spec fn spec_ucb1(value: int, visits: nat, parent_visits: nat) -> int {
    spec_mean_fp(value, visits) + spec_isqrt(
        ((2 * spec_ln_fp(parent_visits) * 0x10000) / visits) as nat,
    ) as int
}

/// Magnitude half of the mean computation.
fn udiv_fp(m: u128, visits: u64) -> (r: u128)
    requires
        1 <= visits,
        m <= (visits as nat) * 0x8000_0000_0000_0000,
    ensures
        r == spec_udiv_fp(m as nat, visits as nat),
        r <= 0x8000_0000_0000_0001_0000u128,
{
    let q: u128 = m / (visits as u128);
    let rem: u128 = m % (visits as u128);
    proof {
        lemma_multiply_divide_le(m as int, visits as int, 0x8000_0000_0000_0000);
        assert(q * 0x10000 <= 0x8000_0000_0000_0000_0000u128) by (nonlinear_arith)
            requires q <= 0x8000_0000_0000_0000u128,
        ;
        assert(rem * 0x10000 < 0x1_0000_0000_0000_0000_0000u128) by (nonlinear_arith)
            requires rem < 0x1_0000_0000_0000_0000u128,
        ;
        lemma_multiply_divide_le(rem as int * 0x10000, visits as int, 0x10000);
        assert((rem as int) * 0x10000 <= (visits as int) * 0x10000) by (nonlinear_arith)
            requires rem < visits,
        ;
        lemma_fundamental_div_mod(m as int, visits as int);
        assert((m as int) * 0x10000 == (rem as int) * 0x10000 + ((q as int) * 0x10000) * (
        visits as int)) by (nonlinear_arith)
            requires (m as int) == (visits as int) * (q as int) + (rem as int),
        ;
        lemma_hoist_over_denominator(rem as int * 0x10000, q as int * 0x10000, visits as nat);
    }
    q * 0x10000 + (rem * 0x10000) / (visits as u128)
}

/// The UCB1 score of a child with the given statistics, in Q16 fixed
/// point, exactly as `spec_ucb1` defines it.
pub fn ucb1_fp(value: i128, visits: u64, parent_visits: u64) -> (r: i128)
    requires
        1 <= visits,
        1 <= parent_visits,
        value_in_range(value as int, visits as nat),
    ensures
        r == spec_ucb1(value as int, visits as nat, parent_visits as nat),
{
    let ln: u64 = ln_fp(parent_visits);
    let e_arg: u64 = (2 * ln * 0x10000) / visits;
    let explo: u64 = isqrt(e_arg);
    proof {
        lemma_isqrt_bounds(e_arg as nat);
        assert(spec_isqrt(e_arg as nat) <= e_arg as nat) by (nonlinear_arith)
            requires
                spec_isqrt(e_arg as nat) * spec_isqrt(e_arg as nat) <= e_arg as nat,
        ;
        assert((visits as nat) * 0x8000_0000_0000_0000
            <= 0xFFFF_FFFF_FFFF_FFFF * 0x8000_0000_0000_0000) by (nonlinear_arith)
            requires visits <= 0xFFFF_FFFF_FFFF_FFFFu64,
        ;
    }
    let mean: i128 = if value >= 0 {
        udiv_fp(value as u128, visits) as i128
    } else {
        -(udiv_fp((-value) as u128, visits) as i128)
    };
    mean + explo as i128
}

} // verus!

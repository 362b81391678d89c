//! Signed fixed-point arithmetic helpers.
//!
//! A geometric quantity (a coordinate in pixels, a scale factor, a rotation
//! matrix entry) is stored as an `i64` holding the quantity times `FP`.
//! Division always rounds toward negative infinity, so every executable
//! operation agrees with `/` on `int` and contracts can be stated directly
//! over mathematical integers.

use vstd::prelude::*;

verus! {

use vstd::arithmetic::div_mod::lemma_fundamental_div_mod;
use vstd::arithmetic::div_mod::lemma_fundamental_div_mod_converse_div;

/// One unit: the fixed-point representation of 1.0.
pub const FP: i64 = 100000;

/// `r` is the integer square root of `n`.
pub open spec fn is_sqrt(n: int, r: int) -> bool {
    r >= 0 && r * r <= n && n < (r + 1) * (r + 1)
}

/// The integer square root as a mathematical function (total on
/// non-negative arguments; see `lemma_sqrt_bounds`).
pub open spec fn sqrt_floor(n: int) -> int {
    choose|r: int| is_sqrt(n, r)
}

/// Squaring is monotone on non-negative integers, so the integer square
/// root is unique.
pub proof fn lemma_sqrt_unique(n: int, r1: int, r2: int)
    requires
        is_sqrt(n, r1),
        is_sqrt(n, r2),
    ensures
        r1 == r2,
{
    if r1 < r2 {
        assert((r1 + 1) * (r1 + 1) <= r2 * r2) by (nonlinear_arith)
            requires 0 <= r1, 0 <= r2, r1 + 1 <= r2;
    }
    if r2 < r1 {
        assert((r2 + 1) * (r2 + 1) <= r1 * r1) by (nonlinear_arith)
            requires 0 <= r1, 0 <= r2, r2 + 1 <= r1;
    }
}

/// An integer square root exists for every non-negative integer, so
/// `sqrt_floor` satisfies the bracketing it is chosen for.
pub proof fn lemma_sqrt_bounds(n: int)
    requires
        n >= 0,
    ensures
        is_sqrt(n, sqrt_floor(n)),
    decreases n,
{
    if n == 0 {
        assert(is_sqrt(0, 0));
    } else {
        lemma_sqrt_bounds(n - 1);
        let r = sqrt_floor(n - 1);
        if (r + 1) * (r + 1) <= n {
            assert(n < (r + 2) * (r + 2)) by (nonlinear_arith)
                requires r >= 0, n - 1 < (r + 1) * (r + 1);
            assert(is_sqrt(n, r + 1));
        } else {
            assert(is_sqrt(n, r));
        }
    }
}

/// Floor division: rounds toward negative infinity, so the result equals
/// division on `int` (which is Euclidean, hence floor for a positive
/// divisor).
pub fn fdiv(a: i64, d: i64) -> (r: i64)
    requires
        d > 0,
        a > i64::MIN,
    ensures
        r == a as int / d as int,
{
    proof {
        let n = if a as int >= 0 { a as int } else { -(a as int) };
        vstd::arithmetic::div_mod::lemma_div_nonincreasing(n, d as int);
        vstd::arithmetic::div_mod::lemma_div_pos_is_pos(n, d as int);
    }
    let q = a.checked_div(d).unwrap();
    let m = a.checked_rem(d).unwrap();
    if a >= 0 {
        q
    } else {
        proof {
            let n = -(a as int);
            let q0 = n / (d as int);
            let r0 = n % (d as int);
            lemma_fundamental_div_mod(n, d as int);
            assert(n == (d as int) * q0 + r0);
            if r0 == 0 {
                assert(a as int == (-q0) * (d as int) + 0) by (nonlinear_arith)
                    requires n == (d as int) * q0 + r0, r0 == 0, a as int == -n;
                lemma_fundamental_div_mod_converse_div(a as int, d as int, -q0, 0);
            } else {
                assert(a as int == (-q0 - 1) * (d as int) + (d as int - r0)) by (nonlinear_arith)
                    requires n == (d as int) * q0 + r0, a as int == -n;
                lemma_fundamental_div_mod_converse_div(
                    a as int, d as int, -q0 - 1, d as int - r0);
            }
        }
        if m != 0 {
            q - 1
        } else {
            q
        }
    }
}

/// Integer square root by binary search over the answer.
pub fn isqrt(n: u64) -> (r: u64)
    ensures
        is_sqrt(n as int, r as int),
        r as int == sqrt_floor(n as int),
{
    let mut lo: u64 = 0;
    let mut hi: u64 = if n < 4294967295 {
        n + 1
    } else {
        4294967296
    };
    proof {
        if n < 4294967295 {
            assert((n as int + 1) * (n as int + 1) > n as int) by (nonlinear_arith)
                requires n as int >= 0;
        } else {
            assert(4294967296int * 4294967296int > n as int) by (nonlinear_arith)
                requires (n as int) < 4294967296int * 4294967296int;
        }
    }
    while hi - lo > 1
        invariant
            lo < hi,
            hi <= 4294967296,
            lo as int * lo as int <= n as int,
            hi as int * hi as int > n as int,
        decreases hi - lo,
    {
        let mid = lo + (hi - lo) / 2;
        proof {
            assert((mid as int) * (mid as int) <= 4294967296int * 4294967296int)
                by (nonlinear_arith)
                requires 0 <= mid as int <= 4294967296int;
        }
        let sq: u128 = (mid as u128) * (mid as u128);
        if sq <= n as u128 {
            lo = mid;
        } else {
            hi = mid;
        }
    }
    proof {
        assert(is_sqrt(n as int, lo as int));
        let w = choose|r: int| is_sqrt(n as int, r);
        lemma_sqrt_unique(n as int, lo as int, w);
    }
    lo
}

/// Absolute value on `int`.
pub open spec fn iabs(x: int) -> int {
    if x < 0 {
        -x
    } else {
        x
    }
}

/// The mathematical clamp.
pub open spec fn clamp_spec(x: int, lo: int, hi: int) -> int {
    if x < lo {
        lo
    } else if x > hi {
        hi
    } else {
        x
    }
}

/// Clamp `x` into `[lo, hi]`.
pub fn clamp_i64(x: i64, lo: i64, hi: i64) -> (r: i64)
    requires
        lo <= hi,
    ensures
        r == clamp_spec(x as int, lo as int, hi as int),
{
    if x < lo {
        lo
    } else if x > hi {
        hi
    } else {
        x
    }
}

} // verus!

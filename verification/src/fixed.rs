//! Fixed-point scalar arithmetic.
//!
//! A coordinate is an `i64` holding a real value scaled by [`ONE`] = 2^16,
//! so `ONE` stands for 1.0 and [`HALF`] for 0.5. This module provides the
//! scalar building blocks the curve math needs: floor division, an integer
//! square root, and clamping, each with an exact contract.

use vstd::prelude::*;

verus! {

use vstd::arithmetic::div_mod::lemma_fundamental_div_mod;

/// Number of fixed-point units in 1.0: values carry 16 fractional bits.
pub const ONE: i64 = 65536;

/// Fixed-point representation of 0.5.
pub const HALF: i64 = 32768;

/// Largest coordinate magnitude the curve math accepts (4096.0 in real
/// units); keeps every intermediate product inside `i64`/`i128` range.
pub const COORD_LIMIT: i64 = 0x1000_0000;

/// A scalar small enough to be a coordinate.
pub open spec fn fx_ok(v: int) -> bool {
    -COORD_LIMIT <= v <= COORD_LIMIT
}

/// Floor of the real square root of `v`, defined by digit recursion.
pub open spec fn sqrt_floor(v: int) -> int
    decreases v,
{
    if v < 1 {
        0
    } else {
        let r = 2 * sqrt_floor(v / 4);
        if (r + 1) * (r + 1) <= v {
            r + 1
        } else {
            r
        }
    }
}

/// `sqrt_floor(v)` is the unique `r >= 0` with `r^2 <= v < (r+1)^2`.
pub proof fn lemma_sqrt_floor(v: int)
    requires
        v >= 0,
    ensures
        0 <= sqrt_floor(v),
        sqrt_floor(v) * sqrt_floor(v) <= v,
        v < (sqrt_floor(v) + 1) * (sqrt_floor(v) + 1),
    decreases v,
{
    if v < 1 {
    } else {
        let q = v / 4;
        lemma_sqrt_floor(q);
        lemma_fundamental_div_mod(v, 4);
        let s = sqrt_floor(q);
        assert((2 * s) * (2 * s) <= v && v < (2 * s + 2) * (2 * s + 2)) by (nonlinear_arith)
            requires
                s * s <= q,
                q < (s + 1) * (s + 1),
                v == 4 * q + v % 4,
                0 <= v % 4 < 4;
        let r = 2 * s;
        if (r + 1) * (r + 1) <= v {
            assert(sqrt_floor(v) == r + 1);
            assert((r + 1 + 1) * (r + 1 + 1) == (2 * s + 2) * (2 * s + 2)) by (nonlinear_arith)
                requires
                    r == 2 * s;
        } else {
            assert(sqrt_floor(v) == r);
        }
    }
}

/// Any `r` meeting the square-root bounds equals `sqrt_floor(v)`.
pub proof fn lemma_sqrt_floor_unique(v: int, r: int)
    requires
        v >= 0,
        0 <= r,
        r * r <= v,
        v < (r + 1) * (r + 1),
    ensures
        r == sqrt_floor(v),
{
    lemma_sqrt_floor(v);
    let s = sqrt_floor(v);
    assert(r == s) by (nonlinear_arith)
        requires
            0 <= r,
            0 <= s,
            r * r <= v,
            v < (r + 1) * (r + 1),
            s * s <= v,
            v < (s + 1) * (s + 1);
}

/// Integer square root by binary search.
pub fn isqrt(v: i64) -> (r: i64)
    requires
        v >= 0,
    ensures
        r == sqrt_floor(v as int),
        0 <= r,
        r * r <= v,
        v < (r + 1) * (r + 1),
{
    let w: u64 = v as u64;
    let mut lo: u64 = 0;
    let mut hi: u64 = 0x1_0000_0000;
    while hi - lo > 1
        invariant
            lo < hi <= 0x1_0000_0000,
            lo * lo <= w,
            w < hi * hi,
            w == v,
        decreases hi - lo,
    {
        let mid: u64 = lo + (hi - lo) / 2;
        proof {
            assert((mid as int) * (mid as int) <= 0x1_0000_0000_0000_0000) by (nonlinear_arith)
                requires
                    0 <= mid <= 0x1_0000_0000;
        }
        if (mid as u128) * (mid as u128) <= (w as u128) {
            lo = mid;
        } else {
            hi = mid;
        }
    }
    proof {
        lemma_sqrt_floor_unique(v as int, lo as int);
    }
    lo as i64
}

/// Floor division by a positive divisor; agrees with mathematical `/`.
pub fn fdiv(n: i64, d: i64) -> (r: i64)
    requires
        0 < d,
        -0x4000_0000_0000_0000 <= n <= 0x4000_0000_0000_0000,
    ensures
        r == n as int / d as int,
{
    if n >= 0 {
        ((n as u64) / (d as u64)) as i64
    } else {
        let m: u64 = (-n) as u64;
        let q: u64 = m / (d as u64);
        let rem: u64 = m % (d as u64);
        proof {
            lemma_fundamental_div_mod(n as int, d as int);
            lemma_fundamental_div_mod(m as int, d as int);
            let di = d as int;
            let qn = n as int / d as int;
            let rn = n as int % d as int;
            if rem == 0 {
                assert(qn == -(q as int)) by (nonlinear_arith)
                    requires
                        di > 0,
                        m == di * q,
                        n == -(m as int),
                        n == di * qn + rn,
                        0 <= rn,
                        rn < di;
            } else {
                assert(qn == -(q as int) - 1) by (nonlinear_arith)
                    requires
                        di > 0,
                        m == di * q + rem,
                        0 < rem,
                        rem < di,
                        n == -(m as int),
                        n == di * qn + rn,
                        0 <= rn,
                        rn < di;
            }
        }
        if rem == 0 {
            -(q as i64)
        } else {
            -(q as i64) - 1
        }
    }
}

/// Floor division for wide intermediates, positive divisor.
pub fn fdiv128(n: i128, d: i128) -> (r: i128)
    requires
        0 < d,
        -0x4000_0000_0000_0000_0000_0000_0000_0000 <= n
            <= 0x4000_0000_0000_0000_0000_0000_0000_0000,
    ensures
        r == n as int / d as int,
{
    if n >= 0 {
        ((n as u128) / (d as u128)) as i128
    } else {
        let m: u128 = (-n) as u128;
        let q: u128 = m / (d as u128);
        let rem: u128 = m % (d as u128);
        proof {
            lemma_fundamental_div_mod(n as int, d as int);
            lemma_fundamental_div_mod(m as int, d as int);
            let di = d as int;
            let qn = n as int / d as int;
            let rn = n as int % d as int;
            if rem == 0 {
                assert(qn == -(q as int)) by (nonlinear_arith)
                    requires
                        di > 0,
                        m == di * q,
                        n == -(m as int),
                        n == di * qn + rn,
                        0 <= rn,
                        rn < di;
            } else {
                assert(qn == -(q as int) - 1) by (nonlinear_arith)
                    requires
                        di > 0,
                        m == di * q + rem,
                        0 < rem,
                        rem < di,
                        n == -(m as int),
                        n == di * qn + rn,
                        0 <= rn,
                        rn < di;
            }
        }
        if rem == 0 {
            -(q as i128)
        } else {
            -(q as i128) - 1
        }
    }
}

/// Floor division by a signed nonzero divisor, written so that the divisor
/// handed to the integer quotient is always positive.
pub open spec fn sdiv_s(n: int, d: int) -> int {
    if d > 0 {
        n / d
    } else {
        (-n) / (-d)
    }
}

/// Signed fixed-point quotient `n / d`.
pub fn sdiv(n: i64, d: i64) -> (r: i64)
    requires
        d != 0,
        -0x4000_0000_0000_0000 <= n <= 0x4000_0000_0000_0000,
        -0x4000_0000_0000_0000 <= d <= 0x4000_0000_0000_0000,
    ensures
        r == sdiv_s(n as int, d as int),
{
    if d > 0 {
        fdiv(n, d)
    } else {
        fdiv(-n, -d)
    }
}

/// Clamp of `v` into `[lo, hi]`.
pub open spec fn clamp_s(v: int, lo: int, hi: int) -> int {
    if v < lo {
        lo
    } else if v > hi {
        hi
    } else {
        v
    }
}

/// Product bound: factors bounded in magnitude bound the product.
pub proof fn lemma_mul_bound(a: int, b: int, ma: int, mb: int)
    by (nonlinear_arith)
    requires
        -ma <= a <= ma,
        -mb <= b <= mb,
        0 <= ma,
        0 <= mb,
    ensures
        -(ma * mb) <= a * b <= ma * mb,
{
}

/// A square is nonnegative and bounded by the squared magnitude bound.
pub proof fn lemma_sq_bounds(a: int, m: int)
    by (nonlinear_arith)
    requires
        -m <= a <= m,
        0 <= m,
    ensures
        0 <= a * a <= m * m,
{
}


/// Floor square roots scale by `k` up to the integer quantum: if `w` lies
/// within `[k^2 v, k^2 v + k^2 - 1]`, its root lies in `[k r, k(r+1))` for
/// `r` the root of `v`.
pub proof fn lemma_sqrt_floor_scales(v: int, w: int, k: int)
    requires
        0 <= v,
        1 <= k,
        k * k * v <= w,
        w <= k * k * v + k * k - 1,
    ensures
        k * sqrt_floor(v) <= sqrt_floor(w),
        sqrt_floor(w) < k * (sqrt_floor(v) + 1),
{
    lemma_sqrt_floor(v);
    assert(0 <= w) by (nonlinear_arith)
        requires
            0 <= v,
            1 <= k,
            k * k * v <= w;
    lemma_sqrt_floor(w);
    let r = sqrt_floor(v);
    let rw = sqrt_floor(w);
    assert(k * r <= rw) by (nonlinear_arith)
        requires
            0 <= r,
            0 <= rw,
            1 <= k,
            r * r <= v,
            k * k * v <= w,
            w < (rw + 1) * (rw + 1);
    assert(rw < k * (r + 1)) by (nonlinear_arith)
        requires
            0 <= r,
            0 <= rw,
            1 <= k,
            rw * rw <= w,
            w <= k * k * v + k * k - 1,
            v < (r + 1) * (r + 1);
}


/// A quotient with positive divisor keeps a symmetric magnitude bound.
pub proof fn lemma_div_bound_sym(n: int, d: int, m: int)
    requires
        0 < d,
        0 <= m,
        -(m * d) <= n <= m * d,
    ensures
        -m <= n / d <= m,
{
    vstd::arithmetic::div_mod::lemma_div_is_ordered(n, m * d, d);
    vstd::arithmetic::div_mod::lemma_div_is_ordered(-(m * d), n, d);
    vstd::arithmetic::div_mod::lemma_div_multiples_vanish(m, d);
    vstd::arithmetic::div_mod::lemma_div_multiples_vanish(-m, d);
    assert(m * d == d * m && -(m * d) == d * (-m)) by (nonlinear_arith);
}

} // verus!

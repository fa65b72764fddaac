//! Outline segments and their geometry.
//!
//! A [`Line`] is one atomic piece of a vector outline: a straight line, a
//! quadratic Bezier or a cubic Bezier, each described by fixed-point control
//! points. The segment owns the distance-to-point and horizontal-row
//! intersection algorithms and the pure coordinate transforms.

use vstd::prelude::*;

verus! {

use vstd::arithmetic::div_mod::{
    lemma_fundamental_div_mod, lemma_div_is_ordered, lemma_div_multiples_vanish,
    lemma_div_multiples_vanish_quotient,
};
use crate::fixed::{
    ONE, COORD_LIMIT, fx_ok, sqrt_floor, isqrt, fdiv128, sdiv, sdiv_s, lemma_mul_bound,
    lemma_sq_bounds, lemma_sqrt_floor_scales,
};
use crate::math::{Vec2, vec_ok};

/// One outline segment: straight, quadratic or cubic.
#[derive(Copy, Clone, Debug)]
pub enum Line {
    /// Straight segment between two points.
    Line { start: Vec2, end: Vec2 },
    /// Quadratic Bezier with a single control point.
    Quad { start: Vec2, end: Vec2, control: Vec2 },
    /// Cubic Bezier with two control points.
    Curve { start: Vec2, end: Vec2, first_control: Vec2, second_control: Vec2 },
}

impl Line {
    /// Every control point is within the coordinate range the math accepts.
    pub open spec fn wf(self) -> bool {
        match self {
            Line::Line { start, end } => vec_ok(start) && vec_ok(end),
            Line::Quad { start, end, control } => vec_ok(start) && vec_ok(end) && vec_ok(control),
            Line::Curve { start, end, first_control, second_control } => vec_ok(start) && vec_ok(
                end,
            ) && vec_ok(first_control) && vec_ok(second_control),
        }
    }

    /// First endpoint of the segment.
    pub open spec fn start_of(self) -> Vec2 {
        match self {
            Line::Line { start, .. } => start,
            Line::Quad { start, .. } => start,
            Line::Curve { start, .. } => start,
        }
    }

    /// Second endpoint of the segment.
    pub open spec fn end_of(self) -> Vec2 {
        match self {
            Line::Line { end, .. } => end,
            Line::Quad { end, .. } => end,
            Line::Curve { end, .. } => end,
        }
    }
}

/// Squared distance (raw product units) from `(px, py)` to the straight
/// segment `(sx, sy)`-`(ex, ey)`: the projection parameter is clamped into
/// the segment, and the interior case uses the exact algebraic form
/// `cross^2 / |b-a|^2` given by the Lagrange identity.
pub open spec fn line_dist_sq(sx: int, sy: int, ex: int, ey: int, px: int, py: int) -> int {
    let bax = ex - sx;
    let bay = ey - sy;
    let pax = px - sx;
    let pay = py - sy;
    let dd = pax * bax + pay * bay;
    let bb = bax * bax + bay * bay;
    if dd <= 0 || bb == 0 {
        pax * pax + pay * pay
    } else if dd >= bb {
        (px - ex) * (px - ex) + (py - ey) * (py - ey)
    } else {
        let cr = pax * bay - pay * bax;
        (cr * cr) / bb
    }
}

/// The squared distance to a segment is never negative.
pub proof fn lemma_line_dist_sq_nonneg(sx: int, sy: int, ex: int, ey: int, px: int, py: int)
    ensures
        0 <= line_dist_sq(sx, sy, ex, ey, px, py),
{
    let bax = ex - sx;
    let bay = ey - sy;
    let pax = px - sx;
    let pay = py - sy;
    let dd = pax * bax + pay * bay;
    let bb = bax * bax + bay * bay;
    assert(pax * pax >= 0 && pay * pay >= 0 && bax * bax >= 0 && bay * bay >= 0 && (px - ex) * (px
        - ex) >= 0 && (py - ey) * (py - ey) >= 0) by (nonlinear_arith);
    if !(dd <= 0 || bb == 0) && !(dd >= bb) {
        let cr = pax * bay - pay * bax;
        assert(cr * cr >= 0) by (nonlinear_arith);
        assert(cr * cr / bb >= 0) by {
            lemma_div_is_ordered(0, cr * cr, bb);
        }
    }
}

/// Lagrange identity for 2D vectors: the squared cross product equals the
/// product of squared lengths minus the squared dot product.
proof fn lemma_lagrange(a: int, b: int, c: int, d: int)
    ensures
        (a * d - b * c) * (a * d - b * c) == (a * a + b * b) * (c * c + d * d) - (a * c + b * d) * (
        a * c + b * d),
{
    let p = a * d;
    let q = b * c;
    let r = a * c;
    let t = b * d;
    assert((p - q) * (p - q) == p * p - 2 * (p * q) + q * q) by (nonlinear_arith);
    assert((r + t) * (r + t) == r * r + 2 * (r * t) + t * t) by (nonlinear_arith);
    assert((a * d) * (a * d) == (a * a) * (d * d)) by (nonlinear_arith);
    assert((b * c) * (b * c) == (b * b) * (c * c)) by (nonlinear_arith);
    assert((a * c) * (a * c) == (a * a) * (c * c)) by (nonlinear_arith);
    assert((b * d) * (b * d) == (b * b) * (d * d)) by (nonlinear_arith);
    assert((a * d) * (b * c) == (a * c) * (b * d)) by (nonlinear_arith);
    assert((a * a + b * b) * (c * c + d * d) == (a * a) * (c * c) + (a * a) * (d * d) + (b * b) * (
    c * c) + (b * b) * (d * d)) by (nonlinear_arith);
}

/// Nearest distance from a point to a straight segment.
fn dist_line(s: Vec2, e: Vec2, px: i64, py: i64) -> (r: i64)
    requires
        vec_ok(s),
        vec_ok(e),
        fx_ok(px as int),
        fx_ok(py as int),
    ensures
        r == sqrt_floor(line_dist_sq(s.x as int, s.y as int, e.x as int, e.y as int, px as int, py as int)),
        0 <= r,
{
    let bax: i64 = e.x - s.x;
    let bay: i64 = e.y - s.y;
    let pax: i64 = px - s.x;
    let pay: i64 = py - s.y;
    proof {
        lemma_mul_bound(pax as int, bax as int, 2 * COORD_LIMIT as int, 2 * COORD_LIMIT as int);
        lemma_mul_bound(pay as int, bay as int, 2 * COORD_LIMIT as int, 2 * COORD_LIMIT as int);
        lemma_mul_bound(pax as int, bay as int, 2 * COORD_LIMIT as int, 2 * COORD_LIMIT as int);
        lemma_mul_bound(pay as int, bax as int, 2 * COORD_LIMIT as int, 2 * COORD_LIMIT as int);
        lemma_sq_bounds(bax as int, 2 * COORD_LIMIT as int);
        lemma_sq_bounds(bay as int, 2 * COORD_LIMIT as int);
        lemma_sq_bounds(pax as int, 2 * COORD_LIMIT as int);
        lemma_sq_bounds(pay as int, 2 * COORD_LIMIT as int);
    }
    let dd: i64 = pax * bax + pay * bay;
    let bb: i64 = bax * bax + bay * bay;
    if dd <= 0 || bb == 0 {
        isqrt(pax * pax + pay * pay)
    } else if dd >= bb {
        let qx: i64 = px - e.x;
        let qy: i64 = py - e.y;
        proof {
            lemma_sq_bounds(qx as int, 2 * COORD_LIMIT as int);
            lemma_sq_bounds(qy as int, 2 * COORD_LIMIT as int);
        }
        isqrt(qx * qx + qy * qy)
    } else {
        let cr: i64 = pax * bay - pay * bax;
        proof {
            lemma_lagrange(pax as int, pay as int, bax as int, bay as int);
            assert(dd * dd >= 0) by (nonlinear_arith);
            assert(-0x800_0000_0000_0000 <= cr <= 0x800_0000_0000_0000);
            assert(0 <= (cr as int) * (cr as int)
                <= 0x40_0000_0000_0000_0000_0000_0000_0000) by (nonlinear_arith)
                requires
                    -0x800_0000_0000_0000 <= cr <= 0x800_0000_0000_0000;
        }
        let num: i128 = (cr as i128) * (cr as i128);
        let v: i128 = fdiv128(num, bb as i128);
        proof {
            // The Lagrange identity bounds the quotient by the squared length
            // of the point-to-start vector, which fits in an i64.
            lemma_fundamental_div_mod(num as int, bb as int);
            let q = num as int / bb as int;
            let m = num as int % (bb as int);
            assert(0 <= q && q <= pax * pax + pay * pay) by (nonlinear_arith)
                requires
                    num == bb * q + m,
                    0 <= m,
                    m < bb,
                    num <= (pax * pax + pay * pay) * (bb as int),
                    0 <= num,
                    0 < bb;
        }
        isqrt(v as i64)
    }
}

/// Parameter of sample `i` of 31 values spread evenly across `[lo, hi]`.
pub open spec fn tsamp(lo: int, hi: int, i: int) -> int {
    lo + ((hi - lo) * i) / 30
}

/// Sample parameters stay inside `[lo, hi]` and hit both ends exactly.
proof fn lemma_tsamp_range(lo: int, hi: int, i: int)
    requires
        0 <= lo <= hi,
        0 <= i <= 30,
    ensures
        lo <= tsamp(lo, hi, i) <= hi,
        tsamp(lo, hi, 0) == lo,
        tsamp(lo, hi, 30) == hi,
{
    let d = hi - lo;
    assert(0 <= d * i <= d * 30) by (nonlinear_arith)
        requires
            0 <= d,
            0 <= i <= 30;
    lemma_div_is_ordered(0, d * i, 30);
    lemma_div_is_ordered(d * i, d * 30, 30);
    assert((d * 30) / 30 == d) by {
        lemma_div_multiples_vanish(d, 30);
        assert(d * 30 == 30 * d) by (nonlinear_arith);
    }
    assert(d * 0 == 0) by (nonlinear_arith);
}

/// Sample parameters are monotone in the sample index.
proof fn lemma_tsamp_mono(lo: int, hi: int, i: int, j: int)
    requires
        0 <= lo <= hi,
        0 <= i <= j,
    ensures
        tsamp(lo, hi, i) <= tsamp(lo, hi, j),
{
    let d = hi - lo;
    assert(d * i <= d * j) by (nonlinear_arith)
        requires
            0 <= d,
            i <= j;
    lemma_div_is_ordered(d * i, d * j, 30);
}

/// One coordinate of a quadratic Bezier at parameter `t`, Bernstein form.
pub open spec fn quad_coord(a: int, c: int, b: int, t: int) -> int {
    let mt = ONE - t;
    (a * (mt * mt) + 2 * (c * (mt * t)) + b * (t * t)) / (ONE * ONE)
}

/// One coordinate of a cubic Bezier at parameter `t`, Bernstein form.
pub open spec fn cubic_coord(a: int, c1: int, c2: int, b: int, t: int) -> int {
    let mt = ONE - t;
    (a * ((mt * mt) * mt) + 3 * (c1 * ((mt * mt) * t)) + 3 * (c2 * ((mt * t) * t)) + b * ((t
        * t) * t)) / ((ONE * ONE) * ONE)
}

/// One coordinate of a straight segment at parameter `t`.
pub open spec fn lerp_coord(a: int, b: int, t: int) -> int {
    (a * (ONE - t) + b * t) / (ONE as int)
}

/// The x coordinate of the segment's curve point at parameter `t`.
pub open spec fn point_at_x(seg: Line, t: int) -> int {
    match seg {
        Line::Line { start, end } => lerp_coord(start.x as int, end.x as int, t),
        Line::Quad { start, end, control } => quad_coord(
            start.x as int,
            control.x as int,
            end.x as int,
            t,
        ),
        Line::Curve { start, end, first_control, second_control } => cubic_coord(
            start.x as int,
            first_control.x as int,
            second_control.x as int,
            end.x as int,
            t,
        ),
    }
}

/// The y coordinate of the segment's curve point at parameter `t`.
pub open spec fn point_at_y(seg: Line, t: int) -> int {
    match seg {
        Line::Line { start, end } => lerp_coord(start.y as int, end.y as int, t),
        Line::Quad { start, end, control } => quad_coord(
            start.y as int,
            control.y as int,
            end.y as int,
            t,
        ),
        Line::Curve { start, end, first_control, second_control } => cubic_coord(
            start.y as int,
            first_control.y as int,
            second_control.y as int,
            end.y as int,
            t,
        ),
    }
}

/// Squared distance from `(px, py)` to the curve point at parameter `t`.
pub open spec fn sq_at(seg: Line, px: int, py: int, t: int) -> int {
    let qx = point_at_x(seg, t);
    let qy = point_at_y(seg, t);
    (px - qx) * (px - qx) + (py - qy) * (py - qy)
}

proof fn lemma_sq_at_nonneg(seg: Line, px: int, py: int, t: int)
    ensures
        0 <= sq_at(seg, px, py, t),
{
    let qx = point_at_x(seg, t);
    let qy = point_at_y(seg, t);
    assert((px - qx) * (px - qx) >= 0 && (py - qy) * (py - qy) >= 0) by (nonlinear_arith);
}

/// Least squared sample distance over samples `0..=n` of `[lo, hi]`.
pub open spec fn scan_min(seg: Line, px: int, py: int, lo: int, hi: int, n: int) -> int
    decreases n,
{
    if n <= 0 {
        sq_at(seg, px, py, tsamp(lo, hi, 0))
    } else {
        let prev = scan_min(seg, px, py, lo, hi, n - 1);
        let cur = sq_at(seg, px, py, tsamp(lo, hi, n));
        if cur < prev {
            cur
        } else {
            prev
        }
    }
}

/// Index of the first sample achieving the least squared distance.
pub open spec fn scan_argmin(seg: Line, px: int, py: int, lo: int, hi: int, n: int) -> int
    decreases n,
{
    if n <= 0 {
        0
    } else {
        let prev = scan_min(seg, px, py, lo, hi, n - 1);
        let cur = sq_at(seg, px, py, tsamp(lo, hi, n));
        if cur < prev {
            n
        } else {
            scan_argmin(seg, px, py, lo, hi, n - 1)
        }
    }
}

proof fn lemma_scan_min_le(seg: Line, px: int, py: int, lo: int, hi: int, n: int, i: int)
    requires
        0 <= i <= n,
    ensures
        scan_min(seg, px, py, lo, hi, n) <= sq_at(seg, px, py, tsamp(lo, hi, i)),
    decreases n,
{
    if n > 0 && i < n {
        lemma_scan_min_le(seg, px, py, lo, hi, n - 1, i);
    }
}

proof fn lemma_scan_min_nonneg(seg: Line, px: int, py: int, lo: int, hi: int, n: int)
    ensures
        0 <= scan_min(seg, px, py, lo, hi, n),
    decreases n,
{
    lemma_sq_at_nonneg(seg, px, py, tsamp(lo, hi, if n <= 0 { 0 } else { n }));
    if n > 0 {
        lemma_scan_min_nonneg(seg, px, py, lo, hi, n - 1);
    }
}

proof fn lemma_scan_argmin_range(seg: Line, px: int, py: int, lo: int, hi: int, n: int)
    requires
        0 <= n,
    ensures
        0 <= scan_argmin(seg, px, py, lo, hi, n) <= n,
    decreases n,
{
    if n > 0 {
        lemma_scan_argmin_range(seg, px, py, lo, hi, n - 1);
    }
}

/// Result of the two-level 31-sample scan: the least squared distance over
/// the coarse pass and a refined pass around the coarse minimum.
pub open spec fn curve_min(seg: Line, px: int, py: int) -> int {
    let m1 = scan_min(seg, px, py, 0, ONE as int, 30);
    let i1 = scan_argmin(seg, px, py, 0, ONE as int, 30);
    let bmin = if i1 == 0 {
        0
    } else {
        tsamp(0, ONE as int, i1 - 1)
    };
    let bmax = if i1 == 30 {
        ONE as int
    } else {
        tsamp(0, ONE as int, i1 + 1)
    };
    let m2 = scan_min(seg, px, py, bmin, bmax, 30);
    if m2 < m1 {
        m2
    } else {
        m1
    }
}

/// `(v * d) / d == v` for positive `d`.
proof fn lemma_cancel(v: int, d: int)
    requires
        0 < d,
    ensures
        (v * d) / d == v,
{
    lemma_div_multiples_vanish(v, d);
    assert(v * d == d * v) by (nonlinear_arith);
}

/// At the ends of the parameter range the curve point is exactly the
/// segment endpoint, for every variant.
proof fn lemma_point_at_ends(seg: Line)
    ensures
        point_at_x(seg, 0) == seg.start_of().x,
        point_at_y(seg, 0) == seg.start_of().y,
        point_at_x(seg, ONE as int) == seg.end_of().x,
        point_at_y(seg, ONE as int) == seg.end_of().y,
{
    let one = ONE as int;
    match seg {
        Line::Line { start, end } => {
            lemma_cancel(start.x as int, one);
            lemma_cancel(start.y as int, one);
            lemma_cancel(end.x as int, one);
            lemma_cancel(end.y as int, one);
        },
        Line::Quad { start, end, control } => {
            lemma_cancel(start.x as int, one * one);
            lemma_cancel(start.y as int, one * one);
            lemma_cancel(end.x as int, one * one);
            lemma_cancel(end.y as int, one * one);
            let mt = one - 0;
            assert(mt * mt == one * one);
            assert(2 * ((control.x as int) * (mt * 0)) == 0) by (nonlinear_arith);
            assert(2 * ((control.y as int) * (mt * 0)) == 0) by (nonlinear_arith);
            assert((end.x as int) * (0 * 0) == 0) by (nonlinear_arith);
            assert((end.y as int) * (0 * 0) == 0) by (nonlinear_arith);
            assert(quad_coord(start.x as int, control.x as int, end.x as int, 0) == ((
            start.x as int) * (one * one)) / (one * one));
            assert(quad_coord(start.y as int, control.y as int, end.y as int, 0) == ((
            start.y as int) * (one * one)) / (one * one));
            assert((start.x as int) * (0 * 0) == 0) by (nonlinear_arith);
            assert((start.y as int) * (0 * 0) == 0) by (nonlinear_arith);
            assert(2 * ((control.x as int) * (0 * one)) == 0) by (nonlinear_arith);
            assert(2 * ((control.y as int) * (0 * one)) == 0) by (nonlinear_arith);
            assert(quad_coord(start.x as int, control.x as int, end.x as int, one) == ((
            end.x as int) * (one * one)) / (one * one));
            assert(quad_coord(start.y as int, control.y as int, end.y as int, one) == ((
            end.y as int) * (one * one)) / (one * one));
        },
        Line::Curve { start, end, first_control, second_control } => {
            lemma_cancel(start.x as int, (one * one) * one);
            lemma_cancel(start.y as int, (one * one) * one);
            lemma_cancel(end.x as int, (one * one) * one);
            lemma_cancel(end.y as int, (one * one) * one);
            let mt = one - 0;
            assert((mt * mt) * mt == (one * one) * one);
            assert(3 * ((first_control.x as int) * ((mt * mt) * 0)) == 0) by (nonlinear_arith);
            assert(3 * ((first_control.y as int) * ((mt * mt) * 0)) == 0) by (nonlinear_arith);
            assert(3 * ((second_control.x as int) * ((mt * 0) * 0)) == 0) by (nonlinear_arith);
            assert(3 * ((second_control.y as int) * ((mt * 0) * 0)) == 0) by (nonlinear_arith);
            assert((end.x as int) * ((0 * 0) * 0) == 0) by (nonlinear_arith);
            assert((end.y as int) * ((0 * 0) * 0) == 0) by (nonlinear_arith);
            assert(cubic_coord(
                start.x as int,
                first_control.x as int,
                second_control.x as int,
                end.x as int,
                0,
            ) == ((start.x as int) * ((one * one) * one)) / ((one * one) * one));
            assert(cubic_coord(
                start.y as int,
                first_control.y as int,
                second_control.y as int,
                end.y as int,
                0,
            ) == ((start.y as int) * ((one * one) * one)) / ((one * one) * one));
            assert((start.x as int) * ((0 * 0) * 0) == 0) by (nonlinear_arith);
            assert((start.y as int) * ((0 * 0) * 0) == 0) by (nonlinear_arith);
            assert(3 * ((first_control.x as int) * ((0 * 0) * one)) == 0) by (nonlinear_arith);
            assert(3 * ((first_control.y as int) * ((0 * 0) * one)) == 0) by (nonlinear_arith);
            assert(3 * ((second_control.x as int) * ((0 * one) * one)) == 0) by (nonlinear_arith);
            assert(3 * ((second_control.y as int) * ((0 * one) * one)) == 0) by (nonlinear_arith);
            assert(cubic_coord(
                start.x as int,
                first_control.x as int,
                second_control.x as int,
                end.x as int,
                one,
            ) == ((end.x as int) * ((one * one) * one)) / ((one * one) * one));
            assert(cubic_coord(
                start.y as int,
                first_control.y as int,
                second_control.y as int,
                end.y as int,
                one,
            ) == ((end.y as int) * ((one * one) * one)) / ((one * one) * one));
        },
    }
}

/// Interpolated coordinate of a straight segment.
fn lerp_c(a: i64, b: i64, t: i64) -> (r: i64)
    requires
        fx_ok(a as int),
        fx_ok(b as int),
        0 <= t <= ONE,
    ensures
        r == lerp_coord(a as int, b as int, t as int),
        fx_ok(r as int),
{
    let mt: i64 = ONE - t;
    proof {
        lemma_mul_bound(a as int, mt as int, COORD_LIMIT as int, ONE as int);
        lemma_mul_bound(b as int, t as int, COORD_LIMIT as int, ONE as int);
    }
    let num: i64 = a * mt + b * t;
    let r = crate::fixed::fdiv(num, ONE);
    proof {
        let cl = COORD_LIMIT as int;
        let one = ONE as int;
        assert(-(cl * one) <= num <= cl * one) by (nonlinear_arith)
            requires
                num == a * mt + b * t,
                mt == one - t,
                0 <= t <= one,
                -cl <= a <= cl,
                -cl <= b <= cl;
        lemma_div_is_ordered(-(cl * one), num as int, one);
        lemma_div_is_ordered(num as int, cl * one, one);
        lemma_cancel(cl, one);
        lemma_cancel(-cl, one);
        assert(-(cl * one) == (-cl) * one) by (nonlinear_arith);
    }
    r
}

/// Coordinate of a quadratic Bezier at parameter `t`.
fn quad_c(a: i64, c: i64, b: i64, t: i64) -> (r: i64)
    requires
        -2 * COORD_LIMIT <= a <= 2 * COORD_LIMIT,
        -2 * COORD_LIMIT <= c <= 2 * COORD_LIMIT,
        -2 * COORD_LIMIT <= b <= 2 * COORD_LIMIT,
        0 <= t <= ONE,
    ensures
        r == quad_coord(a as int, c as int, b as int, t as int),
        -2 * COORD_LIMIT <= r <= 2 * COORD_LIMIT,
        fx_ok(a as int) && fx_ok(c as int) && fx_ok(b as int) ==> fx_ok(r as int),
{
    let mt: i64 = ONE - t;
    proof {
        lemma_mul_bound(mt as int, mt as int, ONE as int, ONE as int);
        lemma_mul_bound(mt as int, t as int, ONE as int, ONE as int);
        lemma_mul_bound(t as int, t as int, ONE as int, ONE as int);
    }
    let w0: i64 = mt * mt;
    let w1: i64 = mt * t;
    let w2: i64 = t * t;
    proof {
        let one = ONE as int;
        let cl = COORD_LIMIT as int;
        let bnd: int = if fx_ok(a as int) && fx_ok(c as int) && fx_ok(b as int) {
            cl
        } else {
            2 * cl
        };
        assert(0 <= w0 && 0 <= w1 && 0 <= w2) by (nonlinear_arith)
            requires
                w0 == mt * mt,
                w1 == mt * t,
                w2 == t * t,
                0 <= t,
                0 <= mt;
        lemma_mul_bound(a as int, w0 as int, bnd, one * one);
        lemma_mul_bound(c as int, w1 as int, bnd, one * one);
        lemma_mul_bound(b as int, w2 as int, bnd, one * one);
        assert(bnd * (one * one) <= 0x2000_0000_0000_0000) by (nonlinear_arith)
            requires
                bnd <= 2 * cl,
                0 <= bnd,
                cl == 0x1000_0000,
                one == 65536;
    }
    let p0: i128 = (a as i128) * (w0 as i128);
    let p1: i128 = (c as i128) * (w1 as i128);
    let p2: i128 = (b as i128) * (w2 as i128);
    let num: i128 = p0 + 2 * p1 + p2;
    let v: i128 = fdiv128(num, (ONE as i128) * (ONE as i128));
    proof {
        let one = ONE as int;
        let cl = COORD_LIMIT as int;
        let bnd: int = if fx_ok(a as int) && fx_ok(c as int) && fx_ok(b as int) {
            cl
        } else {
            2 * cl
        };
        assert(w0 + 2 * w1 + w2 == one * one) by (nonlinear_arith)
            requires
                w0 == mt * mt,
                w1 == mt * t,
                w2 == t * t,
                mt == one - t;
        assert(-(bnd * w0) <= a * w0 <= bnd * w0) by (nonlinear_arith)
            requires
                -bnd <= a <= bnd,
                0 <= w0;
        assert(-(bnd * w1) <= c * w1 <= bnd * w1) by (nonlinear_arith)
            requires
                -bnd <= c <= bnd,
                0 <= w1;
        assert(-(bnd * w2) <= b * w2 <= bnd * w2) by (nonlinear_arith)
            requires
                -bnd <= b <= bnd,
                0 <= w2;
        assert(bnd * w0 + 2 * (bnd * w1) + bnd * w2 == bnd * (w0 + 2 * w1 + w2))
            by (nonlinear_arith);
        assert(-(bnd * (one * one)) <= num <= bnd * (one * one));
        lemma_div_is_ordered(-(bnd * (one * one)), num as int, one * one);
        lemma_div_is_ordered(num as int, bnd * (one * one), one * one);
        lemma_cancel(bnd, one * one);
        lemma_cancel(-bnd, one * one);
        assert(-(bnd * (one * one)) == (-bnd) * (one * one)) by (nonlinear_arith);
    }
    v as i64
}

/// Coordinate of a cubic Bezier at parameter `t`.
fn cubic_c(a: i64, c1: i64, c2: i64, b: i64, t: i64) -> (r: i64)
    requires
        -2 * COORD_LIMIT <= a <= 2 * COORD_LIMIT,
        -2 * COORD_LIMIT <= c1 <= 2 * COORD_LIMIT,
        -2 * COORD_LIMIT <= c2 <= 2 * COORD_LIMIT,
        -2 * COORD_LIMIT <= b <= 2 * COORD_LIMIT,
        0 <= t <= ONE,
    ensures
        r == cubic_coord(a as int, c1 as int, c2 as int, b as int, t as int),
        -2 * COORD_LIMIT <= r <= 2 * COORD_LIMIT,
        fx_ok(a as int) && fx_ok(c1 as int) && fx_ok(c2 as int) && fx_ok(b as int) ==> fx_ok(
            r as int,
        ),
{
    let mt: i64 = ONE - t;
    proof {
        lemma_mul_bound(mt as int, mt as int, ONE as int, ONE as int);
        lemma_mul_bound(mt as int, t as int, ONE as int, ONE as int);
        lemma_mul_bound(t as int, t as int, ONE as int, ONE as int);
    }
    let mt2: i64 = mt * mt;
    let t2: i64 = t * t;
    let mtt: i64 = mt * t;
    proof {
        let one = ONE as int;
        lemma_mul_bound(mt2 as int, mt as int, one * one, one);
        lemma_mul_bound(mt2 as int, t as int, one * one, one);
        lemma_mul_bound(mtt as int, t as int, one * one, one);
        lemma_mul_bound(t2 as int, t as int, one * one, one);
    }
    let w0: i64 = mt2 * mt;
    let w1: i64 = mt2 * t;
    let w2: i64 = mtt * t;
    let w3: i64 = t2 * t;
    proof {
        let one = ONE as int;
        let cl = COORD_LIMIT as int;
        let bnd: int = if fx_ok(a as int) && fx_ok(c1 as int) && fx_ok(c2 as int) && fx_ok(
            b as int,
        ) {
            cl
        } else {
            2 * cl
        };
        assert(0 <= w0 && 0 <= w1 && 0 <= w2 && 0 <= w3) by (nonlinear_arith)
            requires
                w0 == (mt * mt) * mt,
                w1 == (mt * mt) * t,
                w2 == (mt * t) * t,
                w3 == (t * t) * t,
                0 <= t,
                0 <= mt;
        lemma_mul_bound(a as int, w0 as int, bnd, (one * one) * one);
        lemma_mul_bound(c1 as int, w1 as int, bnd, (one * one) * one);
        lemma_mul_bound(c2 as int, w2 as int, bnd, (one * one) * one);
        lemma_mul_bound(b as int, w3 as int, bnd, (one * one) * one);
        assert(bnd * ((one * one) * one) <= 0x2000_0000_0000_0000_0000) by (nonlinear_arith)
            requires
                bnd <= 2 * cl,
                0 <= bnd,
                cl == 0x1000_0000,
                one == 65536;
    }
    let p0: i128 = (a as i128) * (w0 as i128);
    let p1: i128 = (c1 as i128) * (w1 as i128);
    let p2: i128 = (c2 as i128) * (w2 as i128);
    let p3: i128 = (b as i128) * (w3 as i128);
    let num: i128 = p0 + 3 * p1 + 3 * p2 + p3;
    let v: i128 = fdiv128(num, ((ONE as i128) * (ONE as i128)) * (ONE as i128));
    proof {
        let one = ONE as int;
        let cl = COORD_LIMIT as int;
        let bnd: int = if fx_ok(a as int) && fx_ok(c1 as int) && fx_ok(c2 as int) && fx_ok(
            b as int,
        ) {
            cl
        } else {
            2 * cl
        };
        assert(w0 + 3 * w1 + 3 * w2 + w3 == (one * one) * one) by (nonlinear_arith)
            requires
                w0 == (mt * mt) * mt,
                w1 == (mt * mt) * t,
                w2 == (mt * t) * t,
                w3 == (t * t) * t,
                mt == one - t;
        assert(-(bnd * w0) <= a * w0 <= bnd * w0) by (nonlinear_arith)
            requires
                -bnd <= a <= bnd,
                0 <= w0;
        assert(-(bnd * w1) <= c1 * w1 <= bnd * w1) by (nonlinear_arith)
            requires
                -bnd <= c1 <= bnd,
                0 <= w1;
        assert(-(bnd * w2) <= c2 * w2 <= bnd * w2) by (nonlinear_arith)
            requires
                -bnd <= c2 <= bnd,
                0 <= w2;
        assert(-(bnd * w3) <= b * w3 <= bnd * w3) by (nonlinear_arith)
            requires
                -bnd <= b <= bnd,
                0 <= w3;
        assert(bnd * w0 + 3 * (bnd * w1) + 3 * (bnd * w2) + bnd * w3 == bnd * (w0 + 3 * w1 + 3
            * w2 + w3)) by (nonlinear_arith);
        assert(-(bnd * ((one * one) * one)) <= num <= bnd * ((one * one) * one));
        lemma_div_is_ordered(-(bnd * ((one * one) * one)), num as int, (one * one) * one);
        lemma_div_is_ordered(num as int, bnd * ((one * one) * one), (one * one) * one);
        lemma_cancel(bnd, (one * one) * one);
        lemma_cancel(-bnd, (one * one) * one);
        assert(-(bnd * ((one * one) * one)) == (-bnd) * ((one * one) * one)) by (nonlinear_arith);
    }
    v as i64
}

/// Point of the segment's curve at parameter `t`.
fn point_at(seg: &Line, t: i64) -> (r: Vec2)
    requires
        seg.wf(),
        0 <= t <= ONE,
    ensures
        r.x == point_at_x(*seg, t as int),
        r.y == point_at_y(*seg, t as int),
        vec_ok(r),
{
    match *seg {
        Line::Line { start, end } => Vec2 {
            x: lerp_c(start.x, end.x, t),
            y: lerp_c(start.y, end.y, t),
        },
        Line::Quad { start, end, control } => Vec2 {
            x: quad_c(start.x, control.x, end.x, t),
            y: quad_c(start.y, control.y, end.y, t),
        },
        Line::Curve { start, end, first_control, second_control } => Vec2 {
            x: cubic_c(start.x, first_control.x, second_control.x, end.x, t),
            y: cubic_c(start.y, first_control.y, second_control.y, end.y, t),
        },
    }
}

/// Squared distance from the query point to the curve point at `t`.
fn sq_at_exec(seg: &Line, px: i64, py: i64, t: i64) -> (r: i64)
    requires
        seg.wf(),
        fx_ok(px as int),
        fx_ok(py as int),
        0 <= t <= ONE,
    ensures
        r == sq_at(*seg, px as int, py as int, t as int),
        0 <= r,
{
    let q = point_at(seg, t);
    let dx: i64 = px - q.x;
    let dy: i64 = py - q.y;
    proof {
        lemma_sq_bounds(dx as int, 2 * COORD_LIMIT as int);
        lemma_sq_bounds(dy as int, 2 * COORD_LIMIT as int);
    }
    dx * dx + dy * dy
}

/// Parameter of sample `i` across `[lo, hi]`.
fn tsamp_exec(lo: i64, hi: i64, i: i64) -> (r: i64)
    requires
        0 <= lo <= hi <= ONE,
        0 <= i <= 30,
    ensures
        r == tsamp(lo as int, hi as int, i as int),
        lo <= r <= hi,
{
    proof {
        lemma_tsamp_range(lo as int, hi as int, i as int);
        lemma_mul_bound((hi - lo) as int, i as int, ONE as int, 30);
    }
    lo + crate::fixed::fdiv((hi - lo) * i, 30)
}

/// One 31-sample pass: least squared sample distance over `[lo, hi]` and
/// the first sample index achieving it.
fn scan_pass(seg: &Line, px: i64, py: i64, lo: i64, hi: i64) -> (r: (i64, usize))
    requires
        seg.wf(),
        fx_ok(px as int),
        fx_ok(py as int),
        0 <= lo <= hi <= ONE,
    ensures
        r.0 == scan_min(*seg, px as int, py as int, lo as int, hi as int, 30),
        r.1 == scan_argmin(*seg, px as int, py as int, lo as int, hi as int, 30),
        0 <= r.0,
        r.1 <= 30,
{
    let t0 = tsamp_exec(lo, hi, 0);
    let mut best: i64 = sq_at_exec(seg, px, py, t0);
    let mut best_i: usize = 0;
    let mut i: usize = 1;
    while i <= 30
        invariant
            seg.wf(),
            fx_ok(px as int),
            fx_ok(py as int),
            0 <= lo <= hi <= ONE,
            1 <= i <= 31,
            best == scan_min(*seg, px as int, py as int, lo as int, hi as int, i - 1),
            best_i == scan_argmin(*seg, px as int, py as int, lo as int, hi as int, i - 1),
            best_i < i,
            0 <= best,
        decreases 31 - i,
    {
        let t = tsamp_exec(lo, hi, i as i64);
        let cur = sq_at_exec(seg, px, py, t);
        if cur < best {
            best = cur;
            best_i = i;
        }
        i = i + 1;
    }
    (best, best_i)
}

impl Line {
    /// Unsigned nearest distance from the point `(x, y)` to the segment.
    ///
    /// Straight segments use the exact clamped-projection form; curved
    /// segments use a two-level 31-sample scan of the curve parameter (the
    /// closed-form cubic solve needs cube roots and trigonometry, which
    /// integer arithmetic does not offer, and the scan carries an exact
    /// specification instead). Points on an endpoint report distance zero.
    pub fn distance(&self, x: i64, y: i64) -> (r: i64)
        requires
            self.wf(),
            fx_ok(x as int),
            fx_ok(y as int),
        ensures
            0 <= r,
            (*self matches Line::Line { start, end } ==> r == sqrt_floor(
                line_dist_sq(
                    start.x as int,
                    start.y as int,
                    end.x as int,
                    end.y as int,
                    x as int,
                    y as int,
                ),
            )),
            !(*self matches Line::Line { .. }) ==> r == sqrt_floor(
                curve_min(*self, x as int, y as int),
            ),
            x == self.start_of().x && y == self.start_of().y ==> r == 0,
            x == self.end_of().x && y == self.end_of().y ==> r == 0,
    {
        match *self {
            Line::Line { start, end } => {
                let r = dist_line(start, end, x, y);
                proof {
                    let sx = start.x as int;
                    let sy = start.y as int;
                    let ex = end.x as int;
                    let ey = end.y as int;
                    if x == sx && y == sy {
                        assert(line_dist_sq(sx, sy, ex, ey, x as int, y as int) == 0);
                    }
                    if x == ex && y == ey {
                        let bax = ex - sx;
                        let bay = ey - sy;
                        let pax = x as int - sx;
                        let pay = y as int - sy;
                        assert(pax == bax && pay == bay);
                        assert(pax * bax == bax * bax && pay * bay == bay * bay);
                        assert(bax * bax >= 0 && bay * bay >= 0) by (nonlinear_arith);
                        assert(line_dist_sq(sx, sy, ex, ey, x as int, y as int) == 0);
                    }
                }
                r
            },
            _ => {
                let one_t: i64 = ONE;
                let (m1, i1) = scan_pass(self, x, y, 0, one_t);
                proof {
                    lemma_scan_argmin_range(*self, x as int, y as int, 0, ONE as int, 30);
                    if i1 > 0 {
                        lemma_tsamp_range(0, ONE as int, i1 - 1);
                    }
                    if i1 < 30 {
                        lemma_tsamp_range(0, ONE as int, i1 + 1);
                    }
                    if 0 < i1 < 30 {
                        lemma_tsamp_mono(0, ONE as int, i1 - 1, i1 + 1);
                    }
                }
                let bmin: i64 = if i1 == 0 {
                    0
                } else {
                    tsamp_exec(0, one_t, (i1 - 1) as i64)
                };
                let bmax: i64 = if i1 == 30 {
                    one_t
                } else {
                    tsamp_exec(0, one_t, (i1 + 1) as i64)
                };
                let (m2, i2) = scan_pass(self, x, y, bmin, bmax);
                let m: i64 = if m2 < m1 {
                    m2
                } else {
                    m1
                };
                proof {
                    assert(m == curve_min(*self, x as int, y as int));
                    lemma_point_at_ends(*self);
                    lemma_tsamp_range(0, ONE as int, 0);
                    lemma_tsamp_range(0, ONE as int, 30);
                    if x == self.start_of().x && y == self.start_of().y {
                        assert(sq_at(*self, x as int, y as int, 0) == 0);
                        lemma_scan_min_le(*self, x as int, y as int, 0, ONE as int, 30, 0);
                    }
                    if x == self.end_of().x && y == self.end_of().y {
                        assert(sq_at(*self, x as int, y as int, ONE as int) == 0);
                        lemma_scan_min_le(*self, x as int, y as int, 0, ONE as int, 30, 30);
                    }
                }
                isqrt(m)
            },
        }
    }
}

/// One coordinate remapped by the box transform: subtract the offset, then
/// rescale so the box size becomes one unit.
pub open spec fn norm_c(c: int, o: int, wh: int) -> int {
    sdiv_s((c - o) * ONE, wh)
}

/// Remap one coordinate into the unit range of the box `[o, o + wh]`.
fn norm_c_exec(c: i64, o: i64, wh: i64) -> (r: i64)
    requires
        fx_ok(c as int),
        fx_ok(o as int),
        fx_ok(wh as int),
        wh != 0,
    ensures
        r == norm_c(c as int, o as int, wh as int),
{
    proof {
        lemma_mul_bound((c - o) as int, ONE as int, 2 * COORD_LIMIT as int, ONE as int);
    }
    sdiv((c - o) * ONE, wh)
}

/// `r` is `s` with every control point remapped by the box transform.
pub open spec fn is_normalized_of(r: Line, s: Line, ox: int, oy: int, w: int, h: int) -> bool {
    match (r, s) {
        (Line::Line { start: rs, end: re }, Line::Line { start: ss, end: se }) => rs.x == norm_c(
            ss.x as int,
            ox,
            w,
        ) && rs.y == norm_c(ss.y as int, oy, h) && re.x == norm_c(se.x as int, ox, w) && re.y
            == norm_c(se.y as int, oy, h),
        (
            Line::Quad { start: rs, end: re, control: rc },
            Line::Quad { start: ss, end: se, control: sc },
        ) => rs.x == norm_c(ss.x as int, ox, w) && rs.y == norm_c(ss.y as int, oy, h) && re.x
            == norm_c(se.x as int, ox, w) && re.y == norm_c(se.y as int, oy, h) && rc.x == norm_c(
            sc.x as int,
            ox,
            w,
        ) && rc.y == norm_c(sc.y as int, oy, h),
        (
            Line::Curve { start: rs, end: re, first_control: rc1, second_control: rc2 },
            Line::Curve { start: ss, end: se, first_control: sc1, second_control: sc2 },
        ) => rs.x == norm_c(ss.x as int, ox, w) && rs.y == norm_c(ss.y as int, oy, h) && re.x
            == norm_c(se.x as int, ox, w) && re.y == norm_c(se.y as int, oy, h) && rc1.x == norm_c(
            sc1.x as int,
            ox,
            w,
        ) && rc1.y == norm_c(sc1.y as int, oy, h) && rc2.x == norm_c(sc2.x as int, ox, w) && rc2.y
            == norm_c(sc2.y as int, oy, h),
        _ => false,
    }
}

/// `r` is `s` reflected about the unit square's horizontal midline.
pub open spec fn is_flipped_of(r: Line, s: Line) -> bool {
    match (r, s) {
        (Line::Line { start: rs, end: re }, Line::Line { start: ss, end: se }) => rs.x == ss.x
            && rs.y == ONE - ss.y && re.x == se.x && re.y == ONE - se.y,
        (
            Line::Quad { start: rs, end: re, control: rc },
            Line::Quad { start: ss, end: se, control: sc },
        ) => rs.x == ss.x && rs.y == ONE - ss.y && re.x == se.x && re.y == ONE - se.y && rc.x
            == sc.x && rc.y == ONE - sc.y,
        (
            Line::Curve { start: rs, end: re, first_control: rc1, second_control: rc2 },
            Line::Curve { start: ss, end: se, first_control: sc1, second_control: sc2 },
        ) => rs.x == ss.x && rs.y == ONE - ss.y && re.x == se.x && re.y == ONE - se.y && rc1.x
            == sc1.x && rc1.y == ONE - sc1.y && rc2.x == sc2.x && rc2.y == ONE - sc2.y,
        _ => false,
    }
}

impl Line {
    /// The same segment with every coordinate divided by the box size
    /// `(width, height)`, mapping `[0, width] x [0, height]` into the unit
    /// square.
    pub fn normalize_to(&self, width: i64, height: i64) -> (r: Line)
        requires
            self.wf(),
            width != 0,
            height != 0,
            fx_ok(width as int),
            fx_ok(height as int),
        ensures
            is_normalized_of(r, *self, 0, 0, width as int, height as int),
    {
        self.normalize_to_with_offset(0, 0, width, height)
    }

    /// The same segment with the box `[x, x+width] x [y, y+height]` mapped
    /// into the unit square.
    pub fn normalize_to_with_offset(&self, x: i64, y: i64, width: i64, height: i64) -> (r: Line)
        requires
            self.wf(),
            width != 0,
            height != 0,
            fx_ok(x as int),
            fx_ok(y as int),
            fx_ok(width as int),
            fx_ok(height as int),
        ensures
            is_normalized_of(r, *self, x as int, y as int, width as int, height as int),
            r == normalized_seg(*self, x as int, y as int, width as int, height as int),
    {
        proof {
            match *self {
                Line::Line { start, end } => {
                    lemma_norm_c_fits(start.x as int, x as int, width as int);
                    lemma_norm_c_fits(start.y as int, y as int, height as int);
                    lemma_norm_c_fits(end.x as int, x as int, width as int);
                    lemma_norm_c_fits(end.y as int, y as int, height as int);
                },
                Line::Quad { start, end, control } => {
                    lemma_norm_c_fits(start.x as int, x as int, width as int);
                    lemma_norm_c_fits(start.y as int, y as int, height as int);
                    lemma_norm_c_fits(end.x as int, x as int, width as int);
                    lemma_norm_c_fits(end.y as int, y as int, height as int);
                    lemma_norm_c_fits(control.x as int, x as int, width as int);
                    lemma_norm_c_fits(control.y as int, y as int, height as int);
                },
                Line::Curve { start, end, first_control, second_control } => {
                    lemma_norm_c_fits(start.x as int, x as int, width as int);
                    lemma_norm_c_fits(start.y as int, y as int, height as int);
                    lemma_norm_c_fits(end.x as int, x as int, width as int);
                    lemma_norm_c_fits(end.y as int, y as int, height as int);
                    lemma_norm_c_fits(first_control.x as int, x as int, width as int);
                    lemma_norm_c_fits(first_control.y as int, y as int, height as int);
                    lemma_norm_c_fits(second_control.x as int, x as int, width as int);
                    lemma_norm_c_fits(second_control.y as int, y as int, height as int);
                },
            }
        }
        match *self {
            Line::Line { start, end } => Line::Line {
                start: Vec2 { x: norm_c_exec(start.x, x, width), y: norm_c_exec(start.y, y, height) },
                end: Vec2 { x: norm_c_exec(end.x, x, width), y: norm_c_exec(end.y, y, height) },
            },
            Line::Quad { start, end, control } => Line::Quad {
                start: Vec2 { x: norm_c_exec(start.x, x, width), y: norm_c_exec(start.y, y, height) },
                end: Vec2 { x: norm_c_exec(end.x, x, width), y: norm_c_exec(end.y, y, height) },
                control: Vec2 {
                    x: norm_c_exec(control.x, x, width),
                    y: norm_c_exec(control.y, y, height),
                },
            },
            Line::Curve { start, end, first_control, second_control } => Line::Curve {
                start: Vec2 { x: norm_c_exec(start.x, x, width), y: norm_c_exec(start.y, y, height) },
                end: Vec2 { x: norm_c_exec(end.x, x, width), y: norm_c_exec(end.y, y, height) },
                first_control: Vec2 {
                    x: norm_c_exec(first_control.x, x, width),
                    y: norm_c_exec(first_control.y, y, height),
                },
                second_control: Vec2 {
                    x: norm_c_exec(second_control.x, x, width),
                    y: norm_c_exec(second_control.y, y, height),
                },
            },
        }
    }

    /// In-place form of [`Line::normalize_to`].
    pub fn normalize(&mut self, width: i64, height: i64)
        requires
            old(self).wf(),
            width != 0,
            height != 0,
            fx_ok(width as int),
            fx_ok(height as int),
        ensures
            is_normalized_of(*final(self), *old(self), 0, 0, width as int, height as int),
    {
        *self = self.normalize_to(width, height);
    }

    /// In-place form of [`Line::normalize_to_with_offset`].
    pub fn normalize_with_offset(&mut self, x: i64, y: i64, width: i64, height: i64)
        requires
            old(self).wf(),
            width != 0,
            height != 0,
            fx_ok(x as int),
            fx_ok(y as int),
            fx_ok(width as int),
            fx_ok(height as int),
        ensures
            is_normalized_of(
                *final(self),
                *old(self),
                x as int,
                y as int,
                width as int,
                height as int,
            ),
    {
        *self = self.normalize_to_with_offset(x, y, width, height);
    }

    /// Reflect the y coordinates about the unit square's midline
    /// (`y' = 1 - y`); meant for segments already in the unit square.
    pub fn flip_y(&mut self)
        requires
            old(self).wf(),
        ensures
            is_flipped_of(*final(self), *old(self)),
    {
        let flipped = match *self {
            Line::Line { start, end } => Line::Line {
                start: Vec2 { x: start.x, y: ONE - start.y },
                end: Vec2 { x: end.x, y: ONE - end.y },
            },
            Line::Quad { start, end, control } => Line::Quad {
                start: Vec2 { x: start.x, y: ONE - start.y },
                end: Vec2 { x: end.x, y: ONE - end.y },
                control: Vec2 { x: control.x, y: ONE - control.y },
            },
            Line::Curve { start, end, first_control, second_control } => Line::Curve {
                start: Vec2 { x: start.x, y: ONE - start.y },
                end: Vec2 { x: end.x, y: ONE - end.y },
                first_control: Vec2 { x: first_control.x, y: ONE - first_control.y },
                second_control: Vec2 { x: second_control.x, y: ONE - second_control.y },
            },
        };
        *self = flipped;
    }
}

/// Squared distances to a straight segment scale by `k^2` up to `k^2 - 1`
/// when segment and query point are both scaled by `k`.
proof fn lemma_line_dist_sq_scales(sx: int, sy: int, ex: int, ey: int, px: int, py: int, k: int)
    requires
        1 <= k,
    ensures
        k * k * line_dist_sq(sx, sy, ex, ey, px, py) <= line_dist_sq(
            k * sx,
            k * sy,
            k * ex,
            k * ey,
            k * px,
            k * py,
        ),
        line_dist_sq(k * sx, k * sy, k * ex, k * ey, k * px, k * py) <= k * k * line_dist_sq(
            sx,
            sy,
            ex,
            ey,
            px,
            py,
        ) + k * k - 1,
{
    let bax = ex - sx;
    let bay = ey - sy;
    let pax = px - sx;
    let pay = py - sy;
    let dd = pax * bax + pay * bay;
    let bb = bax * bax + bay * bay;
    let cr = pax * bay - pay * bax;
    let pasq = pax * pax + pay * pay;
    let pesq = (px - ex) * (px - ex) + (py - ey) * (py - ey);
    let kk = k * k;
    let bax2 = k * ex - k * sx;
    let bay2 = k * ey - k * sy;
    let pax2 = k * px - k * sx;
    let pay2 = k * py - k * sy;
    assert(k * ex - k * sx == k * (ex - sx)) by (nonlinear_arith);
    assert(k * ey - k * sy == k * (ey - sy)) by (nonlinear_arith);
    assert(k * px - k * sx == k * (px - sx)) by (nonlinear_arith);
    assert(k * py - k * sy == k * (py - sy)) by (nonlinear_arith);
    assert forall|u: int, w: int| #[trigger] ((k * u) * (k * w)) == kk * (u * w) by {
        assert((k * u) * (k * w) == kk * (u * w)) by (nonlinear_arith)
            requires
                kk == k * k;
    }
    assert(k * px - k * ex == k * (px - ex) && k * py - k * ey == k * (py - ey))
        by (nonlinear_arith);
    assert((k * pax) * (k * bax) + (k * pay) * (k * bay) == kk * (pax * bax) + kk * (pay * bay));
    assert(kk * (pax * bax) + kk * (pay * bay) == kk * dd) by (nonlinear_arith)
        requires
            dd == pax * bax + pay * bay;
    assert(pax2 * bax2 + pay2 * bay2 == kk * dd);
    assert(kk * (bax * bax) + kk * (bay * bay) == kk * bb) by (nonlinear_arith)
        requires
            bb == bax * bax + bay * bay;
    assert(bax2 * bax2 + bay2 * bay2 == kk * bb);
    assert(kk * (pax * pax) + kk * (pay * pay) == kk * pasq) by (nonlinear_arith)
        requires
            pasq == pax * pax + pay * pay;
    assert(pax2 * pax2 + pay2 * pay2 == kk * pasq);
    assert(kk * ((px - ex) * (px - ex)) + kk * ((py - ey) * (py - ey)) == kk * pesq)
        by (nonlinear_arith)
        requires
            pesq == (px - ex) * (px - ex) + (py - ey) * (py - ey);
    assert((k * px - k * ex) * (k * px - k * ex) + (k * py - k * ey) * (k * py - k * ey) == kk
        * pesq);
    assert((k * pax) * (k * bay) == kk * (pax * bay)) by (nonlinear_arith)
        requires
            kk == k * k;
    assert((k * pay) * (k * bax) == kk * (pay * bax)) by (nonlinear_arith)
        requires
            kk == k * k;
    assert(kk * (pax * bay) - kk * (pay * bax) == kk * (pax * bay - pay * bax))
        by (nonlinear_arith);
    assert(pax2 * bay2 - pay2 * bax2 == kk * cr);
    assert(0 < kk) by (nonlinear_arith)
        requires
            kk == k * k,
            1 <= k;
    assert((kk * dd <= 0) == (dd <= 0) && (kk * bb == 0) == (bb == 0) && (kk * dd >= kk * bb) == (
    dd >= bb)) by (nonlinear_arith)
        requires
            0 < kk;
    if dd <= 0 || bb == 0 {
        assert(kk * pasq <= kk * pasq + kk - 1) by (nonlinear_arith)
            requires
                0 < kk;
    } else if dd >= bb {
        assert(kk * pesq <= kk * pesq + kk - 1) by (nonlinear_arith)
            requires
                0 < kk;
    } else {
        let nn = cr * cr;
        let bigq = (kk * cr) * (kk * cr);
        assert(0 <= nn && bigq == kk * (kk * nn) && 0 <= kk * nn && 0 <= bb) by (nonlinear_arith)
            requires
                nn == cr * cr,
                bigq == (kk * cr) * (kk * cr),
                bb == bax * bax + bay * bay,
                0 < kk;
        assert(0 < bb);
        lemma_div_multiples_vanish_quotient(kk, kk * nn, bb);
        assert(bigq / (kk * bb) == (kk * nn) / bb);
        lemma_fundamental_div_mod(nn, bb);
        lemma_fundamental_div_mod(kk * nn, bb);
        let q = nn / bb;
        let rem = nn % bb;
        let bq = (kk * nn) / bb;
        let brem = (kk * nn) % bb;
        assert(kk * q <= bq && bq <= kk * q + kk - 1) by (nonlinear_arith)
            requires
                nn == bb * q + rem,
                0 <= rem,
                rem < bb,
                kk * nn == bb * bq + brem,
                0 <= brem,
                brem < bb,
                0 < bb,
                0 < kk;
    }
}

/// Law: scaling a straight segment together with the query point by an
/// integer factor `k` scales the nearest distance by `k`, up to the
/// fixed-point quantum: `k*d <= d' < k*(d + 1)`.
pub proof fn lemma_line_distance_scales(
    sx: int,
    sy: int,
    ex: int,
    ey: int,
    px: int,
    py: int,
    k: int,
)
    requires
        1 <= k,
    ensures
        k * sqrt_floor(line_dist_sq(sx, sy, ex, ey, px, py)) <= sqrt_floor(
            line_dist_sq(k * sx, k * sy, k * ex, k * ey, k * px, k * py),
        ),
        sqrt_floor(line_dist_sq(k * sx, k * sy, k * ex, k * ey, k * px, k * py)) < k * (sqrt_floor(
            line_dist_sq(sx, sy, ex, ey, px, py),
        ) + 1),
{
    lemma_line_dist_sq_nonneg(sx, sy, ex, ey, px, py);
    lemma_line_dist_sq_scales(sx, sy, ex, ey, px, py, k);
    lemma_sqrt_floor_scales(
        line_dist_sq(sx, sy, ex, ey, px, py),
        line_dist_sq(k * sx, k * sy, k * ex, k * ey, k * px, k * py),
        k,
    );
}

/// A coordinate that is an exact multiple of the box scale is divided
/// exactly by the box transform.
pub proof fn lemma_norm_c_exact(c: int, m: int)
    requires
        1 <= m,
    ensures
        norm_c(m * c, 0, m * ONE) == c,
{
    assert(0 < m * ONE) by (nonlinear_arith)
        requires
            1 <= m,
            ONE == 65536;
    assert((m * c - 0) * ONE == (m * ONE) * c) by (nonlinear_arith);
    lemma_div_multiples_vanish(c, m * ONE);
}

/// Law: normalizing a straight segment by the uniform box `(m*ONE, m*ONE)`
/// divides exact-multiple coordinates by `m`, and the distance on the
/// original segment equals the distance on the normalized segment at the
/// pre-divided query point, scaled by `m` up to the fixed-point quantum.
pub proof fn lemma_line_normalize_round_trip(
    sx: int,
    sy: int,
    ex: int,
    ey: int,
    px: int,
    py: int,
    m: int,
)
    requires
        1 <= m,
    ensures
        norm_c(m * sx, 0, m * ONE) == sx,
        norm_c(m * sy, 0, m * ONE) == sy,
        norm_c(m * ex, 0, m * ONE) == ex,
        norm_c(m * ey, 0, m * ONE) == ey,
        m * sqrt_floor(line_dist_sq(sx, sy, ex, ey, px, py)) <= sqrt_floor(
            line_dist_sq(m * sx, m * sy, m * ex, m * ey, m * px, m * py),
        ),
        sqrt_floor(line_dist_sq(m * sx, m * sy, m * ex, m * ey, m * px, m * py)) < m * (sqrt_floor(
            line_dist_sq(sx, sy, ex, ey, px, py),
        ) + 1),
{
    lemma_norm_c_exact(sx, m);
    lemma_norm_c_exact(sy, m);
    lemma_norm_c_exact(ex, m);
    lemma_norm_c_exact(ey, m);
    lemma_line_distance_scales(sx, sy, ex, ey, px, py, m);
}

/// Whether the row at height `y` meets the straight segment's y-range; the
/// convention is closed on the upward branch and half-open on the downward
/// one, exactly as the distance-field assembly expects.
pub open spec fn line_hits(sy: int, ey: int, y: int) -> bool {
    (y >= sy && y <= ey) || (y >= ey && y < sy)
}

/// The x coordinate where the straight segment meets the row at `y`; a
/// horizontal segment lying on its row reports its start x.
pub open spec fn line_hit_x(sx: int, sy: int, ex: int, ey: int, y: int) -> int {
    if ey == sy {
        sx
    } else {
        let h = if ey > sy {
            ((y - sy) * ONE) / (ey - sy)
        } else {
            ((sy - y) * ONE) / (sy - ey)
        };
        sx + ((ex - sx) * h) / (ONE as int)
    }
}

/// Curve-parameter roots of the aligned quadratic `y(t) = 0`, by the
/// quadratic formula in Bernstein coefficients with a linear fallback for a
/// vanishing leading coefficient; a negative discriminant yields no roots.
pub open spec fn quad_hit_ts(ay: int, by: int, cy: int) -> Seq<int> {
    let d = ay - 2 * by + cy;
    if d != 0 {
        let disc = by * by - ay * cy;
        if disc < 0 {
            Seq::empty()
        } else {
            let m1 = -sqrt_floor(disc);
            let m2 = -ay + by;
            let r0 = sdiv_s(-(m1 + m2) * ONE, d);
            let r1 = sdiv_s((m1 - m2) * ONE, d);
            let s0: Seq<int> = if 0 <= r0 <= ONE {
                seq![r0]
            } else {
                Seq::empty()
            };
            if r1 != r0 && 0 <= r1 <= ONE {
                s0.push(r1)
            } else {
                s0
            }
        }
    } else if by != cy {
        let r0 = sdiv_s((2 * by - cy) * ONE, 2 * by - 2 * cy);
        if 0 <= r0 <= ONE {
            seq![r0]
        } else {
            Seq::empty()
        }
    } else {
        Seq::empty()
    }
}

/// Bisection on the aligned cubic between two parameters of opposite sign:
/// narrows the bracket to one fixed-point unit and reports its lower end.
pub open spec fn bisect_t(ay: int, by: int, cy: int, dy: int, lo: int, hi: int) -> int
    decreases hi - lo,
{
    if hi - lo <= 1 {
        lo
    } else {
        let mid = lo + (hi - lo) / 2;
        let fm = cubic_coord(ay, by, cy, dy, mid);
        if fm == 0 {
            mid
        } else if (fm < 0) == (cubic_coord(ay, by, cy, dy, lo) < 0) {
            bisect_t(ay, by, cy, dy, mid, hi)
        } else {
            bisect_t(ay, by, cy, dy, lo, mid)
        }
    }
}

/// Roots of the aligned cubic found by the sign-change scan over the first
/// `i` sample intervals: a sample that evaluates to zero is a root, and an
/// interval whose ends have strictly opposite signs is bisected.
pub open spec fn cubic_root_ts_upto(ay: int, by: int, cy: int, dy: int, i: int) -> Seq<int>
    decreases i,
{
    if i <= 0 {
        Seq::empty()
    } else {
        let s = cubic_root_ts_upto(ay, by, cy, dy, i - 1);
        let t0 = tsamp(0, ONE as int, i - 1);
        let t1 = tsamp(0, ONE as int, i);
        let f0 = cubic_coord(ay, by, cy, dy, t0);
        let f1 = cubic_coord(ay, by, cy, dy, t1);
        if f0 == 0 {
            s.push(t0)
        } else if (f0 < 0 && f1 > 0) || (f0 > 0 && f1 < 0) {
            s.push(bisect_t(ay, by, cy, dy, t0, t1))
        } else {
            s
        }
    }
}

/// All scan roots of the aligned cubic over the full parameter range.
pub open spec fn cubic_root_ts(ay: int, by: int, cy: int, dy: int) -> Seq<int> {
    let s = cubic_root_ts_upto(ay, by, cy, dy, 30);
    if cubic_coord(ay, by, cy, dy, ONE as int) == 0 {
        s.push(ONE as int)
    } else {
        s
    }
}

/// The x coordinates at which the segment crosses the horizontal row at
/// height `y`, in the order the root solver reports them, capped at three.
pub open spec fn hits(seg: Line, y: int) -> Seq<int> {
    match seg {
        Line::Line { start, end } => if line_hits(start.y as int, end.y as int, y) {
            seq![line_hit_x(start.x as int, start.y as int, end.x as int, end.y as int, y)]
        } else {
            Seq::empty()
        },
        Line::Quad { start, end, control } => {
            let miny = vstd::math::min(
                start.y as int,
                vstd::math::min(control.y as int, end.y as int),
            );
            let maxy = vstd::math::max(
                start.y as int,
                vstd::math::max(control.y as int, end.y as int),
            );
            if y < miny || y > maxy {
                Seq::empty()
            } else {
                quad_hit_ts(start.y - y, control.y - y, end.y - y).map_values(
                    |t: int| quad_coord(start.x as int, control.x as int, end.x as int, t),
                )
            }
        },
        Line::Curve { start, end, first_control, second_control } => {
            let ts = cubic_root_ts(
                start.y - y,
                first_control.y - y,
                second_control.y - y,
                end.y - y,
            );
            let tc = if ts.len() <= 3 {
                ts
            } else {
                ts.take(3)
            };
            tc.map_values(
                |t: int| cubic_coord(
                    start.x as int,
                    first_control.x as int,
                    second_control.x as int,
                    end.x as int,
                    t,
                ),
            )
        },
    }
}

/// Consecutive sample parameters over the full range are strictly apart.
proof fn lemma_tsamp_strict(i: int)
    requires
        1 <= i <= 30,
    ensures
        tsamp(0, ONE as int, i - 1) < tsamp(0, ONE as int, i),
{
    let one = ONE as int;
    let a = (one - 0) * (i - 1);
    let b = (one - 0) * i;
    assert((one - 0) * i == (one - 0) * (i - 1) + one) by (nonlinear_arith);
    lemma_fundamental_div_mod(a, 30);
    lemma_fundamental_div_mod(b, 30);
    let q = a / 30;
    let ra = a % 30;
    let bq = b / 30;
    let rb = b % 30;
    assert(q < bq) by (nonlinear_arith)
        requires
            a == 30 * q + ra,
            0 <= ra < 30,
            b == 30 * bq + rb,
            0 <= rb < 30,
            b == a + one,
            one == 65536;
}

/// Bisection between two parameters where the aligned cubic has strictly
/// opposite signs.
fn bisect_exec(ay: i64, by: i64, cy: i64, dy: i64, lo: i64, hi: i64) -> (r: i64)
    requires
        -2 * COORD_LIMIT <= ay <= 2 * COORD_LIMIT,
        -2 * COORD_LIMIT <= by <= 2 * COORD_LIMIT,
        -2 * COORD_LIMIT <= cy <= 2 * COORD_LIMIT,
        -2 * COORD_LIMIT <= dy <= 2 * COORD_LIMIT,
        0 <= lo < hi <= ONE,
    ensures
        r == bisect_t(ay as int, by as int, cy as int, dy as int, lo as int, hi as int),
        lo <= r < hi,
{
    let mut l: i64 = lo;
    let mut h: i64 = hi;
    while h - l > 1
        invariant
            -2 * COORD_LIMIT <= ay <= 2 * COORD_LIMIT,
            -2 * COORD_LIMIT <= by <= 2 * COORD_LIMIT,
            -2 * COORD_LIMIT <= cy <= 2 * COORD_LIMIT,
            -2 * COORD_LIMIT <= dy <= 2 * COORD_LIMIT,
            0 <= lo <= l < h <= hi <= ONE,
            bisect_t(ay as int, by as int, cy as int, dy as int, l as int, h as int) == bisect_t(
                ay as int,
                by as int,
                cy as int,
                dy as int,
                lo as int,
                hi as int,
            ),
        decreases h - l,
    {
        let mid: i64 = l + crate::fixed::fdiv(h - l, 2);
        let fm = cubic_c(ay, by, cy, dy, mid);
        if fm == 0 {
            return mid;
        }
        let fl = cubic_c(ay, by, cy, dy, l);
        if (fm < 0) == (fl < 0) {
            l = mid;
        } else {
            h = mid;
        }
    }
    l
}

impl Line {
    /// The x coordinates where the segment crosses the horizontal row at
    /// height `y`: up to one for a straight segment, two for a quadratic
    /// (quadratic formula with a linear fallback), three for a cubic.
    ///
    /// Cubic roots come from a sign-change scan of 30 parameter intervals,
    /// each bracket narrowed by bisection to one fixed-point unit (the
    /// trigonometric closed form has no integer counterpart); a tangent
    /// touch without a sign change is not reported, which matches what the
    /// even-odd interior rule expects of a crossing count.
    pub fn intersections(&self, y: i64) -> (r: (usize, [i64; 3]))
        requires
            self.wf(),
            fx_ok(y as int),
        ensures
            r.0 == hits(*self, y as int).len(),
            r.0 <= 3,
            forall|j: int| 0 <= j < r.0 ==> r.1[j] == hits(*self, y as int)[j],
    {
        match *self {
            Line::Line { start, end } => {
                let hit = (y >= start.y && y <= end.y) || (y >= end.y && y < start.y);
                if !hit {
                    (0, [0i64, 0i64, 0i64])
                } else {
                    let x: i64 = if end.y == start.y {
                        start.x
                    } else {
                        let h: i64 = if end.y > start.y {
                            let d: i64 = end.y - start.y;
                            proof {
                                lemma_mul_bound(
                                    (y - start.y) as int,
                                    ONE as int,
                                    2 * COORD_LIMIT as int,
                                    ONE as int,
                                );
                            }
                            let hv = crate::fixed::fdiv((y - start.y) * ONE, d);
                            proof {
                                assert((y - start.y) * ONE <= d * ONE) by (nonlinear_arith)
                                    requires
                                        y - start.y <= d,
                                        ONE == 65536;
                                assert(0 <= (y - start.y) * ONE) by (nonlinear_arith)
                                    requires
                                        0 <= y - start.y,
                                        ONE == 65536;
                                lemma_div_is_ordered(0, (y - start.y) * ONE, d as int);
                                lemma_div_is_ordered((y - start.y) * ONE, d * ONE, d as int);
                                lemma_div_multiples_vanish(ONE as int, d as int);
                                assert(d * ONE == (d as int) * (ONE as int));
                                assert(0int / (d as int) == 0) by (nonlinear_arith)
                                    requires
                                        0 < d;
                            }
                            hv
                        } else {
                            let d: i64 = start.y - end.y;
                            proof {
                                lemma_mul_bound(
                                    (start.y - y) as int,
                                    ONE as int,
                                    2 * COORD_LIMIT as int,
                                    ONE as int,
                                );
                            }
                            let hv = crate::fixed::fdiv((start.y - y) * ONE, d);
                            proof {
                                assert((start.y - y) * ONE <= d * ONE) by (nonlinear_arith)
                                    requires
                                        start.y - y <= d,
                                        ONE == 65536;
                                assert(0 <= (start.y - y) * ONE) by (nonlinear_arith)
                                    requires
                                        0 <= start.y - y,
                                        ONE == 65536;
                                lemma_div_is_ordered(0, (start.y - y) * ONE, d as int);
                                lemma_div_is_ordered((start.y - y) * ONE, d * ONE, d as int);
                                lemma_div_multiples_vanish(ONE as int, d as int);
                                assert(0int / (d as int) == 0) by (nonlinear_arith)
                                    requires
                                        0 < d;
                            }
                            hv
                        };
                        proof {
                            lemma_mul_bound(
                                (end.x - start.x) as int,
                                h as int,
                                2 * COORD_LIMIT as int,
                                ONE as int,
                            );
                        }
                        start.x + crate::fixed::fdiv((end.x - start.x) * h, ONE)
                    };
                    (1, [x, 0i64, 0i64])
                }
            },
            Line::Quad { start, end, control } => {
                let mut mn: i64 = start.y;
                if control.y < mn {
                    mn = control.y;
                }
                if end.y < mn {
                    mn = end.y;
                }
                let mut mx: i64 = start.y;
                if control.y > mx {
                    mx = control.y;
                }
                if end.y > mx {
                    mx = end.y;
                }
                if y < mn || y > mx {
                    (0, [0i64, 0i64, 0i64])
                } else {
                    let ay: i64 = start.y - y;
                    let by: i64 = control.y - y;
                    let cy: i64 = end.y - y;
                    let d: i64 = ay - 2 * by + cy;
                    if d != 0 {
                        proof {
                            lemma_mul_bound(
                                by as int,
                                by as int,
                                2 * COORD_LIMIT as int,
                                2 * COORD_LIMIT as int,
                            );
                            lemma_mul_bound(
                                ay as int,
                                cy as int,
                                2 * COORD_LIMIT as int,
                                2 * COORD_LIMIT as int,
                            );
                        }
                        let disc: i64 = by * by - ay * cy;
                        if disc < 0 {
                            (0, [0i64, 0i64, 0i64])
                        } else {
                            let sq = isqrt(disc);
                            proof {
                                assert(sq <= 0x4000_0000) by (nonlinear_arith)
                                    requires
                                        0 <= sq,
                                        sq * sq <= disc,
                                        disc <= 0x800_0000_0000_0000;
                            }
                            let m1: i64 = -sq;
                            let m2: i64 = -ay + by;
                            proof {
                                lemma_mul_bound(
                                    (-(m1 + m2)) as int,
                                    ONE as int,
                                    0x1_0000_0000,
                                    ONE as int,
                                );
                                lemma_mul_bound((m1 - m2) as int, ONE as int, 0x1_0000_0000, ONE as int);
                            }
                            let r0 = crate::fixed::sdiv((-(m1 + m2)) * ONE, d);
                            let r1 = crate::fixed::sdiv((m1 - m2) * ONE, d);
                            let mut cnt: usize = 0;
                            let mut o0: i64 = 0;
                            let mut o1: i64 = 0;
                            if 0 <= r0 && r0 <= ONE {
                                o0 = quad_c(start.x, control.x, end.x, r0);
                                cnt = 1;
                            }
                            if r1 != r0 && 0 <= r1 && r1 <= ONE {
                                let xv = quad_c(start.x, control.x, end.x, r1);
                                if cnt == 0 {
                                    o0 = xv;
                                } else {
                                    o1 = xv;
                                }
                                cnt = cnt + 1;
                            }
                            (cnt, [o0, o1, 0i64])
                        }
                    } else if by != cy {
                        proof {
                            lemma_mul_bound(
                                (2 * by - cy) as int,
                                ONE as int,
                                6 * COORD_LIMIT as int,
                                ONE as int,
                            );
                        }
                        let r0 = crate::fixed::sdiv((2 * by - cy) * ONE, 2 * by - 2 * cy);
                        if 0 <= r0 && r0 <= ONE {
                            (1, [quad_c(start.x, control.x, end.x, r0), 0i64, 0i64])
                        } else {
                            (0, [0i64, 0i64, 0i64])
                        }
                    } else {
                        (0, [0i64, 0i64, 0i64])
                    }
                }
            },
            Line::Curve { start, end, first_control, second_control } => {
                let ay: i64 = start.y - y;
                let by: i64 = first_control.y - y;
                let cy: i64 = second_control.y - y;
                let dy: i64 = end.y - y;
                let mut cnt: usize = 0;
                let mut o0: i64 = 0;
                let mut o1: i64 = 0;
                let mut o2: i64 = 0;
                let mut prev_t: i64 = 0;
                let mut prev_f: i64 = cubic_c(ay, by, cy, dy, 0);
                proof {
                    lemma_tsamp_range(0, ONE as int, 0);
                }
                let ghost fx = |t: int| cubic_coord(
                    start.x as int,
                    first_control.x as int,
                    second_control.x as int,
                    end.x as int,
                    t,
                );
                let mut i: usize = 1;
                while i <= 30
                    invariant
                        self.wf(),
                        *self == (Line::Curve { start, end, first_control, second_control }),
                        fx_ok(y as int),
                        ay == start.y - y,
                        by == first_control.y - y,
                        cy == second_control.y - y,
                        dy == end.y - y,
                        fx == (|t: int| cubic_coord(
                            start.x as int,
                            first_control.x as int,
                            second_control.x as int,
                            end.x as int,
                            t,
                        )),
                        1 <= i <= 31,
                        prev_t == tsamp(0, ONE as int, i - 1),
                        0 <= prev_t <= ONE,
                        prev_f == cubic_coord(ay as int, by as int, cy as int, dy as int, prev_t as int),
                        ({
                            let ts = cubic_root_ts_upto(ay as int, by as int, cy as int, dy as int, i - 1);
                            cnt == vstd::math::min(ts.len() as int, 3) && (cnt >= 1 ==> o0 == fx(
                                ts[0],
                            )) && (cnt >= 2 ==> o1 == fx(ts[1])) && (cnt >= 3 ==> o2 == fx(ts[2]))
                        }),
                    decreases 31 - i,
                {
                    let t = tsamp_exec(0, ONE, i as i64);
                    let f = cubic_c(ay, by, cy, dy, t);
                    if prev_f == 0 {
                        let xv = cubic_c(start.x, first_control.x, second_control.x, end.x, prev_t);
                        if cnt == 0 {
                            o0 = xv;
                            cnt = 1;
                        } else if cnt == 1 {
                            o1 = xv;
                            cnt = 2;
                        } else if cnt == 2 {
                            o2 = xv;
                            cnt = 3;
                        }
                    } else if (prev_f < 0 && f > 0) || (prev_f > 0 && f < 0) {
                        proof {
                            lemma_tsamp_strict(i as int);
                        }
                        let bt = bisect_exec(ay, by, cy, dy, prev_t, t);
                        let xv = cubic_c(start.x, first_control.x, second_control.x, end.x, bt);
                        if cnt == 0 {
                            o0 = xv;
                            cnt = 1;
                        } else if cnt == 1 {
                            o1 = xv;
                            cnt = 2;
                        } else if cnt == 2 {
                            o2 = xv;
                            cnt = 3;
                        }
                    }
                    prev_t = t;
                    prev_f = f;
                    i = i + 1;
                }
                if prev_f == 0 {
                    let xv = cubic_c(start.x, first_control.x, second_control.x, end.x, prev_t);
                    if cnt == 0 {
                        o0 = xv;
                        cnt = 1;
                    } else if cnt == 1 {
                        o1 = xv;
                        cnt = 2;
                    } else if cnt == 2 {
                        o2 = xv;
                        cnt = 3;
                    }
                }
                proof {
                    lemma_tsamp_range(0, ONE as int, 30);
                }
                (cnt, [o0, o1, o2])
            },
        }
    }
}

/// Every coordinate of the segment has magnitude at most `m`.
pub open spec fn seg_bounded(seg: Line, m: int) -> bool {
    match seg {
        Line::Line { start, end } => -m <= start.x <= m && -m <= start.y <= m && -m <= end.x <= m
            && -m <= end.y <= m,
        Line::Quad { start, end, control } => -m <= start.x <= m && -m <= start.y <= m && -m
            <= end.x <= m && -m <= end.y <= m && -m <= control.x <= m && -m <= control.y <= m,
        Line::Curve { start, end, first_control, second_control } => -m <= start.x <= m && -m
            <= start.y <= m && -m <= end.x <= m && -m <= end.y <= m && -m <= first_control.x <= m
            && -m <= first_control.y <= m && -m <= second_control.x <= m && -m <= second_control.y
            <= m,
    }
}

/// The box transform as a function on whole segments.
pub open spec fn normalized_seg(s: Line, ox: int, oy: int, w: int, h: int) -> Line {
    match s {
        Line::Line { start, end } => Line::Line {
            start: Vec2 {
                x: norm_c(start.x as int, ox, w) as i64,
                y: norm_c(start.y as int, oy, h) as i64,
            },
            end: Vec2 {
                x: norm_c(end.x as int, ox, w) as i64,
                y: norm_c(end.y as int, oy, h) as i64,
            },
        },
        Line::Quad { start, end, control } => Line::Quad {
            start: Vec2 {
                x: norm_c(start.x as int, ox, w) as i64,
                y: norm_c(start.y as int, oy, h) as i64,
            },
            end: Vec2 {
                x: norm_c(end.x as int, ox, w) as i64,
                y: norm_c(end.y as int, oy, h) as i64,
            },
            control: Vec2 {
                x: norm_c(control.x as int, ox, w) as i64,
                y: norm_c(control.y as int, oy, h) as i64,
            },
        },
        Line::Curve { start, end, first_control, second_control } => Line::Curve {
            start: Vec2 {
                x: norm_c(start.x as int, ox, w) as i64,
                y: norm_c(start.y as int, oy, h) as i64,
            },
            end: Vec2 {
                x: norm_c(end.x as int, ox, w) as i64,
                y: norm_c(end.y as int, oy, h) as i64,
            },
            first_control: Vec2 {
                x: norm_c(first_control.x as int, ox, w) as i64,
                y: norm_c(first_control.y as int, oy, h) as i64,
            },
            second_control: Vec2 {
                x: norm_c(second_control.x as int, ox, w) as i64,
                y: norm_c(second_control.y as int, oy, h) as i64,
            },
        },
    }
}

/// Every remapped coordinate fits an `i64`, so the functional remap agrees
/// with the relational one.
pub proof fn lemma_norm_c_fits(c: int, o: int, wh: int)
    requires
        fx_ok(c),
        fx_ok(o),
        fx_ok(wh),
        wh != 0,
    ensures
        -0x4000_0000_0000_0000 <= norm_c(c, o, wh) <= 0x4000_0000_0000_0000,
{
    let n = (c - o) * ONE;
    let cl = COORD_LIMIT as int;
    assert(-(2 * cl * (ONE as int)) <= n <= 2 * cl * (ONE as int)) by (nonlinear_arith)
        requires
            n == (c - o) * ONE,
            -cl <= c <= cl,
            -cl <= o <= cl,
            ONE == 65536,
            cl == 0x1000_0000;
    let b = 2 * cl * (ONE as int);
    if wh > 0 {
        assert(b * wh >= b && -(b * wh) <= -b) by (nonlinear_arith)
            requires
                wh >= 1,
                b > 0;
        crate::fixed::lemma_div_bound_sym(n, wh, b);
    } else {
        assert(b * (-wh) >= b && -(b * (-wh)) <= -b) by (nonlinear_arith)
            requires
                -wh >= 1,
                b > 0;
        crate::fixed::lemma_div_bound_sym(-n, -wh, b);
    }
}

/// A padded remap keeps coordinates in the range the curve math accepts:
/// with at most one unit of offset and a box of at least one unit, a
/// coordinate within half the limit stays within the limit.
pub proof fn lemma_norm_c_wf(c: int, o: int, wh: int)
    requires
        -(COORD_LIMIT as int) / 2 <= c <= (COORD_LIMIT as int) / 2,
        -(ONE as int) <= o <= 0,
        ONE <= wh,
    ensures
        fx_ok(norm_c(c, o, wh)),
{
    let m = (COORD_LIMIT as int) / 2 + ONE;
    let n = (c - o) * ONE;
    assert(-(m * wh) <= n <= m * wh) by (nonlinear_arith)
        requires
            n == (c - o) * ONE,
            -m + (ONE as int) <= c <= m - (ONE as int),
            -(ONE as int) <= o <= 0,
            (ONE as int) <= wh,
            ONE == 65536;
    crate::fixed::lemma_div_bound_sym(n, wh, m);
}

/// The padded remap keeps a half-range segment well formed.
pub proof fn lemma_normalized_wf(seg: Line, ox: int, oy: int, w: int, h: int)
    requires
        seg_bounded(seg, (COORD_LIMIT as int) / 2),
        -(ONE as int) <= ox <= 0,
        -(ONE as int) <= oy <= 0,
        ONE <= w,
        ONE <= h,
    ensures
        normalized_seg(seg, ox, oy, w, h).wf(),
{
    match seg {
        Line::Line { start, end } => {
            lemma_norm_c_wf(start.x as int, ox, w);
            lemma_norm_c_wf(start.y as int, oy, h);
            lemma_norm_c_wf(end.x as int, ox, w);
            lemma_norm_c_wf(end.y as int, oy, h);
        },
        Line::Quad { start, end, control } => {
            lemma_norm_c_wf(start.x as int, ox, w);
            lemma_norm_c_wf(start.y as int, oy, h);
            lemma_norm_c_wf(end.x as int, ox, w);
            lemma_norm_c_wf(end.y as int, oy, h);
            lemma_norm_c_wf(control.x as int, ox, w);
            lemma_norm_c_wf(control.y as int, oy, h);
        },
        Line::Curve { start, end, first_control, second_control } => {
            lemma_norm_c_wf(start.x as int, ox, w);
            lemma_norm_c_wf(start.y as int, oy, h);
            lemma_norm_c_wf(end.x as int, ox, w);
            lemma_norm_c_wf(end.y as int, oy, h);
            lemma_norm_c_wf(first_control.x as int, ox, w);
            lemma_norm_c_wf(first_control.y as int, oy, h);
            lemma_norm_c_wf(second_control.x as int, ox, w);
            lemma_norm_c_wf(second_control.y as int, oy, h);
        },
    }
}

/// A segment within half the coordinate limit is well formed.
pub proof fn lemma_bounded_wf(seg: Line)
    requires
        seg_bounded(seg, (COORD_LIMIT as int) / 2),
    ensures
        seg.wf(),
{
    match seg {
        Line::Line { start, end } => {},
        Line::Quad { start, end, control } => {},
        Line::Curve { start, end, first_control, second_control } => {},
    }
}

/// Law: the bisection result is certified. Started on a bracket whose ends
/// have strictly opposite signs, it reports either an exact root of the
/// aligned cubic or the lower end of a one-unit interval across which the
/// cubic still changes sign.
pub proof fn lemma_bisect_certificate(ay: int, by: int, cy: int, dy: int, lo: int, hi: int)
    requires
        lo < hi,
        cubic_coord(ay, by, cy, dy, lo) != 0,
        cubic_coord(ay, by, cy, dy, hi) != 0,
        (cubic_coord(ay, by, cy, dy, lo) < 0) != (cubic_coord(ay, by, cy, dy, hi) < 0),
    ensures
        ({
            let t = bisect_t(ay, by, cy, dy, lo, hi);
            lo <= t < hi && (cubic_coord(ay, by, cy, dy, t) == 0 || (cubic_coord(
                ay,
                by,
                cy,
                dy,
                t,
            ) != 0 && cubic_coord(ay, by, cy, dy, t + 1) != 0 && (cubic_coord(ay, by, cy, dy, t)
                < 0) != (cubic_coord(ay, by, cy, dy, t + 1) < 0)))
        }),
    decreases hi - lo,
{
    if hi - lo <= 1 {
    } else {
        let mid = lo + (hi - lo) / 2;
        vstd::arithmetic::div_mod::lemma_div_is_ordered(1, hi - lo, 2);
        vstd::arithmetic::div_mod::lemma_div_is_strictly_smaller(hi - lo, 2);
        let fm = cubic_coord(ay, by, cy, dy, mid);
        if fm == 0 {
        } else if (fm < 0) == (cubic_coord(ay, by, cy, dy, lo) < 0) {
            lemma_bisect_certificate(ay, by, cy, dy, mid, hi);
        } else {
            lemma_bisect_certificate(ay, by, cy, dy, lo, mid);
        }
    }
}

/// Law: every parameter the cubic sign-change scan reports is certified:
/// it is an exact root of the aligned cubic, or the cubic changes sign
/// between it and the next fixed-point unit.
pub proof fn lemma_cubic_roots_certified(ay: int, by: int, cy: int, dy: int, i: int, j: int)
    requires
        0 <= i <= 30,
        0 <= j < cubic_root_ts_upto(ay, by, cy, dy, i).len(),
    ensures
        ({
            let t = cubic_root_ts_upto(ay, by, cy, dy, i)[j];
            0 <= t <= ONE && (cubic_coord(ay, by, cy, dy, t) == 0 || (cubic_coord(ay, by, cy, dy, t)
                < 0) != (cubic_coord(ay, by, cy, dy, t + 1) < 0))
        }),
    decreases i,
{
    if i > 0 {
        let s = cubic_root_ts_upto(ay, by, cy, dy, i - 1);
        let t0 = tsamp(0, ONE as int, i - 1);
        let t1 = tsamp(0, ONE as int, i);
        lemma_tsamp_range(0, ONE as int, i - 1);
        lemma_tsamp_range(0, ONE as int, i);
        lemma_tsamp_strict(i);
        let f0 = cubic_coord(ay, by, cy, dy, t0);
        let f1 = cubic_coord(ay, by, cy, dy, t1);
        if j < s.len() {
            lemma_cubic_roots_certified(ay, by, cy, dy, i - 1, j);
        } else {
            if f0 == 0 {
            } else if (f0 < 0 && f1 > 0) || (f0 > 0 && f1 < 0) {
                lemma_bisect_certificate(ay, by, cy, dy, t0, t1);
            }
        }
    }
}

/// Law: the two-level scan behind the curved-segment distance never
/// reports more than any sampled distance: its squared result is at most
/// the squared distance to each of the 31 coarse curve samples, the two
/// segment endpoints among them.
pub proof fn lemma_curve_min_le_samples(seg: Line, px: int, py: int, i: int)
    requires
        0 <= i <= 30,
    ensures
        curve_min(seg, px, py) <= sq_at(seg, px, py, tsamp(0, ONE as int, i)),
        0 <= curve_min(seg, px, py),
{
    lemma_scan_min_le(seg, px, py, 0, ONE as int, 30, i);
    lemma_scan_min_nonneg(seg, px, py, 0, ONE as int, 30);
    let i1 = scan_argmin(seg, px, py, 0, ONE as int, 30);
    lemma_scan_argmin_range(seg, px, py, 0, ONE as int, 30);
    let bmin = if i1 == 0 {
        0
    } else {
        tsamp(0, ONE as int, i1 - 1)
    };
    let bmax = if i1 == 30 {
        ONE as int
    } else {
        tsamp(0, ONE as int, i1 + 1)
    };
    lemma_scan_min_nonneg(seg, px, py, bmin, bmax, 30);
}

} // verus!

//! Scanline assembly and the raster pipeline.
//!
//! A [`Scanline`] collects, for one horizontal row, every x coordinate at
//! which the segment set crosses that row, sorted ascending. The even-odd
//! interior test counts the crossings strictly right of a point: an odd
//! count means the point is inside. [`sdf_generate`] combines the per-pixel
//! nearest distance with that test into a signed distance raster.

use vstd::prelude::*;

verus! {

use crate::fixed::{ONE, HALF, COORD_LIMIT, fx_ok};
use crate::fixed::{clamp_s, fdiv, fdiv128, lemma_div_bound_sym};
use crate::line::{
    Line, hits, line_dist_sq, curve_min, seg_bounded, normalized_seg, lemma_normalized_wf,
    lemma_bounded_wf,
};

/// Crossings of a row by one segment set: the concatenation of every
/// segment's crossing list, in segment order.
pub open spec fn all_hits(lines: Seq<Line>, y: int) -> Seq<int>
    decreases lines.len(),
{
    if lines.len() == 0 {
        Seq::empty()
    } else {
        all_hits(lines.drop_last(), y) + hits(lines.last(), y)
    }
}

/// How many entries of `s` lie strictly right of `x`.
pub open spec fn count_gt(s: Seq<int>, x: int) -> int
    decreases s.len(),
{
    if s.len() == 0 {
        0
    } else {
        count_gt(s.drop_last(), x) + (if s.last() > x {
            1int
        } else {
            0int
        })
    }
}

/// Removing one entry removes exactly its own contribution to the count.
proof fn lemma_count_gt_remove(s: Seq<int>, j: int, x: int)
    requires
        0 <= j < s.len(),
    ensures
        count_gt(s, x) == count_gt(s.remove(j), x) + (if s[j] > x {
            1int
        } else {
            0int
        }),
    decreases s.len(),
{
    if j == s.len() - 1 {
        assert(s.remove(j) =~= s.drop_last());
    } else {
        assert(s.remove(j).drop_last() =~= s.drop_last().remove(j));
        assert(s.remove(j).last() == s.last());
        lemma_count_gt_remove(s.drop_last(), j, x);
    }
}

/// The count of entries right of `x` does not depend on the order of the
/// sequence, only on its multiset of values.
proof fn lemma_count_gt_permutation(s1: Seq<int>, s2: Seq<int>, x: int)
    requires
        s1.to_multiset() == s2.to_multiset(),
    ensures
        count_gt(s1, x) == count_gt(s2, x),
    decreases s1.len(),
{
    broadcast use vstd::seq_lib::group_to_multiset_ensures;

    if s1.len() == 0 {
        vstd::seq_lib::to_multiset_len::<int>(s1);
        vstd::seq_lib::to_multiset_len::<int>(s2);
        assert(s2.len() == 0);
    } else {
        let v = s1.last();
        let s1p = s1.drop_last();
        assert(s1 =~= s1p.push(v));
        vstd::seq_lib::to_multiset_build::<int>(s1p, v);
        assert(s1.to_multiset() =~= s1p.to_multiset().insert(v));
        assert(s2.to_multiset().count(v) > 0);
        vstd::seq_lib::to_multiset_contains::<int>(s2, v);
        assert(s2.contains(v));
        let j = choose|j: int| 0 <= j < s2.len() && s2[j] == v;
        let s2p = s2.remove(j);
        vstd::seq_lib::to_multiset_remove::<int>(s2, j);
        assert(s2p.to_multiset() =~= s2.to_multiset().remove(v));
        assert(s1p.to_multiset() =~= s1.to_multiset().remove(v));
        lemma_count_gt_permutation(s1p, s2p, x);
        lemma_count_gt_remove(s2, j, x);
    }
}

/// Ascending order.
pub open spec fn sorted_asc(s: Seq<i64>) -> bool {
    forall|i: int, j: int| 0 <= i <= j < s.len() ==> s[i] <= s[j]
}

/// The integer values of an executable crossing list.
pub open spec fn vals(s: Seq<i64>) -> Seq<int> {
    s.map_values(|v: i64| v as int)
}

/// Sort a list of crossings ascending by repeated minimum selection.
fn sort_asc(input: Vec<i64>) -> (r: Vec<i64>)
    ensures
        sorted_asc(r@),
        vals(r@).to_multiset() == vals(input@).to_multiset(),
{
    broadcast use vstd::seq_lib::group_to_multiset_ensures;

    let mut rest = input;
    let mut out: Vec<i64> = Vec::new();
    proof {
        assert(vals(out@).to_multiset().add(vals(rest@).to_multiset()) =~= vals(
            input@,
        ).to_multiset());
    }
    while rest.len() > 0
        invariant
            sorted_asc(out@),
            vals(out@).to_multiset().add(vals(rest@).to_multiset()) == vals(input@).to_multiset(),
            forall|i: int, j: int|
                0 <= i < out@.len() && 0 <= j < rest@.len() ==> out@[i] <= rest@[j],
        decreases rest.len(),
    {
        let mut mi: usize = 0;
        let mut k: usize = 1;
        while k < rest.len()
            invariant
                0 < rest.len(),
                mi < k <= rest.len(),
                forall|j: int| 0 <= j < k ==> rest@[mi as int] <= rest@[j],
            decreases rest.len() - k,
        {
            if rest[k] < rest[mi] {
                mi = k;
            }
            k = k + 1;
        }
        let ghost pre_rest = rest@;
        let v = rest.remove(mi);
        proof {
            assert(vals(pre_rest).len() == pre_rest.len());
            assert(vals(pre_rest).remove(mi as int) =~= vals(rest@));
            assert(vals(pre_rest)[mi as int] == v as int);
            assert(vals(pre_rest).contains(v as int)) by {
                assert((mi as int) < vals(pre_rest).len() && vals(pre_rest)[mi as int]
                    == v as int);
            }
            vstd::seq_lib::to_multiset_remove::<int>(vals(pre_rest), mi as int);
            assert(vals(pre_rest).remove(mi as int).to_multiset() =~= vals(
                pre_rest,
            ).to_multiset().remove(v as int));
            assert(vals(rest@).to_multiset() =~= vals(pre_rest).to_multiset().remove(v as int));
            vstd::seq_lib::to_multiset_contains::<int>(vals(pre_rest), v as int);
            assert(vals(pre_rest).to_multiset().count(v as int) > 0);
            assert(vals(out@.push(v)) =~= vals(out@).push(v as int));
            vstd::seq_lib::to_multiset_build::<int>(vals(out@), v as int);
            assert(vals(out@).push(v as int).to_multiset() =~= vals(out@).to_multiset().insert(
                v as int,
            ));
            assert(vals(out@).to_multiset().insert(v as int).add(
                vals(pre_rest).to_multiset().remove(v as int),
            ) =~= vals(out@).to_multiset().add(vals(pre_rest).to_multiset()));
        }
        out.push(v);
    }
    out
}

/// Collection of the crossings between one horizontal row and a segment
/// set, sorted ascending.
pub struct Scanline {
    /// The x coordinates of the crossings, ascending.
    pub intersections: Vec<i64>,
}

/// Collect and sort every segment's crossings with the row at height `y`.
pub fn scanline(y: i64, lines: &[Line]) -> (r: Scanline)
    requires
        forall|k: int| 0 <= k < lines@.len() ==> (#[trigger] lines@[k]).wf(),
        fx_ok(y as int),
    ensures
        sorted_asc(r.intersections@),
        vals(r.intersections@).to_multiset() == all_hits(lines@, y as int).to_multiset(),
{
    broadcast use vstd::seq_lib::group_to_multiset_ensures;

    let mut collected: Vec<i64> = Vec::new();
    let mut k: usize = 0;
    proof {
        assert(lines@.take(0) =~= Seq::<Line>::empty());
        assert(vals(collected@) =~= Seq::<int>::empty());
    }
    while k < lines.len()
        invariant
            forall|i: int| 0 <= i < lines@.len() ==> (#[trigger] lines@[i]).wf(),
            fx_ok(y as int),
            k <= lines@.len(),
            vals(collected@) == all_hits(lines@.take(k as int), y as int),
        decreases lines@.len() - k,
    {
        let (cnt, xs) = lines[k].intersections(y);
        let ghost pre = collected@;
        if cnt >= 1 {
            collected.push(xs[0]);
        }
        if cnt >= 2 {
            collected.push(xs[1]);
        }
        if cnt >= 3 {
            collected.push(xs[2]);
        }
        proof {
            let ts = lines@.take(k as int);
            let tsn = lines@.take(k + 1int);
            assert(tsn.drop_last() =~= ts);
            assert(tsn.last() == lines@[k as int]);
            assert(vals(collected@) =~= vals(pre) + hits(lines@[k as int], y as int));
        }
        k = k + 1;
    }
    proof {
        assert(lines@.take(lines@.len() as int) =~= lines@);
    }
    let sorted = sort_asc(collected);
    Scanline { intersections: sorted }
}

/// Even-odd interior test: whether the count of crossings strictly right
/// of `x` is odd. The count depends only on the multiset of crossings, so
/// the scanline's order does not affect the answer.
pub fn scanline_scan(sl: &Scanline, x: i64) -> (r: bool)
    ensures
        r == (count_gt(vals(sl.intersections@), x as int) % 2 == 1),
{
    let mut cnt: usize = 0;
    let mut k: usize = 0;
    proof {
        assert(vals(sl.intersections@.take(0)) =~= Seq::<int>::empty());
    }
    while k < sl.intersections.len()
        invariant
            k <= sl.intersections@.len(),
            cnt <= k,
            cnt == count_gt(vals(sl.intersections@.take(k as int)), x as int),
        decreases sl.intersections@.len() - k,
    {
        proof {
            let ts = vals(sl.intersections@.take(k as int));
            let tsn = vals(sl.intersections@.take(k + 1int));
            assert(tsn.drop_last() =~= ts);
            assert(tsn.last() == sl.intersections@[k as int] as int);
        }
        if x < sl.intersections[k] {
            cnt = cnt + 1;
        }
        k = k + 1;
    }
    proof {
        assert(sl.intersections@.take(sl.intersections@.len() as int) =~= sl.intersections@);
    }
    cnt % 2 == 1
}

/// The interior test for a segment set, phrased over the raw crossing
/// list; sorting is a permutation, so the parity is the same.
pub open spec fn inside_hit(lines: Seq<Line>, y: int, x: int) -> bool {
    count_gt(all_hits(lines, y), x) % 2 == 1
}

/// The scanline's parity answer agrees with the canonical crossing list.
pub proof fn lemma_scanline_parity(sl: Seq<i64>, lines: Seq<Line>, y: int, x: int)
    requires
        vals(sl).to_multiset() == all_hits(lines, y).to_multiset(),
    ensures
        (count_gt(vals(sl), x) % 2 == 1) == inside_hit(lines, y, x),
{
    lemma_count_gt_permutation(vals(sl), all_hits(lines, y), x);
}

/// SDF output of a shape: a row-major grid of fixed-point field values,
/// each in `[0, ONE]`, with 0.5 on the outline, higher values inside and
/// lower values outside.
pub struct SdfRaster {
    /// Width of the buffer in pixels.
    pub width: u32,
    /// Height of the buffer in pixels.
    pub height: u32,
    /// Field values, row-major: the cell `(x, y)` is at `x + width * y`.
    pub buffer: Vec<i64>,
}

/// The raster has positive dimensions, a full buffer, and in-range values.
pub open spec fn raster_wf(r: SdfRaster) -> bool {
    1 <= r.width && 1 <= r.height && r.buffer.len() == r.width * r.height && (forall|i: int|
        0 <= i < r.buffer.len() ==> 0 <= #[trigger] r.buffer[i] <= ONE)
}

/// SDF output converted to one byte per cell.
pub struct SdfBitmap {
    /// Width of the buffer in pixels.
    pub width: u32,
    /// Height of the buffer in pixels.
    pub height: u32,
    /// Byte values, row-major, 0 outside to 255 inside.
    pub buffer: Vec<u8>,
}

/// The nearest distance from a point to one segment, as the distance
/// algorithm reports it for each variant.
pub open spec fn seg_dist(seg: Line, px: int, py: int) -> int {
    match seg {
        Line::Line { start, end } => crate::fixed::sqrt_floor(
            line_dist_sq(start.x as int, start.y as int, end.x as int, end.y as int, px, py),
        ),
        _ => crate::fixed::sqrt_floor(curve_min(seg, px, py)),
    }
}

/// Least distance from the point to any segment of the set; an empty set
/// reports the sentinel furthest distance.
pub open spec fn min_dist(lines: Seq<Line>, px: int, py: int) -> int
    decreases lines.len(),
{
    if lines.len() == 0 {
        i64::MAX as int
    } else {
        let rest = min_dist(lines.drop_last(), px, py);
        let d = seg_dist(lines.last(), px, py);
        if d < rest {
            d
        } else {
            rest
        }
    }
}

/// Normalized coordinate of the center of cell `i` out of `n`.
pub open spec fn px_center(i: int, n: int) -> int {
    ((2 * i + 1) * ONE) / (2 * n)
}

/// Map a distance to a field value: one minus the spread-scaled distance,
/// biased so that zero distance sits at 0.5, clamped into `[0, ONE]`.
pub open spec fn shade(d: int, spread: int) -> int {
    clamp_s(ONE - (d * spread) / (ONE as int) - HALF, 0, ONE as int)
}

/// The field value of one cell: the shaded least distance at the cell
/// center, flipped about the midline when the center is inside the shape.
pub open spec fn pixel_val(lines: Seq<Line>, w: int, h: int, spread: int, xi: int, yi: int) -> int {
    let px = px_center(xi, w);
    let py = px_center(yi, h);
    let base = shade(min_dist(lines, px, py), spread);
    if inside_hit(lines, py, px) {
        ONE - base
    } else {
        base
    }
}

/// The segment set the raster passes actually work on: the input set,
/// remapped away from the borders when padding is requested.
pub open spec fn padded(lines: Seq<Line>, padding: int, w: int, h: int) -> Seq<Line> {
    if padding == 0 {
        lines
    } else {
        let rx = (padding * ONE) / w;
        let ry = (padding * ONE) / h;
        lines.map_values(
            |l: Line| normalized_seg(l, -rx, -ry, ONE + 2 * rx, ONE + 2 * ry),
        )
    }
}

/// Row-major cell indices are unique.
proof fn lemma_idx_unique(w: int, x1: int, y1: int, x2: int, y2: int)
    by (nonlinear_arith)
    requires
        0 <= x1 < w,
        0 <= x2 < w,
        0 <= y1,
        0 <= y2,
        x1 + w * y1 == x2 + w * y2,
    ensures
        x1 == x2 && y1 == y2,
{
}

/// Normalized coordinate of the center of cell `i` out of `n`.
fn px_center_exec(i: u32, n: u32) -> (r: i64)
    requires
        0 < n,
        i < n,
    ensures
        r == px_center(i as int, n as int),
        0 <= r <= ONE,
{
    let num: i64 = (2 * (i as i64) + 1) * ONE;
    let den: i64 = 2 * (n as i64);
    let r = fdiv(num, den);
    proof {
        assert(-((ONE as int) * den) <= num <= (ONE as int) * den) by (nonlinear_arith)
            requires
                num == (2 * (i as int) + 1) * ONE,
                den == 2 * (n as int),
                0 <= i,
                i < n,
                ONE == 65536;
        lemma_div_bound_sym(num as int, den as int, ONE as int);
        assert(0 <= num) by (nonlinear_arith)
            requires
                num == (2 * (i as int) + 1) * ONE,
                0 <= i,
                ONE == 65536;
        vstd::arithmetic::div_mod::lemma_div_is_ordered(0, num as int, den as int);
        assert(0int / (den as int) == 0) by (nonlinear_arith)
            requires
                0 < den;
    }
    r
}

/// Rasterize the shape drawn by `lines` into a `width` by `height` signed
/// distance field.
///
/// The segments are expected near the unit square. A nonzero `padding`
/// first shrinks the drawing area inside the fixed-size buffer by the
/// padding's share of each axis, so gradients near the square's border are
/// not clipped. Each cell then receives the shaded least distance from its
/// center to any segment, and a per-row scanline pass flips cells whose
/// center the even-odd rule puts inside the shape.
#[verifier::loop_isolation(false)]
pub fn sdf_generate(width: u32, height: u32, padding: i32, spread: i64, lines: &[Line]) -> (r:
    SdfRaster)
    requires
        1 <= width,
        1 <= height,
        width * height <= 0x100_0000,
        0 <= padding,
        padding <= width,
        padding <= height,
        1 <= spread,
        forall|k: int|
            0 <= k < lines@.len() ==> seg_bounded(
                #[trigger] lines@[k],
                (COORD_LIMIT as int) / 2,
            ),
    ensures
        r.width == width,
        r.height == height,
        raster_wf(r),
        forall|xi: int, yi: int|
            0 <= xi < width && 0 <= yi < height ==> r.buffer@[xi + width * yi] == pixel_val(
                padded(lines@, padding as int, width as int, height as int),
                width as int,
                height as int,
                spread as int,
                xi,
                yi,
            ),
{
    let ghost work_s = padded(lines@, padding as int, width as int, height as int);
    let mut work: Vec<Line> = Vec::new();
    if padding != 0 {
        let rx = fdiv((padding as i64) * ONE, width as i64);
        let ry = fdiv((padding as i64) * ONE, height as i64);
        proof {
            assert(0 <= (padding as int) * (ONE as int) <= (ONE as int) * (width as int))
                by (nonlinear_arith)
                requires
                    0 <= padding <= width,
                    ONE == 65536;
            assert(0 <= (padding as int) * (ONE as int) <= (ONE as int) * (height as int))
                by (nonlinear_arith)
                requires
                    0 <= padding <= height,
                    ONE == 65536;
            lemma_div_bound_sym((padding as int) * (ONE as int), width as int, ONE as int);
            lemma_div_bound_sym((padding as int) * (ONE as int), height as int, ONE as int);
            vstd::arithmetic::div_mod::lemma_div_is_ordered(
                0,
                (padding as int) * (ONE as int),
                width as int,
            );
            vstd::arithmetic::div_mod::lemma_div_is_ordered(
                0,
                (padding as int) * (ONE as int),
                height as int,
            );
            assert(0int / (width as int) == 0 && 0int / (height as int) == 0) by (nonlinear_arith)
                requires
                    0 < width,
                    0 < height;
        }
        let mut k: usize = 0;
        while k < lines.len()
            invariant
                0 <= rx <= ONE,
                0 <= ry <= ONE,
                k <= lines@.len(),
                work@.len() == k,
                forall|i: int|
                    0 <= i < k ==> work@[i] == work_s[i] && (#[trigger] work@[i]).wf(),
            decreases lines@.len() - k,
        {
            let seg = lines[k];
            proof {
                lemma_bounded_wf(lines@[k as int]);
                lemma_normalized_wf(
                    lines@[k as int],
                    -(rx as int),
                    -(ry as int),
                    ONE + 2 * (rx as int),
                    ONE + 2 * (ry as int),
                );
            }
            let nseg = seg.normalize_to_with_offset(-rx, -ry, ONE + 2 * rx, ONE + 2 * ry);
            work.push(nseg);
            k = k + 1;
        }
        proof {
            assert(work@ =~= work_s);
        }
    } else {
        let mut k: usize = 0;
        while k < lines.len()
            invariant
                k <= lines@.len(),
                work@.len() == k,
                forall|i: int|
                    0 <= i < k ==> work@[i] == lines@[i] && (#[trigger] work@[i]).wf(),
            decreases lines@.len() - k,
        {
            proof {
                lemma_bounded_wf(lines@[k as int]);
            }
            work.push(lines[k]);
            k = k + 1;
        }
        proof {
            assert(work@ =~= work_s);
        }
    }
    let n: usize = (width as usize) * (height as usize);
    let mut buffer: Vec<i64> = Vec::new();
    while buffer.len() < n
        invariant
            buffer@.len() <= n,
        decreases n - buffer.len(),
    {
        buffer.push(0);
    }
    let mut x: u32 = 0;
    while x < width
        invariant
            x <= width,
            buffer@.len() == n,
            forall|xi: int, yi: int|
                0 <= xi < width && 0 <= yi < height && xi < x ==> buffer@[xi + width * yi]
                    == shade(
                    min_dist(work_s, #[trigger] px_center(xi, width as int), #[trigger] px_center(
                        yi,
                        height as int,
                    )),
                    spread as int,
                ),
        decreases width - x,
    {
        let px = px_center_exec(x, width);
        let mut y: u32 = 0;
        while y < height
            invariant
                y <= height,
                buffer@.len() == n,
                px == px_center(x as int, width as int),
                0 <= px <= ONE,
                forall|xi: int, yi: int|
                    0 <= xi < width && 0 <= yi < height && (xi < x || (xi == x && yi < y))
                        ==> buffer@[xi + width * yi] == shade(
                        min_dist(work_s, #[trigger] px_center(xi, width as int),
                        #[trigger] px_center(yi, height as int)),
                        spread as int,
                    ),
            decreases height - y,
        {
            let py = px_center_exec(y, height);
            let mut md: i64 = i64::MAX;
            let mut k: usize = 0;
            proof {
                assert(work@.take(0) =~= Seq::<Line>::empty());
            }
            while k < work.len()
                invariant
                    k <= work@.len(),
                    0 <= md,
                    md == min_dist(work@.take(k as int), px as int, py as int),
                decreases work@.len() - k,
            {
                let d = work[k].distance(px, py);
                if d < md {
                    md = d;
                }
                proof {
                    let ts = work@.take(k as int);
                    let tsn = work@.take(k + 1int);
                    assert(tsn.drop_last() =~= ts);
                    assert(tsn.last() == work@[k as int]);
                    assert(d == seg_dist(work@[k as int], px as int, py as int));
                }
                k = k + 1;
            }
            proof {
                assert(work@.take(work@.len() as int) =~= work@);
            }
            proof {
                assert(0 <= (md as int) * (spread as int)
                    <= 0x4000_0000_0000_0000_0000_0000_0000_0000) by (nonlinear_arith)
                    requires
                        0 <= md <= 0x7fff_ffff_ffff_ffff,
                        1 <= spread <= 0x7fff_ffff_ffff_ffff;
            }
            let prod: i128 = (md as i128) * (spread as i128);
            let q: i128 = fdiv128(prod, ONE as i128);
            let raw: i128 = (ONE as i128) - q - (HALF as i128);
            proof {
                vstd::arithmetic::div_mod::lemma_div_is_ordered(0, prod as int, ONE as int);
                assert(0int / (ONE as int) == 0) by (nonlinear_arith)
                    requires
                        ONE == 65536;
            }
            let val: i64 = if raw < 0 {
                0
            } else if raw > (ONE as i128) {
                ONE
            } else {
                raw as i64
            };
            proof {
                assert((x as int) + (width as int) * (y as int) < (width as int) * (height as int))
                    by (nonlinear_arith)
                    requires
                        0 <= x < width,
                        0 <= y < height;
                assert((width as int) * (y as int) <= (width as int) * (height as int))
                    by (nonlinear_arith)
                    requires
                        0 <= y <= height,
                        0 < width;
            }
            let idx: usize = (x as usize) + (width as usize) * (y as usize);
            let ghost pre_buf = buffer@;
            buffer.set(idx, val);
            proof {
                assert(val == shade(
                    min_dist(work_s, px_center(x as int, width as int), px_center(
                        y as int,
                        height as int,
                    )),
                    spread as int,
                ));
                assert forall|xi: int, yi: int|
                    0 <= xi < width && 0 <= yi < height && (xi < x || (xi == x && yi < y + 1))
                        implies buffer@[xi + width * yi] == shade(
                        min_dist(work_s, #[trigger] px_center(xi, width as int),
                        #[trigger] px_center(yi, height as int)),
                        spread as int,
                    ) by {
                    if xi == x && yi == y {
                    } else {
                        if xi + (width as int) * yi == idx {
                            lemma_idx_unique(width as int, xi, yi, x as int, y as int);
                        }
                        assert((width as int) * yi <= (width as int) * (height as int))
                            by (nonlinear_arith)
                            requires
                                0 <= yi < height,
                                0 < width;
                        assert(xi + (width as int) * yi < (width as int) * (height as int))
                            by (nonlinear_arith)
                            requires
                                0 <= xi < width,
                                0 <= yi < height;
                        assert(buffer@[xi + width * yi] == pre_buf[xi + width * yi]);
                    }
                }
            }
            y = y + 1;
        }
        x = x + 1;
    }
    let mut yy: u32 = 0;
    while yy < height
        invariant
            yy <= height,
            buffer@.len() == n,
            forall|xi: int, yi: int|
                0 <= xi < width && 0 <= yi < height && yi < yy ==> buffer@[xi + width * yi]
                    == pixel_val(work_s, width as int, height as int, spread as int, xi, yi),
            forall|xi: int, yi: int|
                0 <= xi < width && 0 <= yi < height && yi >= yy ==> buffer@[xi + width * yi]
                    == shade(
                    min_dist(work_s, #[trigger] px_center(xi, width as int), #[trigger] px_center(
                        yi,
                        height as int,
                    )),
                    spread as int,
                ),
        decreases height - yy,
    {
        let py = px_center_exec(yy, height);
        let sl = scanline(py, work.as_slice());
        let mut xx: u32 = 0;
        while xx < width
            invariant
                xx <= width,
                buffer@.len() == n,
                py == px_center(yy as int, height as int),
                0 <= py <= ONE,
                sorted_asc(sl.intersections@),
                vals(sl.intersections@).to_multiset() == all_hits(work_s, py as int).to_multiset(),
                forall|xi: int, yi: int|
                    0 <= xi < width && 0 <= yi < height && (yi < yy || (yi == yy && xi < xx))
                        ==> buffer@[xi + width * yi] == pixel_val(
                        work_s,
                        width as int,
                        height as int,
                        spread as int,
                        xi,
                        yi,
                    ),
                forall|xi: int, yi: int|
                    0 <= xi < width && 0 <= yi < height && (yi > yy || (yi == yy && xi >= xx))
                        ==> buffer@[xi + width * yi] == shade(
                        min_dist(work_s, #[trigger] px_center(xi, width as int),
                        #[trigger] px_center(yi, height as int)),
                        spread as int,
                    ),
            decreases width - xx,
        {
            let px = px_center_exec(xx, width);
            proof {
                assert((xx as int) + (width as int) * (yy as int) < (width as int) * (
                height as int)) by (nonlinear_arith)
                    requires
                        0 <= xx < width,
                        0 <= yy < height;
                assert((width as int) * (yy as int) <= (width as int) * (height as int))
                    by (nonlinear_arith)
                    requires
                        0 <= yy <= height,
                        0 < width;
                lemma_scanline_parity(sl.intersections@, work_s, py as int, px as int);
            }
            let idx: usize = (xx as usize) + (width as usize) * (yy as usize);
            let ghost pre_buf = buffer@;
            let flipped = scanline_scan(&sl, px);
            if flipped {
                let cur = buffer[idx];
                buffer.set(idx, ONE - cur);
            }
            proof {
                assert forall|xi: int, yi: int|
                    0 <= xi < width && 0 <= yi < height && (yi < yy || (yi == yy && xi < xx + 1))
                        implies buffer@[xi + width * yi] == pixel_val(
                        work_s,
                        width as int,
                        height as int,
                        spread as int,
                        xi,
                        yi,
                    ) by {
                    assert((width as int) * yi <= (width as int) * (height as int))
                        by (nonlinear_arith)
                        requires
                            0 <= yi < height,
                            0 < width;
                    assert(xi + (width as int) * yi < (width as int) * (height as int))
                        by (nonlinear_arith)
                        requires
                            0 <= xi < width,
                            0 <= yi < height;
                    if xi == xx && yi == yy {
                    } else {
                        if xi + (width as int) * yi == idx {
                            lemma_idx_unique(width as int, xi, yi, xx as int, yy as int);
                        }
                        assert(buffer@[xi + width * yi] == pre_buf[xi + width * yi]);
                    }
                }
                assert forall|xi: int, yi: int|
                    0 <= xi < width && 0 <= yi < height && (yi > yy || (yi == yy && xi >= xx + 1))
                        implies buffer@[xi + width * yi] == shade(
                        min_dist(work_s, #[trigger] px_center(xi, width as int),
                        #[trigger] px_center(yi, height as int)),
                        spread as int,
                    ) by {
                    if xi + (width as int) * yi == idx {
                        lemma_idx_unique(width as int, xi, yi, xx as int, yy as int);
                    }
                    assert((width as int) * yi <= (width as int) * (height as int))
                        by (nonlinear_arith)
                        requires
                            0 <= yi < height,
                            0 < width;
                    assert(xi + (width as int) * yi < (width as int) * (height as int))
                        by (nonlinear_arith)
                        requires
                            0 <= xi < width,
                            0 <= yi < height;
                    assert(buffer@[xi + width * yi] == pre_buf[xi + width * yi]);
                }
            }
            xx = xx + 1;
        }
        yy = yy + 1;
    }
    proof {
        assert forall|i: int| 0 <= i < buffer@.len() implies 0 <= #[trigger] buffer@[i] <= ONE by {
            let xi = i % (width as int);
            let yi = i / (width as int);
            vstd::arithmetic::div_mod::lemma_fundamental_div_mod(i, width as int);
            assert(0 <= xi < width && 0 <= yi < height && i == xi + (width as int) * yi)
                by (nonlinear_arith)
                requires
                    i == (width as int) * yi + xi,
                    0 <= xi < width,
                    0 <= i < (width as int) * (height as int),
                    0 < width,
                    0 < height,
                    yi == i / (width as int);
            assert(buffer@[xi + width * yi] == pixel_val(
                work_s,
                width as int,
                height as int,
                spread as int,
                xi,
                yi,
            ));
            assert(0 <= shade(
                min_dist(work_s, px_center(xi, width as int), px_center(yi, height as int)),
                spread as int,
            ) <= ONE);
        }
    }
    SdfRaster { width, height, buffer }
}

/// Linear interpolation between two field values.
pub open spec fn mix_s(a: int, b: int, t: int) -> int {
    a + ((b - a) * t) / (ONE as int)
}

/// Linear interpolation between two field values.
fn mix(a: i64, b: i64, t: i64) -> (r: i64)
    requires
        0 <= a <= ONE,
        0 <= b <= ONE,
        0 <= t <= ONE,
    ensures
        r == mix_s(a as int, b as int, t as int),
        0 <= r <= ONE,
{
    proof {
        let one = ONE as int;
        let d = b - a;
        assert(-(one * one) <= d * t <= one * one) by (nonlinear_arith)
            requires
                -one <= d <= one,
                0 <= t <= one,
                one == 65536;
        lemma_div_bound_sym(d * t, one, one);
        if d >= 0 {
            assert(0 <= d * t <= d * one) by (nonlinear_arith)
                requires
                    0 <= d,
                    0 <= t <= one;
            vstd::arithmetic::div_mod::lemma_div_is_ordered(0, d * t, one);
            vstd::arithmetic::div_mod::lemma_div_is_ordered(d * t, d * one, one);
            vstd::arithmetic::div_mod::lemma_div_multiples_vanish(d, one);
            assert(d * one == one * d) by (nonlinear_arith);
            assert(0int / one == 0) by (nonlinear_arith)
                requires
                    one == 65536;
        } else {
            assert(d * one <= d * t && d * t <= 0) by (nonlinear_arith)
                requires
                    d < 0,
                    0 <= t <= one;
            vstd::arithmetic::div_mod::lemma_div_is_ordered(d * one, d * t, one);
            vstd::arithmetic::div_mod::lemma_div_is_ordered(d * t, 0, one);
            vstd::arithmetic::div_mod::lemma_div_multiples_vanish(d, one);
            assert(d * one == one * d) by (nonlinear_arith);
            assert(0int / one == 0) by (nonlinear_arith)
                requires
                    one == 65536;
        }
    }
    a + fdiv((b - a) * t, ONE)
}

/// Continuous grid position of a normalized coordinate, clamped at zero:
/// the coordinate scaled to pixel units minus the half-pixel center bias.
pub open spec fn grid_pos(c: int, n: int) -> int {
    let g = c * n - HALF;
    if g < 0 {
        0
    } else {
        g
    }
}

/// Bilinear sample of the raster at normalized coordinates: the four
/// nearest cells, clamped at the raster's edges, blended by the fractional
/// grid position.
pub open spec fn sample_spec(sdf: SdfRaster, x: int, y: int) -> int {
    let w = sdf.width as int;
    let h = sdf.height as int;
    let gx = grid_pos(x, w);
    let gy = grid_pos(y, h);
    let left = gx / (ONE as int);
    let top = gy / (ONE as int);
    let wx = gx - left * ONE;
    let wy = gy - top * ONE;
    let right = if left + 1 < w {
        left + 1
    } else {
        w - 1
    };
    let bottom = if top + 1 < h {
        top + 1
    } else {
        h - 1
    };
    let p00 = sdf.buffer[left + w * top] as int;
    let p10 = sdf.buffer[right + w * top] as int;
    let p01 = sdf.buffer[left + w * bottom] as int;
    let p11 = sdf.buffer[right + w * bottom] as int;
    mix_s(mix_s(p00, p10, wx), mix_s(p01, p11, wx), wy)
}

/// Sample the raster at the normalized coordinates `(x, y)` with bilinear
/// filtering; the result is a convex blend of stored cells, so it stays in
/// `[0, ONE]`.
pub fn sdf_sample(sdf: &SdfRaster, x: i64, y: i64) -> (r: i64)
    requires
        raster_wf(*sdf),
        0 <= x <= ONE,
        0 <= y <= ONE,
    ensures
        r == sample_spec(*sdf, x as int, y as int),
        0 <= r <= ONE,
{
    let w: i64 = sdf.width as i64;
    let h: i64 = sdf.height as i64;
    proof {
        assert(0 <= (x as int) * (w as int) <= (w as int) * (ONE as int)) by (nonlinear_arith)
            requires
                0 <= x <= ONE,
                0 < w;
        assert(0 <= (y as int) * (h as int) <= (h as int) * (ONE as int)) by (nonlinear_arith)
            requires
                0 <= y <= ONE,
                0 < h;
    }
    let gx0: i64 = x * w - HALF;
    let gy0: i64 = y * h - HALF;
    let gx: i64 = if gx0 < 0 {
        0
    } else {
        gx0
    };
    let gy: i64 = if gy0 < 0 {
        0
    } else {
        gy0
    };
    let left: i64 = fdiv(gx, ONE);
    let top: i64 = fdiv(gy, ONE);
    proof {
        let one = ONE as int;
        assert(gx <= (w as int) * one - (HALF as int));
        vstd::arithmetic::div_mod::lemma_div_is_ordered(gx as int, (w as int) * one - 1, one);
        assert(((w as int) * one - 1) / one == (w as int) - 1) by {
            vstd::arithmetic::div_mod::lemma_div_multiples_vanish_fancy(
                (w as int) - 1,
                one - 1,
                one,
            );
            assert(one * ((w as int) - 1) + (one - 1) == (w as int) * one - 1) by (nonlinear_arith);
        }
        vstd::arithmetic::div_mod::lemma_div_is_ordered(0, gx as int, one);
        assert(0int / one == 0) by (nonlinear_arith)
            requires
                one == 65536;
        vstd::arithmetic::div_mod::lemma_div_is_ordered(gy as int, (h as int) * one - 1, one);
        assert(((h as int) * one - 1) / one == (h as int) - 1) by {
            vstd::arithmetic::div_mod::lemma_div_multiples_vanish_fancy(
                (h as int) - 1,
                one - 1,
                one,
            );
            assert(one * ((h as int) - 1) + (one - 1) == (h as int) * one - 1) by (nonlinear_arith);
        }
        vstd::arithmetic::div_mod::lemma_div_is_ordered(0, gy as int, one);
        vstd::arithmetic::div_mod::lemma_fundamental_div_mod(gx as int, one);
        vstd::arithmetic::div_mod::lemma_fundamental_div_mod(gy as int, one);
    }
    let wx: i64 = gx - left * ONE;
    let wy: i64 = gy - top * ONE;
    let right: i64 = if left + 1 < w {
        left + 1
    } else {
        w - 1
    };
    let bottom: i64 = if top + 1 < h {
        top + 1
    } else {
        h - 1
    };
    proof {
        let one = ONE as int;
        assert(gx as int % one == gx - (gx as int / one) * one) by (nonlinear_arith)
            requires
                gx == one * (gx as int / one) + gx as int % one;
        assert(gy as int % one == gy - (gy as int / one) * one) by (nonlinear_arith)
            requires
                gy == one * (gy as int / one) + gy as int % one;
        assert((left as int) + (w as int) * (top as int) < (w as int) * (h as int))
            by (nonlinear_arith)
            requires
                0 <= left < w,
                0 <= top < h;
        assert((right as int) + (w as int) * (top as int) < (w as int) * (h as int))
            by (nonlinear_arith)
            requires
                0 <= right < w,
                0 <= top < h;
        assert((left as int) + (w as int) * (bottom as int) < (w as int) * (h as int))
            by (nonlinear_arith)
            requires
                0 <= left < w,
                0 <= bottom < h;
        assert((right as int) + (w as int) * (bottom as int) < (w as int) * (h as int))
            by (nonlinear_arith)
            requires
                0 <= right < w,
                0 <= bottom < h;
        assert((w as int) * (top as int) >= 0 && (w as int) * (bottom as int) >= 0)
            by (nonlinear_arith)
            requires
                0 <= top,
                0 <= bottom,
                0 < w;
    }
    let row: usize = sdf.width as usize;
    let p00: i64 = sdf.buffer[(left as usize) + row * (top as usize)];
    let p10: i64 = sdf.buffer[(right as usize) + row * (top as usize)];
    let p01: i64 = sdf.buffer[(left as usize) + row * (bottom as usize)];
    let p11: i64 = sdf.buffer[(right as usize) + row * (bottom as usize)];
    mix(mix(p00, p10, wx), mix(p01, p11, wx), wy)
}

/// Convert a raster to one byte per cell: each field value is scaled by
/// 255 and truncated.
pub fn sdf_to_bitmap(sdf: &SdfRaster) -> (r: SdfBitmap)
    requires
        raster_wf(*sdf),
    ensures
        r.width == sdf.width,
        r.height == sdf.height,
        r.buffer@.len() == sdf.buffer@.len(),
        forall|i: int|
            0 <= i < r.buffer@.len() ==> #[trigger] r.buffer@[i] == (sdf.buffer[i] * 255) / (
            ONE as int),
{
    let mut buffer: Vec<u8> = Vec::new();
    let mut i: usize = 0;
    while i < sdf.buffer.len()
        invariant
            raster_wf(*sdf),
            i <= sdf.buffer@.len(),
            buffer@.len() == i,
            forall|j: int|
                0 <= j < i ==> #[trigger] buffer@[j] == (sdf.buffer[j] * 255) / (ONE as int),
        decreases sdf.buffer@.len() - i,
    {
        let v: i64 = sdf.buffer[i];
        proof {
            assert(0 <= (v as int) * 255 <= 255 * (ONE as int)) by (nonlinear_arith)
                requires
                    0 <= v <= ONE,
                    ONE == 65536;
            lemma_div_bound_sym((v as int) * 255, ONE as int, 255);
            vstd::arithmetic::div_mod::lemma_div_is_ordered(0, (v as int) * 255, ONE as int);
            assert(0int / (ONE as int) == 0) by (nonlinear_arith)
                requires
                    ONE == 65536;
        }
        let b: u8 = fdiv(v * 255, ONE) as u8;
        buffer.push(b);
        i = i + 1;
    }
    SdfBitmap { width: sdf.width, height: sdf.height, buffer }
}

/// Law: sampled exactly at a cell center, the bilinear filter returns the
/// stored value of that cell, because both blend weights vanish there.
/// This holds whenever a half cell is representable, i.e. the fixed-point
/// unit is divisible by twice the dimension.
pub proof fn lemma_sample_at_center(sdf: SdfRaster, i: int, j: int)
    requires
        raster_wf(sdf),
        0 <= i < sdf.width,
        0 <= j < sdf.height,
        (ONE as int) % (2 * sdf.width as int) == 0,
        (ONE as int) % (2 * sdf.height as int) == 0,
    ensures
        sample_spec(sdf, px_center(i, sdf.width as int), px_center(j, sdf.height as int))
            == sdf.buffer[i + sdf.width * j],
{
    let one = ONE as int;
    let w = sdf.width as int;
    let h = sdf.height as int;
    let qw = one / (2 * w);
    let qh = one / (2 * h);
    vstd::arithmetic::div_mod::lemma_fundamental_div_mod(one, 2 * w);
    vstd::arithmetic::div_mod::lemma_fundamental_div_mod(one, 2 * h);
    assert(one == (2 * w) * qw && one == (2 * h) * qh);
    let px = px_center(i, w);
    let py = px_center(j, h);
    assert((2 * i + 1) * one == (2 * w) * ((2 * i + 1) * qw)) by (nonlinear_arith)
        requires
            one == (2 * w) * qw;
    vstd::arithmetic::div_mod::lemma_div_multiples_vanish((2 * i + 1) * qw, 2 * w);
    assert(px == (2 * i + 1) * qw);
    assert((2 * j + 1) * one == (2 * h) * ((2 * j + 1) * qh)) by (nonlinear_arith)
        requires
            one == (2 * h) * qh;
    vstd::arithmetic::div_mod::lemma_div_multiples_vanish((2 * j + 1) * qh, 2 * h);
    assert(py == (2 * j + 1) * qh);
    assert(px * w - (HALF as int) == i * one) by (nonlinear_arith)
        requires
            px == (2 * i + 1) * qw,
            one == (2 * w) * qw,
            2 * (HALF as int) == one;
    assert(py * h - (HALF as int) == j * one) by (nonlinear_arith)
        requires
            py == (2 * j + 1) * qh,
            one == (2 * h) * qh,
            2 * (HALF as int) == one;
    assert(i * one >= 0 && j * one >= 0) by (nonlinear_arith)
        requires
            0 <= i,
            0 <= j,
            one == 65536;
    let gx = grid_pos(px, w);
    let gy = grid_pos(py, h);
    assert(gx == i * one && gy == j * one);
    vstd::arithmetic::div_mod::lemma_div_multiples_vanish(i, one);
    vstd::arithmetic::div_mod::lemma_div_multiples_vanish(j, one);
    assert(i * one == one * i && j * one == one * j) by (nonlinear_arith);
    assert(gx / one == i && gy / one == j);
    assert(gx - i * one == 0 && gy - j * one == 0);
    let p00 = sdf.buffer[i + w * j] as int;
    assert(mix_s(p00, sdf.buffer[(if i + 1 < w { i + 1 } else { w - 1 }) + w * j] as int, 0)
        == p00) by {
        assert((sdf.buffer[(if i + 1 < w { i + 1 } else { w - 1 }) + w * j] as int - p00) * 0
            == 0) by (nonlinear_arith);
        assert(0int / one == 0) by (nonlinear_arith)
            requires
                one == 65536;
    }
}

} // verus!

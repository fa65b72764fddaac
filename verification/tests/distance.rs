use easy_signed_distance_field::{vec2, Line, HALF, ONE};

#[test]
fn test_distance_functions() {
    // Linear
    let line = Line::Line { start: vec2(0, 0), end: vec2(ONE, ONE) };
    assert_eq!(line.distance(0, 0), 0);
    assert_eq!(line.distance(ONE, ONE), 0);

    // The distance from (1, 0) to the diagonal is sqrt(0.5); in fixed
    // point the interior case computes cross^2 / |b-a|^2 = 2^31 and takes
    // the floor square root, 46340.
    assert_eq!(line.distance(ONE, 0), 46340);

    // Quadratic
    let line = Line::Quad { start: vec2(0, 0), end: vec2(ONE, ONE), control: vec2(ONE, 0) };
    assert_eq!(line.distance(0, 0), 0);
    assert_eq!(line.distance(ONE, ONE), 0);
    // The nearest distance is ~0.3535533905932738, about 23170 scaled by 2^16.
    let d = line.distance(ONE, 0);
    assert!(d >= 23140 && d <= 23200, "{}", d);
    assert_eq!(line.distance(0, ONE), ONE);
    // The true distance is exactly 0.5 at both probes; near-flat minima
    // let the sampled squared distance land one quantum short.
    let dh = line.distance(HALF, ONE);
    assert!(dh == HALF || dh == HALF - 1, "{}", dh);
    let dv = line.distance(0, HALF);
    assert!(dv == HALF || dv == HALF - 1, "{}", dv);

    // Cubic
    let line = Line::Curve {
        start: vec2(0, 0),
        end: vec2(ONE, ONE),
        first_control: vec2(52428, 0),
        second_control: vec2(ONE, 13107),
    };
    assert_eq!(line.distance(0, 0), 0);
    assert_eq!(line.distance(ONE, ONE), 0);

    // The nearest distance lies between 0.28284 and 0.28285, ~18537 scaled.
    let d0 = line.distance(ONE, 0);
    assert!(d0 >= 18500 && d0 <= 18570, "{}", d0);
}

#[test]
fn test_distance_nonnegative() {
    let segs = [
        Line::Line { start: vec2(-ONE, HALF), end: vec2(ONE, -HALF) },
        Line::Quad { start: vec2(0, ONE), end: vec2(ONE, ONE), control: vec2(HALF, 0) },
        Line::Curve {
            start: vec2(6553, 58982),
            end: vec2(58982, 58982),
            first_control: vec2(26214, 32768),
            second_control: vec2(39321, 72089),
        },
    ];
    let probes = [
        (0i64, 0i64),
        (ONE, ONE),
        (-HALF, HALF),
        (HALF, -ONE),
        (13107, 58982),
    ];
    for seg in segs.iter() {
        for (px, py) in probes.iter() {
            assert!(seg.distance(*px, *py) >= 0);
        }
    }
}

#[test]
fn test_distance_degenerate_segment() {
    // A zero-length segment measures the plain distance to its point.
    let line = Line::Line { start: vec2(HALF, HALF), end: vec2(HALF, HALF) };
    assert_eq!(line.distance(HALF, HALF), 0);
    assert_eq!(line.distance(HALF + ONE, HALF), ONE);
}

#[test]
fn test_distance_scales_linearly() {
    // Scaling a straight segment and the query point by a common factor
    // scales the distance by the same factor, within one quantum per unit
    // of scale.
    let cases = [
        ((0i64, 0i64), (ONE, ONE), (ONE, 0i64)),
        ((0, HALF), (ONE, 13107), (HALF, ONE)),
        ((-HALF, 0), (HALF, HALF), (0, -HALF)),
    ];
    for ((sx, sy), (ex, ey), (px, py)) in cases.iter() {
        let small = Line::Line { start: vec2(*sx, *sy), end: vec2(*ex, *ey) };
        let big = Line::Line {
            start: vec2(3 * sx, 3 * sy),
            end: vec2(3 * ex, 3 * ey),
        };
        let d = small.distance(*px, *py);
        let d3 = big.distance(3 * px, 3 * py);
        assert!(3 * d <= d3 && d3 < 3 * (d + 1), "{} {}", d, d3);
    }
}

#[test]
fn test_vector_operations() {
    let v = vec2(3 * ONE, 4 * ONE);
    assert_eq!(v.length(), 5 * ONE);
    assert_eq!(v.dot(vec2(ONE, ONE)), (3i64 * ONE) * ONE + (4i64 * ONE) * ONE);
    assert_eq!(v.cross(vec2(ONE, 0)), -(4i64 * ONE) * ONE);
    let s = v.sign();
    assert_eq!((s.x, s.y), (ONE, ONE));
    let a = vec2(-ONE, HALF).abs();
    assert_eq!((a.x, a.y), (ONE, HALF));
    // (3, 4) normalized is (0.6, 0.8): 39321.6 and 52428.8 floored.
    let n = v.normalize();
    assert_eq!((n.x, n.y), (39321, 52428));
    let z = vec2(0, 0).normalize();
    assert_eq!((z.x, z.y), (0, ONE));
    let o = v.get_orthonormal(true);
    assert_eq!((o.x, o.y), (-52429, 39321));
    let oz = vec2(0, 0).get_orthonormal(false);
    assert_eq!((oz.x, oz.y), (0, -ONE));
}

#[test]
fn test_vector_arithmetic() {
    let a = vec2(ONE, HALF);
    let b = vec2(HALF, -HALF);
    let s = a.add(b);
    assert_eq!((s.x, s.y), (ONE + HALF, 0));
    let d = a.sub(b);
    assert_eq!((d.x, d.y), (HALF, ONE));
    let m = a.mul(b);
    assert_eq!((m.x, m.y), (HALF, -HALF / 2));
    let q = a.div(b);
    assert_eq!((q.x, q.y), (2 * ONE, -ONE));
}

use easy_signed_distance_field::{vec2, Line, HALF, ONE};

fn intersection_1(line: &Line, y: i64) -> i64 {
    let (count, out) = line.intersections(y);
    assert_eq!(count, 1, "y: {:?} line: {:?} out: {:?}", y, line, out);
    out[0]
}

fn intersection_2(line: &Line, y: i64) -> [i64; 2] {
    let (count, out) = line.intersections(y);
    assert_eq!(count, 2, "y: {:?} line: {:?}", y, line);
    [out[0], out[1]]
}

#[test]
fn test_intersection() {
    // Linear
    let line = Line::Line { start: vec2(0, 0), end: vec2(ONE, ONE) };
    assert_eq!(intersection_1(&line, 0), 0);
    assert_eq!(intersection_1(&line, HALF), HALF);
    assert_eq!(intersection_1(&line, ONE), ONE);
    assert_eq!(line.intersections(ONE + HALF).0, 0);
    assert_eq!(line.intersections(-HALF).0, 0);

    // Quad
    let line = Line::Quad { start: vec2(0, 0), end: vec2(ONE, ONE), control: vec2(ONE, 0) };
    assert_eq!(intersection_1(&line, 0), 0);
    assert_eq!(intersection_1(&line, ONE), ONE);
    assert_eq!(line.intersections(ONE + HALF).0, 0);
    assert_eq!(line.intersections(-HALF).0, 0);

    // The crossing sits near x = 0.532455 for a row at y = 0.1.
    let d0 = intersection_1(&line, 6554);
    assert!(d0 > 34850 && d0 < 34940, "{}", d0);

    // The crossing sits near x = 0.914213 for the midline row.
    let d1 = intersection_1(&line, HALF);
    assert!(d1 > 59880 && d1 < 59960, "{}", d1);

    // The crossing sits near x = 0.997366 for a row at y = 0.9.
    let d2 = intersection_1(&line, 58982);
    assert!(d2 > 65320 && d2 < 65420, "{}", d2);

    let line = Line::Quad { start: vec2(0, ONE), end: vec2(ONE, ONE), control: vec2(HALF, 0) };
    assert_eq!(line.intersections(0).0, 0);

    // The crossings sit near x = 0.947213 and x = 0.052786 at y = 0.9.
    let [d3, d4] = intersection_2(&line, 58982);
    assert!(d3 > 62020 && d3 < 62140, "{}", d3);
    assert!(d4 > 3400 && d4 < 3520, "{}", d4);
}

#[test]
fn test_intersection_cubic() {
    let line = Line::Curve {
        start: vec2(0, 0),
        end: vec2(ONE, ONE),
        first_control: vec2(52428, 0),
        second_control: vec2(ONE, 13107),
    };
    // The crossing sits near x = 0.954741 for the midline row.
    let d = intersection_1(&line, HALF);
    assert!(d > 62480 && d < 62660, "{}", d);

    // Rows outside the curve's vertical range see no crossing.
    assert_eq!(line.intersections(2 * ONE).0, 0);
    assert_eq!(line.intersections(-ONE).0, 0);

    // An s-shaped cubic crosses one row twice.
    let line = Line::Curve {
        start: vec2(0, ONE),
        end: vec2(ONE, ONE),
        first_control: vec2(26214, 0),
        second_control: vec2(39321, 0),
    };
    assert_eq!(line.intersections(0).0, 0);
    let (count, out) = line.intersections(45875);
    assert_eq!(count, 2);
    let lo = out[0].min(out[1]);
    let hi = out[0].max(out[1]);
    // The curve parameter roots sit near t = 0.1127 and t = 0.8873; the
    // crossing x coordinates there are near 0.1282 and 0.8718.
    assert!(lo > 8330 && lo < 8470, "{}", lo);
    assert!(hi > 57070 && hi < 57210, "{}", hi);
}

#[test]
fn test_intersection_quad_degenerate() {
    // A quadratic whose control point sits midway degenerates to a line:
    // the leading coefficient vanishes and the linear fallback solves it.
    let line = Line::Quad { start: vec2(0, 0), end: vec2(ONE, ONE), control: vec2(HALF, HALF) };
    let (count, out) = line.intersections(HALF);
    assert_eq!(count, 1);
    assert_eq!(out[0], HALF);

    // The same degenerate quadratic with the row through both ends of its
    // flat y-range reports nothing beyond its span.
    assert_eq!(line.intersections(2 * ONE).0, 0);
}

use easy_signed_distance_field::{vec2, Line, HALF, ONE};

#[test]
fn test_normalize_to() {
    let line = Line::Line { start: vec2(13107, 26214), end: vec2(2 * ONE, 4 * ONE) };
    let n = line.normalize_to(2 * ONE, 4 * ONE);
    match n {
        Line::Line { start, end } => {
            assert_eq!((start.x, start.y), (6553, 6553));
            assert_eq!((end.x, end.y), (ONE, ONE));
        }
        _ => panic!("variant changed"),
    }
}

#[test]
fn test_normalize_to_with_offset() {
    let line = Line::Quad {
        start: vec2(3 * ONE, 5 * ONE),
        end: vec2(5 * ONE, 9 * ONE),
        control: vec2(4 * ONE, 7 * ONE),
    };
    let n = line.normalize_to_with_offset(3 * ONE, 5 * ONE, 2 * ONE, 4 * ONE);
    match n {
        Line::Quad { start, end, control } => {
            assert_eq!((start.x, start.y), (0, 0));
            assert_eq!((end.x, end.y), (ONE, ONE));
            assert_eq!((control.x, control.y), (HALF, HALF));
        }
        _ => panic!("variant changed"),
    }
}

#[test]
fn test_normalize_in_place() {
    let mut line = Line::Line { start: vec2(ONE, ONE), end: vec2(2 * ONE, 2 * ONE) };
    line.normalize(2 * ONE, 2 * ONE);
    match line {
        Line::Line { start, end } => {
            assert_eq!((start.x, start.y), (HALF, HALF));
            assert_eq!((end.x, end.y), (ONE, ONE));
        }
        _ => panic!("variant changed"),
    }

    let mut line = Line::Line { start: vec2(3 * ONE, 3 * ONE), end: vec2(4 * ONE, 5 * ONE) };
    line.normalize_with_offset(3 * ONE, 3 * ONE, ONE, 2 * ONE);
    match line {
        Line::Line { start, end } => {
            assert_eq!((start.x, start.y), (0, 0));
            assert_eq!((end.x, end.y), (ONE, ONE));
        }
        _ => panic!("variant changed"),
    }
}

#[test]
fn test_flip_y() {
    let mut line = Line::Curve {
        start: vec2(0, 0),
        end: vec2(ONE, ONE),
        first_control: vec2(13107, 13107),
        second_control: vec2(52428, 52428),
    };
    line.flip_y();
    match line {
        Line::Curve { start, end, first_control, second_control } => {
            assert_eq!((start.x, start.y), (0, ONE));
            assert_eq!((end.x, end.y), (ONE, 0));
            assert_eq!((first_control.x, first_control.y), (13107, ONE - 13107));
            assert_eq!((second_control.x, second_control.y), (52428, ONE - 52428));
        }
        _ => panic!("variant changed"),
    }
}

#[test]
fn test_normalize_round_trip() {
    // A segment drawn at three times the scale, normalized by a uniform
    // box of three units, lands exactly on the small segment; distances
    // measured before and after normalizing differ by the scale factor,
    // up to the fixed-point quantum.
    let small = Line::Line { start: vec2(0, HALF), end: vec2(ONE, 13107) };
    let big = Line::Line { start: vec2(0, 3 * HALF), end: vec2(3 * ONE, 3 * 13107) };
    let n = big.normalize_to(3 * ONE, 3 * ONE);
    match (n, small) {
        (Line::Line { start: ns, end: ne }, Line::Line { start: ss, end: se }) => {
            assert_eq!((ns.x, ns.y), (ss.x, ss.y));
            assert_eq!((ne.x, ne.y), (se.x, se.y));
        }
        _ => panic!("variant changed"),
    }
    let (px, py) = (HALF, ONE);
    let d_small = small.distance(px, py);
    let d_big = big.distance(3 * px, 3 * py);
    assert!(3 * d_small <= d_big && d_big < 3 * (d_small + 1), "{} {}", d_small, d_big);
}

use easy_signed_distance_field::{
    scanline, scanline_scan, sdf_generate, sdf_sample, sdf_to_bitmap, vec2, FontSettings, Line,
    HALF, ONE,
};

fn triangle() -> [Line; 3] {
    [
        Line::Line { start: vec2(HALF, 0), end: vec2(ONE, ONE) },
        Line::Line { start: vec2(ONE, ONE), end: vec2(0, ONE) },
        Line::Line { start: vec2(0, ONE), end: vec2(HALF, 0) },
    ]
}

#[test]
fn test_triangle() {
    let lines = triangle();
    let size: u32 = 32;
    let padding = 2;
    let sdf = sdf_generate(size, size, padding, 5 * ONE, &lines);

    assert_eq!(sdf.width, 32);
    assert_eq!(sdf.height, 32);
    assert_eq!(sdf.buffer.len(), 1024);

    // A pixel near the centroid is inside, the outer corner is outside.
    let center = sdf.buffer[16 + 32 * 24];
    assert!(center > HALF, "{}", center);
    let corner = sdf.buffer[0];
    assert!(corner < HALF, "{}", corner);

    let bitmap = sdf_to_bitmap(&sdf);
    assert_eq!(bitmap.buffer.len(), 1024);
    assert!(bitmap.buffer[16 + 32 * 24] > 127);
    assert!(bitmap.buffer[0] < 127);
}

#[test]
fn test_box_hole() {
    let lines = [
        Line::Line { start: vec2(0, 0), end: vec2(ONE, 0) },
        Line::Line { start: vec2(ONE, 0), end: vec2(ONE, ONE) },
        Line::Line { start: vec2(ONE, ONE), end: vec2(0, ONE) },
        Line::Line { start: vec2(0, ONE), end: vec2(0, 0) },
        Line::Line { start: vec2(HALF, 16384), end: vec2(16384, 49152) },
        Line::Line { start: vec2(16384, 49152), end: vec2(49152, 49152) },
        Line::Line { start: vec2(49152, 49152), end: vec2(HALF, 16384) },
    ];
    let sdf = sdf_generate(32, 32, 3, 8 * ONE, &lines);

    // The even-odd rule carves the triangular hole out of the box: a pixel
    // inside the hole is outside the shape.
    let hole = sdf.buffer[16 + 32 * 13];
    assert!(hole < HALF, "{}", hole);
    // A pixel between the box edge and the hole is inside.
    let ring = sdf.buffer[16 + 32 * 4];
    assert!(ring > HALF, "{}", ring);
    // The buffer corner lies in the padding margin, outside the box.
    assert!(sdf.buffer[0] < HALF);
}

#[test]
fn test_quad_bezier() {
    let view_box = 24 * ONE;
    let mut lines = [
        Line::Quad {
            start: vec2(4 * ONE, 10 * ONE),
            end: vec2(20 * ONE, 15 * ONE),
            control: vec2(12 * ONE, 0),
        },
        Line::Quad {
            start: vec2(20 * ONE, 15 * ONE),
            end: vec2(4 * ONE, 10 * ONE),
            control: vec2(12 * ONE, 24 * ONE),
        },
    ];
    for line in lines.iter_mut() {
        line.normalize(view_box, view_box);
    }

    let sdf = sdf_generate(32, 32, 0, 5 * ONE, &lines);
    // The lens interior around (0.5, 0.5) is inside; a corner is outside.
    let center = sdf.buffer[16 + 32 * 16];
    assert!(center > HALF, "{}", center);
    assert!(sdf.buffer[0] < HALF);
    assert!(sdf.buffer[31] < HALF);
}

#[test]
fn test_cubic_bezier() {
    // A flag-like shape.
    let lines = [
        Line::Curve {
            start: vec2(6553, 58982),
            end: vec2(58982, 58982),
            first_control: vec2(26214, HALF),
            second_control: vec2(39321, 72089),
        },
        Line::Line { start: vec2(58982, 58982), end: vec2(58982, 6553) },
        Line::Curve {
            start: vec2(58982, 6553),
            end: vec2(6553, 6553),
            first_control: vec2(39321, HALF),
            second_control: vec2(13107, -6553),
        },
        Line::Line { start: vec2(6553, 6553), end: vec2(6553, 58982) },
    ];
    let sdf = sdf_generate(32, 32, 0, 5 * ONE, &lines);
    let center = sdf.buffer[16 + 32 * 16];
    assert!(center > HALF, "{}", center);
    assert!(sdf.buffer[0] < HALF);
    assert!(sdf.buffer[31 + 32 * 31] < HALF);
}

#[test]
fn test_stretch() {
    let lines = [
        Line::Line { start: vec2(6553, 6553), end: vec2(58982, 6553) },
        Line::Line { start: vec2(58982, 6553), end: vec2(58982, 58982) },
        Line::Line { start: vec2(58982, 58982), end: vec2(6553, 58982) },
        Line::Line { start: vec2(6553, 58982), end: vec2(6553, 6553) },
    ];
    let sdf = sdf_generate(64, 32, 0, 8 * ONE, &lines);
    assert_eq!(sdf.width, 64);
    assert_eq!(sdf.height, 32);
    assert_eq!(sdf.buffer.len(), 2048);
    let center = sdf.buffer[32 + 64 * 16];
    assert!(center > HALF, "{}", center);
    assert!(sdf.buffer[1 + 64 * 16] < HALF);
}

#[test]
fn test_scanline_parity() {
    // A ray cast to the right crosses the triangle's boundary twice from
    // an outside point, once from an inside one.
    let lines = triangle();
    let row = scanline(49152, &lines);
    assert_eq!(row.intersections.len(), 2);
    assert!(scanline_scan(&row, HALF));
    assert!(!scanline_scan(&row, 0));
    assert!(!scanline_scan(&row, ONE));

    // A row above the triangle has no crossings at all.
    let empty = scanline(-HALF, &lines);
    assert_eq!(empty.intersections.len(), 0);
    assert!(!scanline_scan(&empty, HALF));
}

#[test]
fn test_scanline_sorted() {
    let lines = [
        Line::Line { start: vec2(49152, 0), end: vec2(49152, ONE) },
        Line::Line { start: vec2(16384, 0), end: vec2(16384, ONE) },
        Line::Line { start: vec2(HALF, 0), end: vec2(HALF, ONE) },
    ];
    let row = scanline(HALF, &lines);
    assert_eq!(row.intersections.len(), 3);
    assert_eq!(row.intersections[0], 16384);
    assert_eq!(row.intersections[1], HALF);
    assert_eq!(row.intersections[2], 49152);
}

#[test]
fn test_sample_at_pixel_center() {
    // Sampled exactly at a pixel center, the bilinear filter returns the
    // stored value of that pixel.
    let lines = triangle();
    let sdf = sdf_generate(32, 32, 2, 5 * ONE, &lines);
    let q = ONE / 64;
    for (ix, iy) in [(0u32, 0u32), (10, 20), (16, 24), (31, 31)] {
        let px = (2 * ix as i64 + 1) * q;
        let py = (2 * iy as i64 + 1) * q;
        let sampled = sdf_sample(&sdf, px, py);
        assert_eq!(sampled, sdf.buffer[ix as usize + 32 * iy as usize]);
    }
}

#[test]
fn test_sample_bounds() {
    let lines = triangle();
    let sdf = sdf_generate(32, 32, 2, 5 * ONE, &lines);
    for (px, py) in [(0i64, 0i64), (ONE, ONE), (12345, 54321), (HALF, HALF)] {
        let s = sdf_sample(&sdf, px, py);
        assert!(s >= 0 && s <= ONE);
    }
}

#[test]
fn test_bitmap_values() {
    // Byte conversion scales by 255 and truncates: 1.0 maps to 255, 0.5
    // to 127, 0.0 to 0.
    let lines = triangle();
    let sdf = sdf_generate(32, 32, 2, 20 * ONE, &lines);
    let bitmap = sdf_to_bitmap(&sdf);
    assert_eq!(bitmap.width, 32);
    assert_eq!(bitmap.height, 32);
    for i in 0..sdf.buffer.len() {
        let expected = (sdf.buffer[i] * 255 / ONE) as u8;
        assert_eq!(bitmap.buffer[i], expected);
    }
    // A deep interior pixel saturates to 255 with a steep spread.
    assert_eq!(bitmap.buffer[16 + 32 * 26], 255);
    assert_eq!(bitmap.buffer[0], 0);
}

#[test]
fn test_font_settings_default() {
    let settings = FontSettings::default();
    assert_eq!(settings.collection_index, 0);
}

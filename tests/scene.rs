use bhumi::scene::{BACKGROUND_COLOR, CUBE_COLOR, DRONE_COLOR};
use bhumi::{cube_corners, draw_drone_marker, draw_wireframe_cube, rasterize_frame, reference_cube_centers, PixelBuffer};

fn painted_points(b: &PixelBuffer, c: [u8; 4]) -> Vec<(u32, u32)> {
    let mut out = Vec::new();
    for y in 0..b.height {
        for x in 0..b.width {
            if b.get_pixel(x, y) == Some(c) {
                out.push((x, y));
            }
        }
    }
    out
}

#[test]
fn marker_is_cross_with_centre_square() {
    let mut b = PixelBuffer::new();
    draw_drone_marker(&mut b, 100, 50);
    let got = painted_points(&b, DRONE_COLOR);
    // the cross has 33 pixels, the square 16, and they share 7
    let mut expected = Vec::new();
    for y in 0..240u32 {
        for x in 0..320u32 {
            let on_h = y == 50 && (92..=108).contains(&x);
            let on_v = x == 100 && (42..=58).contains(&y);
            let on_sq = (98..102).contains(&x) && (48..52).contains(&y);
            if on_h || on_v || on_sq {
                expected.push((x, y));
            }
        }
    }
    assert_eq!(got, expected);
    assert_eq!(got.len(), 17 + 16 + 16 - 7);
}

#[test]
fn marker_near_edge_is_skipped() {
    for &(x, y) in &[(7u32, 100u32), (100, 7), (312, 100), (100, 232), (u32::MAX, u32::MAX)] {
        let mut b = PixelBuffer::new();
        let before = b.pixels.clone();
        draw_drone_marker(&mut b, x, y);
        assert_eq!(b.pixels, before);
    }
    let mut b = PixelBuffer::new();
    draw_drone_marker(&mut b, 8, 8);
    assert_eq!(b.get_pixel(0, 8), Some(DRONE_COLOR));
    let mut b = PixelBuffer::new();
    draw_drone_marker(&mut b, 311 - 1, 231 - 1);
    assert_eq!(b.get_pixel(318, 230), Some(DRONE_COLOR));
}

fn square_corners() -> [Option<(u32, u32)>; 8] {
    [
        Some((10, 10)),
        Some((20, 10)),
        Some((20, 20)),
        Some((10, 20)),
        Some((30, 30)),
        Some((40, 30)),
        Some((40, 40)),
        Some((30, 40)),
    ]
}

#[test]
fn wireframe_draws_twelve_edges() {
    let mut b = PixelBuffer::new();
    draw_wireframe_cube(&mut b, &square_corners(), CUBE_COLOR);
    // near face
    for t in 10..=20 {
        assert_eq!(b.get_pixel(t, 10), Some(CUBE_COLOR));
        assert_eq!(b.get_pixel(t, 20), Some(CUBE_COLOR));
        assert_eq!(b.get_pixel(10, t), Some(CUBE_COLOR));
        assert_eq!(b.get_pixel(20, t), Some(CUBE_COLOR));
    }
    // far face
    for t in 30..=40 {
        assert_eq!(b.get_pixel(t, 30), Some(CUBE_COLOR));
        assert_eq!(b.get_pixel(40, t), Some(CUBE_COLOR));
    }
    // connecting edges are diagonals
    for t in 0..=20 {
        assert_eq!(b.get_pixel(10 + t, 10 + t), Some(CUBE_COLOR));
        assert_eq!(b.get_pixel(20 + t, 20 + t), Some(CUBE_COLOR));
    }
    assert_eq!(b.get_pixel(15, 12), Some([0, 0, 0, 255]));
}

#[test]
fn wireframe_skips_edges_of_missing_corner() {
    let mut corners = square_corners();
    corners[0] = None;
    let mut b = PixelBuffer::new();
    draw_wireframe_cube(&mut b, &corners, CUBE_COLOR);
    // edges 0-1, 3-0 and 0-4 are gone
    assert_eq!(b.get_pixel(15, 10), Some([0, 0, 0, 255]));
    assert_eq!(b.get_pixel(10, 15), Some([0, 0, 0, 255]));
    assert_eq!(b.get_pixel(12, 12), Some([0, 0, 0, 255]));
    // edges 1-2 and 2-3 remain
    assert_eq!(b.get_pixel(20, 15), Some(CUBE_COLOR));
    assert_eq!(b.get_pixel(15, 20), Some(CUBE_COLOR));
    let mut all_missing = PixelBuffer::new();
    let before = all_missing.pixels.clone();
    draw_wireframe_cube(&mut all_missing, &[None; 8], CUBE_COLOR);
    assert_eq!(all_missing.pixels, before);
}

#[test]
fn frame_is_background_cubes_then_marker() {
    let mut b = PixelBuffer::new();
    rasterize_frame(&mut b, &vec![square_corners()], Some((20, 15)));
    assert_eq!(b.get_pixel(300, 200), Some(BACKGROUND_COLOR));
    assert_eq!(b.get_pixel(15, 10), Some(CUBE_COLOR));
    // the marker is drawn over the cube edge at x = 20
    assert_eq!(b.get_pixel(20, 12), Some(DRONE_COLOR));
    assert_eq!(b.get_pixel(12, 20), Some(CUBE_COLOR));
}

#[test]
fn rendering_twice_gives_identical_buffers() {
    let cubes = vec![square_corners(), [Some((0, 0)), Some((319, 239)), None, None, Some((5, 200)), None, None, None]];
    let mut a = PixelBuffer::new();
    let mut b = PixelBuffer::new();
    b.clear([9, 9, 9, 9]);
    b.draw_line(0, 0, 319, 239, [1, 1, 1, 1]);
    rasterize_frame(&mut a, &cubes, Some((160, 120)));
    let first = a.pixels.clone();
    rasterize_frame(&mut a, &cubes, Some((160, 120)));
    rasterize_frame(&mut b, &cubes, Some((160, 120)));
    assert_eq!(a.pixels, first);
    assert_eq!(b.pixels, first);
}

#[test]
fn grid_centres_around_origin() {
    let c = reference_cube_centers(0, 0, 0);
    assert_eq!(c.len(), 27);
    assert_eq!(c[0], (-15, -15, -15));
    assert_eq!(c[1], (-15, -15, 0));
    assert_eq!(c[3], (-15, 0, -15));
    assert_eq!(c[13], (0, 0, 0));
    assert_eq!(c[26], (15, 15, 15));
}

#[test]
fn grid_centres_follow_the_cell() {
    let c = reference_cube_centers(2, -1, 7);
    assert_eq!(c[13], (30, -15, 105));
    assert_eq!(c[0], (15, -30, 90));
    let far = reference_cube_centers(i32::MAX, i32::MIN, 0);
    assert_eq!(far[26], ((i32::MAX as i64 + 1) * 15, (i32::MIN as i64 + 1) * 15, 15));
}

#[test]
fn cube_corner_order() {
    let k = cube_corners((15, 0, -30));
    assert_eq!(k[0], (14, -1, -31));
    assert_eq!(k[1], (16, -1, -31));
    assert_eq!(k[2], (16, 1, -31));
    assert_eq!(k[3], (14, 1, -31));
    assert_eq!(k[4], (14, -1, -29));
    assert_eq!(k[6], (16, 1, -29));
    assert_eq!(k[7], (14, 1, -29));
}

use bhumi::PixelBuffer;

const RED: [u8; 4] = [255, 0, 0, 255];
const BLACK: [u8; 4] = [0, 0, 0, 255];

fn changed(a: &PixelBuffer, b: &PixelBuffer) -> Vec<(u32, u32)> {
    let mut out = Vec::new();
    for y in 0..a.height {
        for x in 0..a.width {
            if a.get_pixel(x, y) != b.get_pixel(x, y) {
                out.push((x, y));
            }
        }
    }
    out
}

#[test]
fn new_buffer_is_black_320_by_240() {
    let b = PixelBuffer::new();
    assert_eq!(b.width, 320);
    assert_eq!(b.height, 240);
    assert_eq!(b.pixels.len(), 320 * 240);
    assert!(b.pixels.iter().all(|p| *p == BLACK));
}

#[test]
fn set_then_get_returns_written_color() {
    let mut b = PixelBuffer::new();
    for &(x, y) in &[(0u32, 0u32), (319, 239), (17, 200), (319, 0), (0, 239)] {
        let c = [x as u8, y as u8, 7, 255];
        assert!(b.set_pixel(x, y, c));
        assert_eq!(b.get_pixel(x, y), Some(c));
    }
    assert_eq!(b.pixels[(200 * 320 + 17) as usize], [17, 200, 7, 255]);
}

#[test]
fn out_of_bounds_write_and_read_do_nothing() {
    let mut b = PixelBuffer::new();
    let before = b.pixels.clone();
    for &(x, y) in &[(320u32, 0u32), (0, 240), (320, 240), (u32::MAX, 5), (5, u32::MAX)] {
        assert!(!b.set_pixel(x, y, RED));
        assert_eq!(b.get_pixel(x, y), None);
    }
    assert_eq!(b.pixels, before);
}

#[test]
fn set_pixel_changes_exactly_one_pixel() {
    let mut b = PixelBuffer::new();
    let before = b.clone();
    b.set_pixel(40, 30, RED);
    assert_eq!(changed(&before, &b), vec![(40, 30)]);
}

#[test]
fn clear_fills_every_pixel() {
    let mut b = PixelBuffer::new();
    b.set_pixel(3, 3, RED);
    b.clear([1, 2, 3, 4]);
    assert!(b.pixels.iter().all(|p| *p == [1, 2, 3, 4]));
    assert_eq!(b.pixels.len(), 320 * 240);
}

#[test]
fn zero_length_line_sets_one_pixel() {
    let mut b = PixelBuffer::new();
    let before = b.clone();
    b.draw_line(12, 34, 12, 34, RED);
    assert_eq!(changed(&before, &b), vec![(12, 34)]);
    assert_eq!(b.get_pixel(12, 34), Some(RED));
}

#[test]
fn zero_length_line_outside_changes_nothing() {
    let mut b = PixelBuffer::new();
    let before = b.clone();
    b.draw_line(400, 10, 400, 10, RED);
    assert!(changed(&before, &b).is_empty());
}

#[test]
fn shallow_line_pixels() {
    let mut b = PixelBuffer::new();
    let before = b.clone();
    b.draw_line(0, 0, 5, 2, RED);
    let mut got = changed(&before, &b);
    got.sort_by_key(|p| (p.1, p.0));
    assert_eq!(got, vec![(0, 0), (1, 0), (2, 1), (3, 1), (4, 2), (5, 2)]);
}

#[test]
fn steep_reversed_line_pixels() {
    let mut b = PixelBuffer::new();
    let before = b.clone();
    b.draw_line(3, 7, 1, 0, RED);
    let mut got = changed(&before, &b);
    got.sort_by_key(|p| (p.1, p.0));
    assert_eq!(got, vec![(1, 0), (1, 1), (2, 2), (2, 3), (2, 4), (2, 5), (3, 6), (3, 7)]);
}

#[test]
fn line_toward_lower_left() {
    let mut b = PixelBuffer::new();
    let before = b.clone();
    b.draw_line(10, 10, 4, 13, RED);
    let mut got = changed(&before, &b);
    got.sort_by_key(|p| (p.1, p.0));
    assert_eq!(got, vec![(9, 10), (10, 10), (7, 11), (8, 11), (5, 12), (6, 12), (4, 13)]);
}

#[test]
fn horizontal_and_vertical_lines() {
    let mut b = PixelBuffer::new();
    let before = b.clone();
    b.draw_line(2, 5, 6, 5, RED);
    b.draw_line(9, 8, 9, 4, RED);
    let got = changed(&before, &b);
    assert_eq!(got.len(), 5 + 5);
    for x in 2..=6 {
        assert_eq!(b.get_pixel(x, 5), Some(RED));
    }
    for y in 4..=8 {
        assert_eq!(b.get_pixel(9, y), Some(RED));
    }
}

#[test]
fn line_leaving_the_buffer_is_truncated() {
    let mut b = PixelBuffer::new();
    let before = b.clone();
    b.draw_line(315, 100, 325, 100, RED);
    let got = changed(&before, &b);
    assert_eq!(got, vec![(315, 100), (316, 100), (317, 100), (318, 100), (319, 100)]);
}

#[test]
fn rect_fills_area() {
    let mut b = PixelBuffer::new();
    let before = b.clone();
    b.draw_rect(10, 20, 3, 2, RED);
    let mut got = changed(&before, &b);
    got.sort();
    assert_eq!(got, vec![(10, 20), (10, 21), (11, 20), (11, 21), (12, 20), (12, 21)]);
}

#[test]
fn rect_is_clipped_at_the_edges() {
    let mut b = PixelBuffer::new();
    let before = b.clone();
    b.draw_rect(318, 238, 10, 10, RED);
    let mut got = changed(&before, &b);
    got.sort();
    assert_eq!(got, vec![(318, 238), (318, 239), (319, 238), (319, 239)]);
    let before = b.clone();
    b.draw_rect(u32::MAX, u32::MAX, u32::MAX, u32::MAX, RED);
    b.draw_rect(5, 5, 0, 7, RED);
    assert!(changed(&before, &b).is_empty());
}

use nexview::render::skewt::{char_bitmap, line_fits, Canvas, COL_BG};

/// The blend the Skew-T renderer uses: `src * a + dst * (1 - a)` in `f32`, truncated.
fn blend(src: u8, dst: u8, a: u8) -> u8 {
    let alpha = a as f32 / 255.0;
    let inv = 1.0 - alpha;
    (src as f32 * alpha + dst as f32 * inv) as u8
}

fn px(c: &Canvas, x: u32, y: u32) -> [u8; 4] {
    let i = ((y * c.w + x) * 4) as usize;
    [c.pixels[i], c.pixels[i + 1], c.pixels[i + 2], c.pixels[i + 3]]
}

#[test]
fn new_canvas_is_background() {
    let c = Canvas::new(3, 2);
    assert_eq!(c.pixels.len(), 24);
    for y in 0..2 {
        for x in 0..3 {
            assert_eq!(px(&c, x, y), COL_BG);
        }
    }
}

#[test]
fn opaque_pixel_replaces_colour() {
    let mut c = Canvas::new(4, 4);
    c.put_pixel_blend(1, 2, [200, 100, 50, 255], &blend);
    assert_eq!(px(&c, 1, 2), [200, 100, 50, 255]);
    assert_eq!(px(&c, 2, 1), COL_BG);
}

#[test]
fn half_transparent_pixel_blends() {
    let mut c = Canvas::new(2, 2);
    c.put_pixel_blend(0, 0, [255, 255, 255, 128], &blend);
    assert_eq!(px(&c, 0, 0), [blend(255, 10, 128), blend(255, 10, 128), blend(255, 20, 128), 255]);
}

#[test]
fn off_canvas_pixels_are_ignored() {
    let mut c = Canvas::new(2, 2);
    let before = c.pixels.clone();
    c.put_pixel_blend(-1, 0, [255, 0, 0, 255], &blend);
    c.put_pixel_blend(0, 2, [255, 0, 0, 255], &blend);
    c.put_pixel_blend(2, 0, [255, 0, 0, 255], &blend);
    assert_eq!(c.pixels, before);
}

#[test]
fn line_covers_both_ends_and_diagonal() {
    let mut c = Canvas::new(5, 5);
    let red = [255, 0, 0, 255];
    c.draw_line(0, 0, 4, 4, red, &blend);
    for i in 0..5 {
        assert_eq!(px(&c, i, i), red);
    }
    assert_eq!(px(&c, 1, 0), COL_BG);
}

#[test]
fn shallow_line_pixels() {
    let mut c = Canvas::new(6, 3);
    let g = [0, 255, 0, 255];
    c.draw_line(0, 0, 4, 2, g, &blend);
    let painted: Vec<(u32, u32)> = (0..3)
        .flat_map(|y| (0..6).map(move |x| (x, y)))
        .filter(|&(x, y)| px(&c, x, y) == g)
        .collect();
    assert_eq!(painted, vec![(0, 0), (1, 1), (2, 1), (3, 2), (4, 2)]);
}

#[test]
fn span_is_clipped_to_canvas() {
    let mut c = Canvas::new(4, 2);
    let b = [0, 0, 255, 255];
    c.fill_span(1, -3, 10, b, &blend);
    for x in 0..4 {
        assert_eq!(px(&c, x, 1), b);
        assert_eq!(px(&c, x, 0), COL_BG);
    }
    let before = c.pixels.clone();
    c.fill_span(5, 0, 3, b, &blend);
    assert_eq!(c.pixels, before);
}

#[test]
fn glyphs() {
    assert_eq!(char_bitmap('0'), [0x0E, 0x11, 0x13, 0x15, 0x19, 0x11, 0x0E]);
    assert_eq!(char_bitmap('a'), char_bitmap('A'));
    assert_eq!(char_bitmap('~'), [0; 7]);
}

#[test]
fn text_draws_glyph_bits() {
    let mut c = Canvas::new(12, 7);
    let w = [255, 255, 255, 255];
    c.draw_text("1", 0, 0, w, &blend);
    let bits = char_bitmap('1');
    for row in 0..7u32 {
        for col in 0..5u32 {
            let on = bits[row as usize] & (1 << (4 - col)) != 0;
            assert_eq!(px(&c, col, row) == w, on, "row {} col {}", row, col);
        }
    }
}

#[test]
fn text_box_fills_background_then_text() {
    let mut c = Canvas::new(20, 12);
    let fg = [255, 255, 255, 255];
    let bg = [0, 0, 0, 255];
    c.draw_text_box("7", 3, 2, fg, bg, &blend);
    // Box corner and a pixel inside the box but outside the glyph.
    assert_eq!(px(&c, 1, 1), bg);
    assert_eq!(px(&c, 13, 11), bg);
    assert_eq!(px(&c, 14, 11), COL_BG);
    // Top row of '7' is fully set.
    for col in 0..5 {
        assert_eq!(px(&c, 3 + col, 2), fg);
    }
}

#[test]
fn wide_empty_canvas() {
    let c = Canvas::new(3_000_000_000, 0);
    assert_eq!((c.w, c.h, c.pixels.len()), (3_000_000_000, 0, 0));
}

#[test]
fn line_arithmetic_bounds() {
    assert!(line_fits(0, 0, 10, 3));
    assert!(line_fits(0, 0, 1 << 20, 0));
    assert!(!line_fits(0, 0, 1 << 30, 0));
    assert!(!line_fits(0, 0, 0, (1 << 30) + 1));
    assert!(!line_fits(i32::MIN, 0, i32::MAX, 0));
}

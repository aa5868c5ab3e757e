use andrew::line::Line;
use andrew::shapes::rectangle::{Rectangle, RectangleError, Sides};
use andrew::{Canvas, CanvasError, Endian};

const RED: [u8; 4] = [255, 200, 10, 20];

fn pixel(buf: &[u8], width: usize, x: usize, y: usize) -> [u8; 4] {
    let b = (y * width + x) * 4;
    [buf[b], buf[b + 1], buf[b + 2], buf[b + 3]]
}

fn painted(buf: &[u8], width: usize, height: usize) -> Vec<(usize, usize)> {
    let mut out = Vec::new();
    for y in 0..height {
        for x in 0..width {
            if pixel(buf, width, x, y) != [0, 0, 0, 0] {
                out.push((x, y));
            }
        }
    }
    out
}

#[test]
fn canvas_rejects_stride_not_multiple_of_width() {
    let mut buf = vec![0u8; 90];
    let r = Canvas::new(&mut buf, 10, 3, 31, Endian::Big);
    assert!(matches!(r, Err(CanvasError::InvalidDimensions)));
}

#[test]
fn canvas_rejects_wrong_buffer_length() {
    let mut buf = vec![0u8; 96];
    let r = Canvas::new(&mut buf, 5, 5, 20, Endian::Big);
    assert!(matches!(r, Err(CanvasError::InvalidDimensions)));
}

#[test]
fn canvas_rejects_zero_width_and_small_pixels() {
    let mut buf = vec![0u8; 0];
    assert!(Canvas::new(&mut buf, 0, 0, 0, Endian::Big).is_err());
    let mut buf = vec![0u8; 30];
    assert!(Canvas::new(&mut buf, 10, 3, 10, Endian::Big).is_err());
}

#[test]
fn canvas_accepts_padded_pixels() {
    let mut buf = vec![0u8; 48];
    let c = Canvas::new(&mut buf, 2, 3, 16, Endian::Big).unwrap();
    assert_eq!(c.pixel_size, 8);
    assert_eq!(c.width, 2);
    assert_eq!(c.height, 3);
}

#[test]
fn canvas_without_drawing_keeps_buffer() {
    let original: Vec<u8> = (0..400u32).map(|i| (i * 7 % 256) as u8).collect();
    let mut buf = original.clone();
    {
        let canvas = Canvas::new(&mut buf, 10, 10, 40, Endian::Little).unwrap();
        assert_eq!(&canvas.buffer[..], &original[..]);
    }
    assert_eq!(buf, original);
}

#[test]
fn opaque_point_big_endian_is_exact() {
    let mut buf = vec![9u8; 16];
    let mut c = Canvas::new(&mut buf, 2, 2, 8, Endian::Big).unwrap();
    c.draw_point(1, 1, [255, 1, 2, 3]);
    assert_eq!(&buf[12..16], &[255, 1, 2, 3]);
    assert_eq!(&buf[0..12], &[9u8; 12]);
}

#[test]
fn opaque_point_little_endian_is_reversed() {
    let mut buf = vec![9u8; 16];
    let mut c = Canvas::new(&mut buf, 2, 2, 8, Endian::Little).unwrap();
    c.draw_point(0, 1, [255, 1, 2, 3]);
    assert_eq!(&buf[8..12], &[3, 2, 1, 255]);
    assert_eq!(&buf[12..16], &[9u8; 4]);
}

#[test]
fn translucent_point_blends_and_rounds_down() {
    let mut buf = vec![0u8, 100, 100, 100];
    let mut c = Canvas::new(&mut buf, 1, 1, 4, Endian::Big).unwrap();
    c.draw_point(0, 0, [128, 200, 0, 100]);
    // 100 + (200 - 100) * 128 / 255 = 150.19; 100 - 100 * 128 / 255 = 49.8
    assert_eq!(buf, vec![255, 150, 49, 100]);
}

#[test]
fn translucent_point_little_endian() {
    let mut buf = vec![100u8, 100, 100, 7];
    let mut c = Canvas::new(&mut buf, 1, 1, 4, Endian::Little).unwrap();
    c.draw_point(0, 0, [51, 255, 0, 100]);
    // blue 100 -> 100, green 100 -> 80, red 100 -> 131
    assert_eq!(buf, vec![100, 80, 131, 255]);
}

#[test]
fn zero_alpha_point_keeps_colour() {
    let mut buf = vec![17u8, 33, 65, 129];
    let mut c = Canvas::new(&mut buf, 1, 1, 4, Endian::Big).unwrap();
    c.draw_point(0, 0, [0, 255, 255, 255]);
    assert_eq!(buf, vec![255, 33, 65, 129]);
}

#[test]
fn clear_zeroes_everything() {
    let mut buf = vec![5u8; 64];
    let mut c = Canvas::new(&mut buf, 4, 4, 16, Endian::Big).unwrap();
    c.clear();
    assert_eq!(buf, vec![0u8; 64]);
}

#[test]
fn native_endian_matches_target() {
    let expected = if u16::from_ne_bytes([1, 0]) == 1 { Endian::Little } else { Endian::Big };
    assert_eq!(Endian::native(), expected);
}

#[test]
fn vertical_line_sets_exactly_its_pixels() {
    let mut buf = vec![0u8; 400];
    let mut c = Canvas::new(&mut buf, 10, 10, 40, Endian::Big).unwrap();
    c.draw(&Line::new((2, 2), (2, 6), RED, false));
    let got = painted(&buf, 10, 10);
    assert_eq!(got, vec![(2, 2), (2, 3), (2, 4), (2, 5), (2, 6)]);
    for y in 2..=6 {
        assert_eq!(pixel(&buf, 10, 2, y), RED);
    }
}

#[test]
fn horizontal_line_is_clipped() {
    let mut buf = vec![0u8; 64];
    let mut c = Canvas::new(&mut buf, 4, 4, 16, Endian::Big).unwrap();
    c.draw(&Line::new((9, 1), (2, 1), RED, true));
    assert_eq!(painted(&buf, 4, 4), vec![(2, 1), (3, 1)]);
}

#[test]
fn line_off_canvas_draws_nothing() {
    let mut buf = vec![0u8; 64];
    let mut c = Canvas::new(&mut buf, 4, 4, 16, Endian::Big).unwrap();
    c.draw(&Line::new((7, 0), (7, 3), RED, false));
    c.draw(&Line::new((5, 5), (9, 9), RED, false));
    assert!(painted(&buf, 4, 4).is_empty());
}

#[test]
fn diagonal_line_sets_four_pixels() {
    let mut buf = vec![0u8; 400];
    let mut c = Canvas::new(&mut buf, 10, 10, 40, Endian::Big).unwrap();
    c.draw(&Line::new((0, 0), (3, 3), RED, false));
    assert_eq!(painted(&buf, 10, 10), vec![(0, 0), (1, 1), (2, 2), (3, 3)]);
}

#[test]
fn steep_line_steps_along_y() {
    let mut buf = vec![0u8; 400];
    let mut c = Canvas::new(&mut buf, 10, 10, 40, Endian::Big).unwrap();
    c.draw(&Line::new((1, 4), (0, 0), RED, false));
    // five rows; the nearest column moves at the midpoint
    assert_eq!(painted(&buf, 10, 10), vec![(0, 0), (0, 1), (1, 2), (1, 3), (1, 4)]);
}

#[test]
fn antialiased_diagonal_is_fully_covered_on_the_line() {
    let mut buf = vec![0u8; 400];
    let mut c = Canvas::new(&mut buf, 10, 10, 40, Endian::Big).unwrap();
    c.draw(&Line::new((0, 0), (3, 3), [255, 255, 255, 255], true));
    for i in 0..4 {
        assert_eq!(pixel(&buf, 10, i, i), [255, 255, 255, 255]);
    }
    // the neighbours across the line get no coverage
    assert_eq!(pixel(&buf, 10, 1, 2), [255, 0, 0, 0]);
    assert_eq!(pixel(&buf, 10, 2, 3), [255, 0, 0, 0]);
}

#[test]
fn antialiased_line_splits_coverage() {
    let mut buf = vec![0u8; 400];
    let mut c = Canvas::new(&mut buf, 10, 10, 40, Endian::Big).unwrap();
    c.draw(&Line::new((0, 0), (4, 1), [255, 255, 255, 255], true));
    // step 1: the ideal line is a quarter pixel down: 3/4 and 1/4 coverage
    assert_eq!(pixel(&buf, 10, 1, 0), [255, 191, 191, 191]);
    assert_eq!(pixel(&buf, 10, 1, 1), [255, 63, 63, 63]);
    // step 2: half way: the weights are equal and add up to full coverage
    assert_eq!(pixel(&buf, 10, 2, 0), [255, 127, 127, 127]);
    assert_eq!(pixel(&buf, 10, 2, 1), [255, 127, 127, 127]);
    assert_eq!(pixel(&buf, 10, 0, 0), [255, 255, 255, 255]);
    assert_eq!(pixel(&buf, 10, 4, 1), [255, 255, 255, 255]);
}

#[test]
fn bordered_rectangle_leaves_inside_untouched() {
    let mut buf = vec![0u8; 400];
    let mut c = Canvas::new(&mut buf, 10, 10, 40, Endian::Big).unwrap();
    let rect = Rectangle::new((0, 0), (10, 10), Some((2, RED, Sides::all(), None)), None).unwrap();
    c.draw(&rect);
    for y in 0..10 {
        for x in 0..10 {
            let inner = (2..8).contains(&x) && (2..8).contains(&y);
            let expected = if inner { [0, 0, 0, 0] } else { RED };
            assert_eq!(pixel(&buf, 10, x, y), expected, "pixel ({}, {})", x, y);
        }
    }
}

#[test]
fn filled_rectangle_paints_whole_canvas() {
    let mut buf = vec![0u8; 100];
    let mut c = Canvas::new(&mut buf, 5, 5, 20, Endian::Big).unwrap();
    let rect = Rectangle::new((0, 0), (5, 5), None, Some(RED)).unwrap();
    c.draw(&rect);
    for y in 0..5 {
        for x in 0..5 {
            assert_eq!(pixel(&buf, 5, x, y), RED);
        }
    }
}

#[test]
fn partial_border_top_and_bottom() {
    let mut buf = vec![0u8; 144];
    let mut c = Canvas::new(&mut buf, 6, 6, 24, Endian::Big).unwrap();
    let sides = Sides::top().union(Sides::bottom());
    let fill = [255, 1, 1, 1];
    let rect = Rectangle::new((0, 0), (6, 6), Some((1, RED, sides, None)), Some(fill)).unwrap();
    c.draw(&rect);
    for x in 0..6 {
        assert_eq!(pixel(&buf, 6, x, 0), RED);
        assert_eq!(pixel(&buf, 6, x, 5), RED);
        for y in 1..5 {
            assert_eq!(pixel(&buf, 6, x, y), fill);
        }
    }
}

#[test]
fn rounded_corners_skip_the_corner_pixel() {
    let mut buf = vec![0u8; 400];
    let mut c = Canvas::new(&mut buf, 10, 10, 40, Endian::Big).unwrap();
    let rect = Rectangle::new((0, 0), (10, 10), Some((3, RED, Sides::all(), Some(3))), None).unwrap();
    c.draw(&rect);
    // the outer ring stops one pixel short of each corner: 3 - round(sqrt(5)) = 1
    for (x, y) in [(0, 0), (9, 0), (0, 9), (9, 9)] {
        assert_eq!(pixel(&buf, 10, x, y), [0, 0, 0, 0]);
    }
    assert_eq!(pixel(&buf, 10, 1, 0), RED);
    assert_eq!(pixel(&buf, 10, 0, 1), RED);
    assert_eq!(pixel(&buf, 10, 1, 1), RED);
    assert_eq!(pixel(&buf, 10, 5, 5), [0, 0, 0, 0]);
}

#[test]
fn rectangle_rejects_oversized_border() {
    let r = Rectangle::new((0, 0), (4, 10), Some((3, RED, Sides::all(), None)), None);
    assert!(matches!(r, Err(RectangleError::InvalidGeometry)));
    let r = Rectangle::new((0, 0), (10, 10), Some((2, RED, Sides::all(), Some(3))), None);
    assert!(matches!(r, Err(RectangleError::InvalidGeometry)));
    let r = Rectangle::new((usize::MAX, 0), (2, 2), None, Some(RED));
    assert!(r.is_err());
}

#[test]
fn invalid_rectangle_draws_nothing() {
    let mut buf = vec![0u8; 64];
    let mut c = Canvas::new(&mut buf, 4, 4, 16, Endian::Big).unwrap();
    let rect = Rectangle { pos: (0, 0), size: (2, 2), border: Some((2, RED, Sides::all(), None)), fill: Some(RED) };
    c.draw(&rect);
    assert_eq!(buf, vec![0u8; 64]);
}

#[test]
fn measure_area_shrinks_on_bordered_sides() {
    let rect = Rectangle::new((1, 2), (10, 8), Some((2, RED, Sides::left().union(Sides::top()), None)), None).unwrap();
    assert_eq!(rect.measure_area(), ((3, 4), (8, 6)));
}

#[test]
fn sides_contains() {
    let s = Sides::left().union(Sides::right());
    assert!(s.contains(Sides::left()));
    assert!(!s.contains(Sides::top()));
    assert!(Sides::all().contains(s));
    assert!(s.contains(Sides::empty()));
}

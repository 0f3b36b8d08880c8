use darude::arith::UNIT;
use darude::canvas::Canvas;
use darude::cardioid::Cardioid;
use darude::color::{rgb, rgba, OPAQUE};
use darude::ppm::{push_decimal, write_ppm, PPMFile};
use darude::primitives::{Circle, Line};
use darude::shape::{Bounds, Point};

fn trig(t: i32) -> Point {
    let a = t as f64 / UNIT as f64 * std::f64::consts::TAU;
    Point { x: (a.cos() * UNIT as f64).round() as i32, y: (a.sin() * UNIT as f64).round() as i32 }
}

fn square() -> Bounds {
    Bounds { up_left: Point { x: 0, y: 4 }, down_right: Point { x: 4, y: 0 } }
}

#[test]
fn new_canvas_is_background() {
    let bg = rgb(7, 54, 66);
    let canvas = Canvas::new(3, 5, bg);
    assert_eq!(canvas.height, 3);
    assert_eq!(canvas.width, 5);
    assert_eq!(canvas.bg, bg);
    assert_eq!(canvas.buf.len(), 15);
    assert!(canvas.buf.iter().all(|c| *c == bg));
}

#[test]
fn projection_with_equal_proportions() {
    let canvas = Canvas::new(4, 4, rgb(0, 0, 0));
    let b = square();
    assert_eq!(canvas.find_nearest_pixel(Point { x: 0, y: 0 }, &b), Some(12));
    assert_eq!(canvas.find_nearest_pixel(Point { x: 4, y: 4 }, &b), Some(3));
    assert_eq!(canvas.find_nearest_pixel(Point { x: 0, y: 4 }, &b), Some(0));
    assert_eq!(canvas.find_nearest_pixel(Point { x: 4, y: 0 }, &b), Some(15));
    // column 2 * 3 / 4 = 1.5, row (1 - 2 / 4) * 3 = 1.5
    assert_eq!(canvas.find_nearest_pixel(Point { x: 2, y: 2 }, &b), Some(5));
}

#[test]
fn projection_on_a_wider_canvas() {
    let canvas = Canvas::new(4, 8, rgb(0, 0, 0));
    let b = square();
    // column (4 / 4) * (1 / 2) * 7 = 3.5, row (1 - 0) * 3 = 3
    assert_eq!(canvas.find_nearest_pixel(Point { x: 4, y: 0 }, &b), Some(27));
    assert_eq!(canvas.find_nearest_pixel(Point { x: 0, y: 4 }, &b), Some(0));
    // column (2 / 4) * (1 / 2) * 7 = 1.75, row (1 - 1 / 4) * 3 = 2.25
    assert_eq!(canvas.find_nearest_pixel(Point { x: 2, y: 1 }, &b), Some(17));
}

#[test]
fn projection_on_a_taller_canvas() {
    let canvas = Canvas::new(8, 4, rgb(0, 0, 0));
    let b = square();
    // row (1 - 0) * 7 = 7
    assert_eq!(canvas.find_nearest_pixel(Point { x: 0, y: 0 }, &b), Some(28));
    // column 3, row (1 - (4 / 4) * (1 / 2)) * 7 = 3.5
    assert_eq!(canvas.find_nearest_pixel(Point { x: 4, y: 4 }, &b), Some(15));
}

#[test]
fn projection_drops_points_off_the_grid() {
    let canvas = Canvas::new(4, 4, rgb(0, 0, 0));
    let b = square();
    // column -3 / 4 rounds down to -1
    assert_eq!(canvas.find_nearest_pixel(Point { x: -1, y: 0 }, &b), None);
    // column 6 * 3 / 4 = 4.5
    assert_eq!(canvas.find_nearest_pixel(Point { x: 6, y: 0 }, &b), None);
    // row (1 - 6 / 4) * 3 = -1.5
    assert_eq!(canvas.find_nearest_pixel(Point { x: 0, y: 6 }, &b), None);
    // row (1 + 2 / 4) * 3 = 4.5
    assert_eq!(canvas.find_nearest_pixel(Point { x: 0, y: -2 }, &b), None);
    // far away
    assert_eq!(canvas.find_nearest_pixel(Point { x: i32::MAX, y: i32::MIN }, &b), None);
    assert_eq!(canvas.find_nearest_pixel(Point { x: i32::MIN, y: i32::MAX }, &b), None);
}

#[test]
fn projection_without_extent_drops_everything() {
    let canvas = Canvas::new(4, 4, rgb(0, 0, 0));
    let flat = Bounds { up_left: Point { x: 0, y: 0 }, down_right: Point { x: 4, y: 0 } };
    let thin = Bounds { up_left: Point { x: 0, y: 4 }, down_right: Point { x: 0, y: 0 } };
    let dot = Bounds { up_left: Point { x: 0, y: 0 }, down_right: Point { x: 0, y: 0 } };
    let turned = Bounds { up_left: Point { x: 4, y: 0 }, down_right: Point { x: 0, y: 4 } };
    for b in [flat, thin, dot, turned].iter() {
        assert_eq!(canvas.find_nearest_pixel(Point { x: 0, y: 0 }, b), None);
    }
    let empty = Canvas::new(0, 4, rgb(0, 0, 0));
    assert_eq!(empty.find_nearest_pixel(Point { x: 0, y: 0 }, &square()), None);
    let empty = Canvas::new(4, 0, rgb(0, 0, 0));
    assert_eq!(empty.find_nearest_pixel(Point { x: 0, y: 0 }, &square()), None);
}

#[test]
fn projection_on_the_largest_box() {
    let canvas = Canvas::new(3, 2, rgb(0, 0, 0));
    let b = Bounds {
        up_left: Point { x: i32::MIN, y: i32::MAX },
        down_right: Point { x: i32::MAX, y: i32::MIN },
    };
    assert_eq!(canvas.find_nearest_pixel(Point { x: i32::MIN, y: i32::MAX }, &b), Some(0));
    assert_eq!(canvas.find_nearest_pixel(Point { x: i32::MIN, y: i32::MIN }, &b), Some(4));
    assert_eq!(canvas.find_nearest_pixel(Point { x: i32::MAX, y: i32::MAX }, &b), Some(1));
}

#[test]
fn project_points_keeps_order_and_drops_misses() {
    let canvas = Canvas::new(4, 4, rgb(0, 0, 0));
    let pts = vec![
        Point { x: 4, y: 4 },
        Point { x: -1, y: 0 },
        Point { x: 0, y: 0 },
        Point { x: 2, y: 2 },
        Point { x: 0, y: 9 },
        Point { x: 4, y: 4 },
    ];
    assert_eq!(canvas.project_points(&pts, &square()), vec![3, 12, 5, 3]);
}

#[test]
fn blend_counts_every_hit() {
    let bg = rgb(0, 0, 200);
    let mut canvas = Canvas::new(2, 2, bg);
    let half = rgba(200, 0, 0, OPAQUE / 2);
    canvas.blend_pixels(&vec![1, 3, 1, 9, 1], half);
    assert_eq!(canvas.buf[0], bg);
    // 0 -> 100 -> 150 -> 175 and 200 -> 100 -> 50 -> 25
    assert_eq!(canvas.buf[1], rgb(175, 0, 25));
    assert_eq!(canvas.buf[2], bg);
    assert_eq!(canvas.buf[3], rgb(100, 0, 100));
    assert_eq!(canvas.buf.len(), 4);
    assert_eq!(canvas.bg, bg);
}

#[test]
fn blend_opaque_paints() {
    let bg = rgba(1, 2, 3, 17);
    let ink = rgb(250, 128, 0);
    let mut canvas = Canvas::new(1, 4, bg);
    canvas.blend_pixels(&vec![2, 2, 0, 4], ink);
    assert_eq!(canvas.buf, vec![ink, bg, ink, bg]);
}

#[test]
fn rasterize_opaque_line_paints_the_diagonal() {
    let bg = rgb(7, 54, 66);
    let ink = rgb(147, 161, 161);
    let mut canvas = Canvas::new(8, 8, bg);
    let line = Line::new(Point { x: 0, y: 0 }, Point { x: UNIT, y: UNIT });
    canvas.rasterize_shapes(vec![line], ink, 4000, &trig);
    assert_eq!(canvas.buf.len(), 64);
    // the point at parameter t lies in column 7 t and row 7 - 7 t, both
    // rounded down: one step down the diagonal for all but the very start
    let mut painted = 0;
    for row in 0..8usize {
        for col in 0..8usize {
            let cell = canvas.buf[row * 8 + col];
            if col + row == 6 {
                assert_eq!(cell, ink);
                painted += 1;
            } else if col + row == 7 && col == 0 {
                assert!(cell == ink || cell == bg);
            } else {
                assert_eq!(cell, bg);
            }
        }
    }
    assert_eq!(painted, 7);
}

#[test]
fn rasterize_opaque_circle_on_matching_canvas() {
    let bg = rgb(0, 0, 0);
    let ink = rgb(255, 255, 255);
    let mut canvas = Canvas::new(16, 16, bg);
    // the box of the circle and the origin is the square from (0, 2) to (2, 0)
    let circle = Circle::new(Point { x: UNIT, y: UNIT }, UNIT as u32);
    canvas.rasterize_shapes(vec![circle], ink, 20_000, &trig);
    for cell in canvas.buf.iter() {
        assert!(*cell == ink || *cell == bg);
    }
    // the four points where the circle touches its box
    assert_eq!(canvas.buf[7 * 16 + 15], ink);
    assert_eq!(canvas.buf[7], ink);
    assert_eq!(canvas.buf[7 * 16], ink);
    assert_eq!(canvas.buf[15 * 16 + 7], ink);
    // the middle and the corners stay empty
    assert_eq!(canvas.buf[8 * 16 + 8], bg);
    assert_eq!(canvas.buf[0], bg);
    assert_eq!(canvas.buf[255], bg);
}

#[test]
fn rasterize_several_shapes_accumulates() {
    let bg = rgb(0, 0, 0);
    let ink = rgba(255, 255, 255, OPAQUE / 2);
    let mut canvas = Canvas::new(1, 2, bg);
    // both segments lie on the lower edge of the box from (0, 1) to (1, 0),
    // each within one pixel column
    let left = Line::new(Point { x: 0, y: 0 }, Point { x: UNIT / 4, y: 0 });
    let right = Line::new(Point { x: UNIT, y: 0 }, Point { x: UNIT, y: 0 });
    let up = Line::new(Point { x: 0, y: UNIT }, Point { x: 0, y: UNIT });
    canvas.rasterize_shapes(vec![left, right, up], ink, 2, &trig);
    // the canvas is twice as wide as the box, so the box fills its left half:
    // every point falls into column 0, six times in all
    let mut expected = bg;
    for _ in 0..6 {
        expected = ink.mix(&expected);
    }
    assert_eq!(canvas.buf[0], expected);
    assert_eq!(canvas.buf[1], bg);
}

#[test]
fn rasterize_nothing_changes_nothing() {
    let bg = rgb(9, 9, 9);
    let mut canvas = Canvas::new(3, 3, bg);
    let none: Vec<Line> = Vec::new();
    canvas.rasterize_shapes(none, rgb(1, 1, 1), 100, &trig);
    assert!(canvas.buf.iter().all(|c| *c == bg));
    // a single point has a box without extent
    let dot = Line::new(Point { x: 0, y: 0 }, Point { x: 0, y: 0 });
    canvas.rasterize_shapes(vec![dot], rgb(1, 1, 1), 100, &trig);
    assert!(canvas.buf.iter().all(|c| *c == bg));
}

#[test]
fn rasterize_cardioids() {
    let bg = rgb(7, 54, 66);
    let ink = rgba(147, 161, 161, OPAQUE / 20);
    let mut canvas = Canvas::new(64, 64, bg);
    let mut shapes = Vec::new();
    for i in 0..4usize {
        let center = Point { x: (i % 2) as i32 * UNIT, y: (i / 2) as i32 * UNIT };
        shapes.push(Cardioid::new(center, (UNIT / 2) as u32, i + 2));
    }
    canvas.rasterize_shapes(shapes, ink, 40_000, &trig);
    assert_eq!(canvas.buf.len(), 64 * 64);
    assert!(canvas.buf.iter().any(|c| *c != bg));
    assert!(canvas.buf.iter().all(|c| *c == bg || c.a == OPAQUE));
}

#[test]
fn serialize_composites_over_the_background() {
    let bg = rgb(100, 100, 100);
    let mut canvas = Canvas::new(1, 2, bg);
    canvas.buf[1] = rgba(200, 0, 50, OPAQUE / 2);
    assert_eq!(canvas.serialize(), vec![bg, rgb(150, 50, 75)]);
}

#[test]
fn canvas_as_ppm() {
    let mut canvas = Canvas::new(2, 3, rgb(7, 54, 66));
    canvas.blend_pixels(&vec![4], rgb(255, 0, 100));
    let mut out: Vec<u8> = Vec::new();
    canvas.write_as_ppm(&mut out);
    let expected = "P3\n3 2\n255\n7 54 66 7 54 66 7 54 66\n7 54 66 255 0 100 7 54 66\n";
    assert_eq!(String::from_utf8(out).unwrap(), expected);
}

#[test]
fn ppm_file_text() {
    let file = PPMFile {
        buf: vec![rgb(0, 1, 2), rgb(10, 99, 100), rgb(255, 254, 9), rgb(3, 30, 200)],
        height: 2,
        width: 2,
        max: 255,
    };
    let mut out: Vec<u8> = b"# ".to_vec();
    file.write_to_file(&mut out);
    let expected = "# P3\n2 2\n255\n0 1 2 10 99 100\n255 254 9 3 30 200\n";
    assert_eq!(String::from_utf8(out).unwrap(), expected);
}

#[test]
fn ppm_of_an_empty_image() {
    let file = PPMFile { buf: Vec::new(), height: 0, width: 0, max: 15 };
    let mut out: Vec<u8> = Vec::new();
    file.write_to_file(&mut out);
    assert_eq!(String::from_utf8(out).unwrap(), "P3\n0 0\n15\n");
}

#[test]
fn ppm_single_column() {
    let mut out: Vec<u8> = Vec::new();
    write_ppm(&mut out, &vec![rgb(1, 2, 3), rgb(4, 5, 6)], 1, 2, 255);
    assert_eq!(String::from_utf8(out).unwrap(), "P3\n1 2\n255\n1 2 3\n4 5 6\n");
}

#[test]
fn decimal_digits() {
    for n in [0usize, 7, 10, 99, 100, 255, 2000, 18446744073709551615] {
        let mut out: Vec<u8> = Vec::new();
        push_decimal(&mut out, n);
        assert_eq!(String::from_utf8(out).unwrap(), n.to_string());
    }
}

use renderer::canvas::{gray_level, Canvas, CanvasError, PixelTriangle, Point, EMPTY_DEPTH};
use renderer::color::{Ergbcolor, RgbColor};
use renderer::raster::RANDOM_COLOR_LIMIT;

fn pt(x: i32, y: i32, z: i32) -> Point {
    Point { x, y, z }
}

fn tri(a: (i32, i32), b: (i32, i32), c: (i32, i32), z: i32) -> PixelTriangle {
    PixelTriangle { p0: pt(a.0, a.1, z), p1: pt(b.0, b.1, z), p2: pt(c.0, c.1, z) }
}

fn lit(c: &Canvas, color: u32) -> Vec<(i32, i32)> {
    let mut out = Vec::new();
    for y in 0..c.get_height() as i32 {
        for x in 0..c.get_width() as i32 {
            if c.get(x, y) == Ok(color) {
                out.push((x, y));
            }
        }
    }
    out.sort();
    out
}

fn count_lit(c: &Canvas, color: u32) -> usize {
    lit(c, color).len()
}

#[test]
fn canvas_sdl_out_of_image_bounds() {
    let white = RgbColor::new(Ergbcolor::WHITE).value();
    let mut canvas = Canvas::new_with_depth(100, 100);
    canvas.line(pt(-100, 0, 0), pt(50, 50, 0), white);
    println!("Line {},{}..{},{} is OK", -100, 0, 50, 50);
    canvas.line(pt(0, -100, 0), pt(50, 50, 0), white);
    println!("Line {},{}..{},{} is OK", 0, -100, 50, 50);
    canvas.line(pt(0, 0, 0), pt(500, 50, 0), white);
    println!("Line {},{}..{},{} is OK", 0, 0, 500, 50);
    canvas.line(pt(0, 0, 0), pt(50, 500, 0), white);
    println!("Line {},{}..{},{} is OK", 0, 0, 50, 500);
    assert_eq!(canvas.get(50, 50), Ok(white));
    assert_eq!(canvas.get(99, 10), Ok(white));
    assert_eq!(canvas.get(5, 50), Ok(white));
    assert_eq!(canvas.get(0, 33), Ok(white));
}

#[test]
fn canvas_tga_out_of_image_bounds() {
    let white = RgbColor::new(Ergbcolor::WHITE).value();
    let mut canvas = Canvas::new(100, 100);
    canvas.line(pt(-100, 0, 0), pt(50, 50, 0), white);
    println!("Line {},{}..{},{} is OK", -100, 0, 50, 50);
    assert_eq!(count_lit(&canvas, white), 51);
    let mut canvas = Canvas::new(100, 100);
    canvas.line(pt(0, -100, 0), pt(50, 50, 0), white);
    println!("Line {},{}..{},{} is OK", 0, -100, 50, 50);
    assert_eq!(count_lit(&canvas, white), 51);
    let mut canvas = Canvas::new(100, 100);
    canvas.line(pt(0, 0, 0), pt(500, 50, 0), white);
    println!("Line {},{}..{},{} is OK", 0, 0, 500, 50);
    assert_eq!(count_lit(&canvas, white), 100);
    let mut canvas = Canvas::new(100, 100);
    canvas.line(pt(0, 0, 0), pt(50, 500, 0), white);
    println!("Line {},{}..{},{} is OK", 0, 0, 50, 500);
    assert_eq!(count_lit(&canvas, white), 100);
}

#[test]
fn line_pixels_exact() {
    let mut c = Canvas::new(5, 5);
    c.line(pt(0, 0, 0), pt(2, 1, 0), 7);
    assert_eq!(lit(&c, 7), vec![(0, 0), (1, 1), (2, 1)]);
}

#[test]
fn line_rounds_halfway_samples_away_from_zero() {
    let mut c = Canvas::new(3, 3);
    c.line(pt(0, 1, 0), pt(2, 0, 0), 7);
    assert_eq!(lit(&c, 7), vec![(0, 1), (1, 1), (2, 0)]);
    let mut d = Canvas::new(3, 3);
    d.line(pt(2, 0, 0), pt(0, 1, 0), 7);
    assert_eq!(lit(&d, 7), vec![(0, 1), (1, 1), (2, 0)]);
}

#[test]
fn fill_rounds_halfway_row_ends_away_from_zero() {
    let mut c = Canvas::new(5, 5);
    c.triangle(tri((3, 2), (2, 0), (0, 0), 0), 4);
    assert_eq!(lit(&c, 4), vec![(2, 1), (3, 1), (3, 2)]);
}

#[test]
fn line_is_symmetric() {
    let ends = [(pt(0, 0, 0), pt(2, 1, 0)), (pt(1, 4, 0), pt(6, 2, 3)), (pt(-3, 2, 0), pt(7, 9, 0)), (pt(3, 3, 0), pt(0, 8, 0))];
    for (a, b) in ends.iter() {
        let mut c1 = Canvas::new(10, 10);
        let mut c2 = Canvas::new(10, 10);
        c1.line(*a, *b, 1);
        c2.line(*b, *a, 1);
        assert_eq!(lit(&c1, 1), lit(&c2, 1));
        assert!(!lit(&c1, 1).is_empty());
    }
}

#[test]
fn line_to_itself_is_one_pixel() {
    let mut c = Canvas::new(10, 10);
    c.line(pt(4, 6, 0), pt(4, 6, 0), 9);
    assert_eq!(lit(&c, 9), vec![(4, 6)]);
}

#[test]
fn line_far_outside_draws_nothing() {
    let mut c = Canvas::new(10, 10);
    c.line(pt(-1000, -1000, 0), pt(-500, 2000, 0), 9);
    c.line(pt(i32::MIN, 5, 0), pt(i32::MIN, 5, 0), 9);
    assert_eq!(count_lit(&c, 9), 0);
}

#[test]
fn set_and_get_out_of_bounds() {
    let mut c = Canvas::new(4, 3);
    assert_eq!(c.set(4, 0, 0, 1), Err(CanvasError::OutOfBounds));
    assert_eq!(c.set(0, -1, 0, 1), Err(CanvasError::OutOfBounds));
    assert_eq!(c.get(0, 3), Err(CanvasError::OutOfBounds));
    assert_eq!(c.set(3, 2, 0, 5), Ok(()));
    assert_eq!(c.get(3, 2), Ok(5));
    assert_eq!(c.get(2, 2), Ok(0));
    assert_eq!((c.get_width(), c.get_height()), (4, 3));
}

#[test]
fn depth_test_keeps_nearer() {
    let mut c = Canvas::new_with_depth(4, 4);
    assert_eq!(c.get_depth(1, 1), Some(EMPTY_DEPTH));
    c.set(1, 1, 10, 100).unwrap();
    c.set(1, 1, 5, 200).unwrap();
    assert_eq!(c.get(1, 1), Ok(100));
    assert_eq!(c.get_depth(1, 1), Some(10));
    c.set(1, 1, 10, 300).unwrap();
    assert_eq!(c.get(1, 1), Ok(300));
    assert_eq!(Canvas::new(4, 4).get_depth(1, 1), None);
}

#[test]
fn triangle_fill_exact() {
    let mut c = Canvas::new(8, 8);
    c.triangle(tri((1, 1), (5, 2), (2, 6), 0), 3);
    let expected = vec![
        (1, 2), (1, 3), (2, 2), (2, 3), (2, 4), (2, 5), (2, 6), (3, 2),
        (3, 3), (3, 4), (3, 5), (4, 2), (4, 3), (4, 4), (5, 2),
    ];
    assert_eq!(lit(&c, 3), expected);
}

#[test]
fn triangle_right_angle_exact() {
    let mut c = Canvas::new(8, 8);
    c.triangle(tri((0, 0), (4, 0), (0, 4), 0), 3);
    let expected = vec![(0, 1), (0, 2), (0, 3), (0, 4), (1, 1), (1, 2), (1, 3), (2, 1), (2, 2), (3, 1)];
    assert_eq!(lit(&c, 3), expected);
}

#[test]
fn triangle_corner_order_does_not_matter() {
    let mut c1 = Canvas::new(8, 8);
    let mut c2 = Canvas::new(8, 8);
    c1.triangle(tri((1, 1), (5, 2), (2, 6), 0), 3);
    c2.triangle(tri((2, 6), (1, 1), (5, 2), 0), 3);
    assert_eq!(lit(&c1, 3), lit(&c2, 3));
}

#[test]
fn flat_triangles_draw_nothing() {
    let mut c = Canvas::new(10, 10);
    c.triangle(tri((1, 4), (8, 4), (3, 4), 0), 3);
    c.triangle(tri((5, 5), (5, 5), (5, 5), 0), 3);
    c.triangle(tri((-5, 2), (20, 2), (7, 2), 0), 3);
    assert_eq!(count_lit(&c, 3), 0);
}

#[test]
fn triangle_with_two_equal_rows_fills() {
    let mut c = Canvas::new(20, 20);
    c.triangle(tri((0, 0), (10, 0), (0, 10), 0), 3);
    assert_eq!(count_lit(&c, 3), 55);
}

#[test]
fn scaled_triangle_counts_grow() {
    let counts: Vec<usize> = [1, 2, 3, 4, 5, 8]
        .iter()
        .map(|&k| {
            let mut c = Canvas::new(64, 64);
            c.triangle(tri((0, 0), (4 * k, k), (k, 3 * k), 0), 3);
            count_lit(&c, 3)
        })
        .collect();
    assert_eq!(counts, vec![9, 29, 60, 102, 155, 380]);
    assert!(counts.windows(2).all(|w| w[0] <= w[1]));
}

#[test]
fn triangle_wire_draws_edges() {
    let mut c = Canvas::new(8, 8);
    c.triangle_wire(tri((0, 0), (4, 0), (0, 4), 0), 2);
    assert_eq!(c.get(0, 0), Ok(2));
    assert_eq!(c.get(4, 0), Ok(2));
    assert_eq!(c.get(0, 4), Ok(2));
    assert_eq!(c.get(2, 2), Ok(2));
    assert_eq!(c.get(1, 1), Ok(0));
    assert_eq!(count_lit(&c, 2), 12);
}

#[test]
fn nearer_triangle_wins_either_order() {
    let t_far = tri((1, 1), (9, 2), (3, 9), 5);
    let t_near = tri((1, 1), (9, 2), (3, 9), 10);
    let mut a = Canvas::new_with_depth(12, 12);
    a.triangle(t_far, 111);
    a.triangle(t_near, 222);
    let mut b = Canvas::new_with_depth(12, 12);
    b.triangle(t_near, 222);
    b.triangle(t_far, 111);
    assert!(count_lit(&a, 222) > 0);
    assert_eq!(count_lit(&a, 111), 0);
    assert_eq!(lit(&a, 222), lit(&b, 222));
    assert_eq!(count_lit(&b, 111), 0);
    for (x, y) in lit(&a, 222) {
        assert_eq!(a.get_depth(x, y), Some(10));
        assert_eq!(b.get_depth(x, y), Some(10));
    }
}

#[test]
fn render_wire_and_poly() {
    let model = vec![tri((0, 0), (4, 0), (0, 4), 0), tri((1, 1), (5, 2), (2, 6), 0)];
    let mut c = Canvas::new(8, 8);
    c.render_poly(&model, &vec![3, 4]);
    let mut d = Canvas::new(8, 8);
    d.triangle(model[0], 3);
    d.triangle(model[1], 4);
    assert_eq!(lit(&c, 3), lit(&d, 3));
    assert_eq!(lit(&c, 4), lit(&d, 4));
    let mut w = Canvas::new(8, 8);
    w.render_wire(&model, 6);
    let mut v = Canvas::new(8, 8);
    v.triangle_wire(model[0], 6);
    v.triangle_wire(model[1], 6);
    assert_eq!(lit(&w, 6), lit(&v, 6));
}

#[test]
fn random_colors_stay_below_limit() {
    let model = vec![tri((0, 0), (4, 0), (0, 4), 0), tri((1, 1), (5, 2), (2, 6), 0)];
    let mut c = Canvas::new(8, 8);
    c.render_poly_rnd_colored(&model);
    let mut filled = 0;
    for y in 0..8 {
        for x in 0..8 {
            let v = c.get(x, y).unwrap();
            assert!(v < RANDOM_COLOR_LIMIT);
            if v != 0 {
                filled += 1;
            }
        }
    }
    assert!(filled <= 25);
}

#[test]
fn gray_levels() {
    assert_eq!(gray_level(750, 1500), 127);
    assert_eq!(gray_level(1500, 1500), 255);
    assert_eq!(gray_level(3000, 1500), 255);
    assert_eq!(gray_level(-20, 1500), 0);
    assert_eq!(gray_level(EMPTY_DEPTH, 1500), 0);
    assert_eq!(gray_level(1, 1500), 0);
}

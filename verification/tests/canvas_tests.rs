use shape_engine_core::color::Color;
use shape_engine_core::draw::{Canvas, PixelMode};
use shape_engine_core::render::Cell;

fn canvas(width: u16, height: u16) -> Canvas {
    let size = (width as usize) * (height as usize);
    Canvas::new(width, height, vec![Cell::default(); size])
}

fn drawn_points(c: &Canvas) -> Vec<(u16, u16)> {
    let mut pts = Vec::new();
    for y in 0..c.height {
        for x in 0..c.width {
            let idx = (y as usize) * (c.width as usize) + (x as usize);
            if c.buffer[idx] != Cell::default() {
                pts.push((x, y));
            }
        }
    }
    pts
}

fn sorted(mut v: Vec<(u16, u16)>) -> Vec<(u16, u16)> {
    v.sort();
    v
}

#[test]
fn point_in_bounds_writes_pen_cell() {
    let mut c = canvas(10, 10);
    c.set_symbol('@');
    c.set_foreground_color(Color::Red);
    c.set_background_color(Color::Blue);
    c.draw_point(3, 4);
    let idx = 4 * 10 + 3;
    assert_eq!(
        c.buffer[idx],
        Cell { symbol: '@', fg: Color::Red, bg: Color::Blue }
    );
    assert_eq!(drawn_points(&c), vec![(3, 4)]);
}

#[test]
fn point_clips_at_bounds() {
    let mut c = canvas(10, 10);
    c.set_symbol('#');
    c.draw_point(10, 5);
    c.draw_point(5, 10);
    c.draw_point((-1i32) as u16, 5);
    assert!(drawn_points(&c).is_empty());
}

#[test]
fn text_clips_per_character() {
    let mut c = canvas(10, 10);
    c.draw_text(8, 0, "abcd");
    assert_eq!(sorted(drawn_points(&c)), vec![(8, 0), (9, 0)]);
    assert_eq!(c.buffer[8].symbol, 'a');
    assert_eq!(c.buffer[9].symbol, 'b');
}

#[test]
fn text_skips_out_of_bounds_row() {
    let mut c = canvas(10, 10);
    c.draw_text(0, 10, "abcd");
    assert!(drawn_points(&c).is_empty());
}

#[test]
fn text_uses_pen_colors_but_own_glyphs() {
    let mut c = canvas(10, 2);
    c.set_foreground_color(Color::Green);
    c.draw_text(1, 1, "hi");
    let idx = 10 + 1;
    assert_eq!(c.buffer[idx], Cell { symbol: 'h', fg: Color::Green, bg: Color::Reset });
    assert_eq!(c.buffer[idx + 1].symbol, 'i');
}

#[test]
fn pen_setters_do_not_touch_cells() {
    let mut c = canvas(4, 4);
    c.set_symbol('*');
    c.draw_point(0, 0);
    c.set_symbol('!');
    c.set_foreground_color(Color::Cyan);
    c.set_background_color(Color::Magenta);
    assert_eq!(c.buffer[0], Cell { symbol: '*', fg: Color::Reset, bg: Color::Reset });
}

#[test]
fn line_horizontal_draws_full_segment() {
    let mut c = canvas(10, 10);
    c.set_symbol('-');
    c.draw_line(2, 3, 6, 3);
    assert_eq!(
        sorted(drawn_points(&c)),
        vec![(2, 3), (3, 3), (4, 3), (5, 3), (6, 3)]
    );
}

#[test]
fn line_horizontal_symmetric() {
    let mut a = canvas(10, 10);
    a.set_symbol('-');
    a.draw_line(6, 3, 2, 3);
    let mut b = canvas(10, 10);
    b.set_symbol('-');
    b.draw_line(2, 3, 6, 3);
    assert_eq!(sorted(drawn_points(&a)), sorted(drawn_points(&b)));
}

#[test]
fn line_vertical_symmetric() {
    let mut a = canvas(10, 10);
    a.set_symbol('|');
    a.draw_line(4, 1, 4, 7);
    let mut b = canvas(10, 10);
    b.set_symbol('|');
    b.draw_line(4, 7, 4, 1);
    assert_eq!(sorted(drawn_points(&a)), vec![(4, 1), (4, 2), (4, 3), (4, 4), (4, 5), (4, 6), (4, 7)]);
    assert_eq!(sorted(drawn_points(&a)), sorted(drawn_points(&b)));
}

#[test]
fn line_diagonal_symmetric() {
    let mut a = canvas(10, 10);
    a.set_symbol('\\');
    a.draw_line(1, 1, 5, 5);
    let mut b = canvas(10, 10);
    b.set_symbol('\\');
    b.draw_line(5, 5, 1, 1);
    assert_eq!(sorted(drawn_points(&a)), vec![(1, 1), (2, 2), (3, 3), (4, 4), (5, 5)]);
    assert_eq!(sorted(drawn_points(&a)), sorted(drawn_points(&b)));
}

#[test]
fn line_general_slope_symmetric_when_tie_free() {
    // The walk of a 5-by-2 line never meets a midpoint tie, so both
    // directions cover the same cells.
    let mut a = canvas(10, 10);
    a.set_symbol('/');
    a.draw_line(1, 1, 6, 3);
    let mut b = canvas(10, 10);
    b.set_symbol('/');
    b.draw_line(6, 3, 1, 1);
    assert_eq!(sorted(drawn_points(&a)), sorted(drawn_points(&b)));
}

#[test]
fn line_midpoint_tie_rounds_by_direction() {
    // A 2-by-1 line crosses a cell border exactly at its midpoint; the
    // walk rounds the tie toward its own direction of travel, so the two
    // directions pick different middle cells.
    let mut fwd = canvas(10, 10);
    fwd.set_symbol('.');
    fwd.draw_line(0, 0, 2, 1);
    let mut rev = canvas(10, 10);
    rev.set_symbol('.');
    rev.draw_line(2, 1, 0, 0);
    assert_eq!(sorted(drawn_points(&fwd)), vec![(0, 0), (1, 1), (2, 1)]);
    assert_eq!(sorted(drawn_points(&rev)), vec![(0, 0), (1, 0), (2, 1)]);
}

#[test]
fn line_shallow_slope_exact_points() {
    let mut c = canvas(10, 10);
    c.set_symbol('.');
    c.draw_line(0, 0, 2, 1);
    assert_eq!(sorted(drawn_points(&c)), vec![(0, 0), (1, 1), (2, 1)]);
}

#[test]
fn line_clips_outside_canvas() {
    let mut c = canvas(5, 5);
    c.set_symbol('x');
    c.draw_line(-3, 2, 2, 2);
    assert_eq!(sorted(drawn_points(&c)), vec![(0, 2), (1, 2), (2, 2)]);
}

#[test]
fn rect_outline_is_exactly_the_boundary() {
    let mut outline = canvas(20, 20);
    outline.set_symbol('#');
    outline.draw_rect(2, 3, 5, 4, false);
    let mut expected = Vec::new();
    for x in 2..7u16 {
        for y in 3..7u16 {
            if x == 2 || x == 6 || y == 3 || y == 6 {
                expected.push((x, y));
            }
        }
    }
    expected.sort();
    assert_eq!(sorted(drawn_points(&outline)), expected);
}

#[test]
fn rect_outline_within_filled() {
    let mut outline = canvas(20, 20);
    outline.set_symbol('#');
    outline.draw_rect(2, 3, 5, 4, false);
    let mut filled = canvas(20, 20);
    filled.set_symbol('#');
    filled.draw_rect(2, 3, 5, 4, true);
    let filled_pts = sorted(drawn_points(&filled));
    for p in drawn_points(&outline) {
        assert!(filled_pts.contains(&p));
    }
    assert_eq!(filled_pts.len(), 5 * 4);
}

#[test]
fn rect_single_cell() {
    let mut c = canvas(5, 5);
    c.set_symbol('o');
    c.draw_rect(1, 1, 1, 1, false);
    assert_eq!(drawn_points(&c), vec![(1, 1)]);
}

#[test]
fn circle_outline_exact_points_radius_3() {
    let mut c = canvas(20, 20);
    c.set_symbol('*');
    c.draw_circle(8, 8, 3, false);
    let expected: Vec<(u16, u16)> = vec![
        (-3, 0), (-2, -1), (-2, 1), (-1, -2), (-1, 2), (0, -3), (0, 3), (1, -2), (1, 2),
        (2, -1), (2, 1), (3, 0),
    ]
    .into_iter()
    .map(|(dx, dy): (i32, i32)| ((8 + dx) as u16, (8 + dy) as u16))
    .collect();
    let mut expected = expected;
    expected.sort();
    assert_eq!(sorted(drawn_points(&c)), expected);
}

#[test]
fn circle_outline_within_filled() {
    let mut outline = canvas(30, 30);
    outline.set_symbol('*');
    outline.draw_circle(14, 14, 6, false);
    let mut filled = canvas(30, 30);
    filled.set_symbol('*');
    filled.draw_circle(14, 14, 6, true);
    let filled_pts = sorted(drawn_points(&filled));
    for p in drawn_points(&outline) {
        assert!(filled_pts.contains(&p));
    }
}

#[test]
fn circle_negative_radius_draws_nothing() {
    let mut c = canvas(10, 10);
    c.set_symbol('*');
    c.draw_circle(5, 5, -1, false);
    c.draw_circle(5, 5, -1, true);
    assert!(drawn_points(&c).is_empty());
}

#[test]
fn pixel_mode_cycles() {
    assert_eq!(PixelMode::Ascii.next(), PixelMode::HalfBlock);
    assert_eq!(PixelMode::HalfBlock.next(), PixelMode::Braille);
    assert_eq!(PixelMode::Braille.next(), PixelMode::Ascii);
    assert_eq!(PixelMode::default(), PixelMode::Ascii);
}

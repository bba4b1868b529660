use shape_engine_core::color::Color;
use shape_engine_core::render::{Cell, TermWrite, TerminalRenderer};

#[test]
fn flush_emits_only_changed_cells() {
    let mut r = TerminalRenderer::new(4, 3);
    let mut c = r.canvas();
    c.set_symbol('x');
    c.draw_point(1, 1);
    r.end_canvas(c);
    let writes = r.flush();
    assert_eq!(writes.len(), 1);
    assert_eq!(
        writes[0],
        TermWrite { x: 1, y: 1, cell: Cell { symbol: 'x', fg: Color::Reset, bg: Color::Reset } }
    );
}

#[test]
fn flush_unchanged_frame_emits_nothing() {
    let mut r = TerminalRenderer::new(6, 6);
    let mut c = r.canvas();
    c.set_symbol('#');
    c.draw_rect(0, 0, 3, 3, true);
    r.end_canvas(c);
    let first = r.flush();
    assert_eq!(first.len(), 9);
    let second = r.flush();
    assert!(second.is_empty());
}

#[test]
fn overlay_is_written_on_top_and_cleared() {
    let mut r = TerminalRenderer::new(4, 4);
    let mut o = r.overlay_canvas();
    o.set_symbol('H');
    o.draw_point(0, 0);
    r.end_overlay_canvas(o);
    let writes = r.flush();
    assert_eq!(writes.len(), 1);
    assert_eq!(writes[0].cell.symbol, 'H');
    // The overlay never persists into the back buffer...
    let c = r.canvas();
    assert_eq!(c.buffer[0], Cell::default());
    r.end_canvas(c);
    // ...and was reset after the flush, so it cannot bleed into the next
    // frame.
    let o2 = r.overlay_canvas();
    assert!(o2.buffer.iter().all(|cell| *cell == Cell::default()));
    r.end_overlay_canvas(o2);
}

#[test]
fn overlay_cleared_even_without_overlay_content() {
    let mut r = TerminalRenderer::new(3, 3);
    let writes = r.flush();
    assert!(writes.is_empty());
    let o = r.overlay_canvas();
    assert!(o.buffer.iter().all(|cell| *cell == Cell::default()));
    r.end_overlay_canvas(o);
}

#[test]
fn clear_screen_resets_back_but_not_front() {
    let mut r = TerminalRenderer::new(3, 3);
    let mut c = r.canvas();
    c.set_symbol('z');
    c.draw_point(2, 2);
    r.end_canvas(c);
    let first = r.flush();
    assert_eq!(first.len(), 1);
    r.clear_screen();
    // The cleared back buffer now differs from the front buffer where the
    // point was drawn, so the cell is repainted to default exactly once.
    let second = r.flush();
    assert_eq!(second.len(), 1);
    assert_eq!(second[0].cell, Cell::default());
    assert_eq!((second[0].x, second[0].y), (2, 2));
    let third = r.flush();
    assert!(third.is_empty());
}

#[test]
fn renderer_reports_dimensions() {
    let r = TerminalRenderer::new(7, 9);
    assert_eq!(r.width(), 7);
    assert_eq!(r.height(), 9);
}

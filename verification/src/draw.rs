//! The drawing surface: a bounded grid of cells plus transient pen state.
//!
//! A `Canvas` owns one cell buffer for the duration of a frame; the
//! renderer hands it out at the start of a frame and takes it back at the
//! end.  Every drawing call clips silently at the canvas bounds and never
//! fails.

use vstd::prelude::*;

use crate::color::Color;
use crate::raster::{abs, line_pts, line_set, offset_pts, sign_step, walk};
use crate::raster::{hseg_set, rect_filled_set, rect_outline_set, vseg_set};
use crate::raster::{circle_filled_set, circle_outline_set, cwalk, gap, octet, spans4};
use crate::raster::{
    lemma_line_set_horizontal,
    lemma_line_set_vertical,
    lemma_mul_sign,
    lemma_walk_progress,
};
use crate::render::{default_cell, Cell};

verus! {

/// The rendering style tag attached to engine settings.  It is descriptive
/// state consulted by scenes and the HUD, not enforced by the canvas.
#[derive(Clone, Copy, Debug, PartialEq, Eq, Structural)]
pub enum PixelMode {
    Ascii,
    HalfBlock,
    Braille,
}

impl Default for PixelMode {
    /// The default mode is `Ascii`.
    fn default() -> (m: Self)
        ensures
            m == PixelMode::Ascii,
    {
        PixelMode::Ascii
    }
}

impl PixelMode {
    /// Cyclic advance: Ascii -> HalfBlock -> Braille -> Ascii.
    pub fn next(self) -> (m: Self)
        ensures
            m == self.next_mode(),
    {
        match self {
            PixelMode::Ascii => PixelMode::HalfBlock,
            PixelMode::HalfBlock => PixelMode::Braille,
            PixelMode::Braille => PixelMode::Ascii,
        }
    }

    /// What `next` returns for each mode.
    pub open spec fn next_mode(self) -> Self {
        match self {
            PixelMode::Ascii => PixelMode::HalfBlock,
            PixelMode::HalfBlock => PixelMode::Braille,
            PixelMode::Braille => PixelMode::Ascii,
        }
    }
}

/// Where a logical point lands in a buffer of the given dimensions.
///
/// Coordinates arrive as mathematical integers; like the terminal grid
/// itself they are reduced to `u16` by truncation before the bounds check,
/// so a negative or very large coordinate either falls outside the grid or
/// aliases the cell its low sixteen bits name.  `None` means the point is
/// clipped.
pub open spec fn cell_target(p: (int, int), width: int, height: int) -> Option<int> {
    let xu = p.0 as u16;
    let yu = p.1 as u16;
    if xu < width && yu < height {
        Some(yu as int * width + xu as int)
    } else {
        None
    }
}

/// Whether some point of `pts` lands on buffer index `i`.
pub open spec fn hits(pts: Set<(int, int)>, width: int, height: int, i: int) -> bool {
    exists|p: (int, int)| pts.contains(p) && cell_target(p, width, height) == Some(i)
}

/// `after` is `before` with exactly the cells hit by `pts` overwritten by
/// `pen`.  Every hit cell receives the same `pen` value, so the order in
/// which the points were drawn cannot matter.
pub open spec fn paints(
    before: Seq<Cell>,
    after: Seq<Cell>,
    pts: Set<(int, int)>,
    width: int,
    height: int,
    pen: Cell,
) -> bool {
    &&& after.len() == before.len()
    &&& forall|i: int|
        0 <= i < before.len() ==> after[i] == if hits(pts, width, height, i) {
            pen
        } else {
            before[i]
        }
}

/// Painting nothing changes nothing.
pub proof fn lemma_paints_empty(buf: Seq<Cell>, width: int, height: int, pen: Cell)
    ensures
        paints(buf, buf, Set::empty(), width, height, pen),
{
    assert forall|i: int|
        0 <= i < buf.len() implies !hits(Set::empty(), width, height, i) by {
        assert(forall|p: (int, int)| !Set::<(int, int)>::empty().contains(p));
    }
}

/// Painting one more point extends the painted set by that point.
pub proof fn lemma_paints_insert(
    before: Seq<Cell>,
    mid: Seq<Cell>,
    after: Seq<Cell>,
    pts: Set<(int, int)>,
    p: (int, int),
    width: int,
    height: int,
    pen: Cell,
)
    requires
        before.len() == width * height,
        paints(before, mid, pts, width, height, pen),
        after == match cell_target(p, width, height) {
            Some(t) => mid.update(t, pen),
            None => mid,
        },
    ensures
        paints(before, after, pts.insert(p), width, height, pen),
{
    proof_cell_target_in_range(p, width, height);
    assert forall|i: int|
        0 <= i < before.len() implies after[i] == if hits(pts.insert(p), width, height, i) {
        pen
    } else {
        before[i]
    } by {
        if hits(pts.insert(p), width, height, i) {
            let q = choose|q: (int, int)|
                pts.insert(p).contains(q) && cell_target(q, width, height) == Some(i);
            if q == p {
                assert(after[i] == pen);
            } else {
                assert(pts.contains(q));
                assert(hits(pts, width, height, i));
                assert(mid[i] == pen);
                assert(after[i] == pen);
            }
        } else {
            assert(!hits(pts, width, height, i)) by {
                if hits(pts, width, height, i) {
                    let q = choose|q: (int, int)|
                        pts.contains(q) && cell_target(q, width, height) == Some(i);
                    assert(pts.insert(p).contains(q));
                }
            }
            assert(cell_target(p, width, height) != Some(i)) by {
                if cell_target(p, width, height) == Some(i) {
                    assert(pts.insert(p).contains(p));
                }
            }
            assert(after[i] == mid[i]);
        }
    }
}

/// Two paints in a row paint the union, provided the pen is the same.
pub proof fn lemma_paints_compose(
    b0: Seq<Cell>,
    b1: Seq<Cell>,
    b2: Seq<Cell>,
    s: Set<(int, int)>,
    t: Set<(int, int)>,
    width: int,
    height: int,
    pen: Cell,
)
    requires
        paints(b0, b1, s, width, height, pen),
        paints(b1, b2, t, width, height, pen),
    ensures
        paints(b0, b2, s.union(t), width, height, pen),
{
    assert forall|i: int|
        0 <= i < b0.len() implies b2[i] == if hits(s.union(t), width, height, i) {
        pen
    } else {
        b0[i]
    } by {
        if hits(s.union(t), width, height, i) {
            let q = choose|q: (int, int)|
                s.union(t).contains(q) && cell_target(q, width, height) == Some(i);
            if t.contains(q) {
                assert(hits(t, width, height, i));
            } else {
                assert(s.contains(q));
                assert(hits(s, width, height, i));
                assert(b1[i] == pen);
                if !hits(t, width, height, i) {
                    assert(b2[i] == b1[i]);
                }
            }
        } else {
            assert(!hits(s, width, height, i)) by {
                if hits(s, width, height, i) {
                    let q = choose|q: (int, int)|
                        s.contains(q) && cell_target(q, width, height) == Some(i);
                    assert(s.union(t).contains(q));
                }
            }
            assert(!hits(t, width, height, i)) by {
                if hits(t, width, height, i) {
                    let q = choose|q: (int, int)|
                        t.contains(q) && cell_target(q, width, height) == Some(i);
                    assert(s.union(t).contains(q));
                }
            }
        }
    }
}

/// A bounded drawing surface over one cell buffer, with pen state.
///
/// The pen colors and symbol apply to subsequent drawing calls only; they
/// are never written back into cells that were already drawn.
pub struct Canvas {
    pub width: u16,
    pub height: u16,
    pub buffer: Vec<Cell>,
    pub current_fg: Color,
    pub current_bg: Color,
    pub current_symbol: char,
    pub current_pixel_mode: PixelMode,
}

impl Canvas {
    /// The buffer holds one cell per grid position, row-major.
    pub open spec fn wf(self) -> bool {
        self.cells().len() == self.width as int * self.height as int
    }

    /// The cells of the bound buffer, row-major (index = y * width + x).
    pub open spec fn cells(self) -> Seq<Cell> {
        self.buffer@
    }

    /// The cell a drawing call would write with the current pen.
    pub open spec fn pen_cell(self) -> Cell {
        Cell { symbol: self.current_symbol, fg: self.current_fg, bg: self.current_bg }
    }

    /// The current pen foreground color.
    pub open spec fn fg(self) -> Color {
        self.current_fg
    }

    /// The current pen background color.
    pub open spec fn bg(self) -> Color {
        self.current_bg
    }

    /// The current pen symbol.
    pub open spec fn symbol(self) -> char {
        self.current_symbol
    }

    /// Everything but the buffer contents: dimensions and pen state.
    pub open spec fn same_frame(self, other: Canvas) -> bool {
        &&& self.width == other.width
        &&& self.height == other.height
        &&& self.fg() == other.fg()
        &&& self.bg() == other.bg()
        &&& self.symbol() == other.symbol()
        &&& self.current_pixel_mode == other.current_pixel_mode
    }

    /// Binds a buffer of exactly `width * height` cells.  The pen starts
    /// as a space with both colors reset.
    pub fn new(width: u16, height: u16, buffer: Vec<Cell>) -> (c: Canvas)
        requires
            buffer@.len() == width as int * height as int,
        ensures
            c.wf(),
            c.width == width,
            c.height == height,
            c.cells() == buffer@,
            c.fg() == Color::Reset,
            c.bg() == Color::Reset,
            c.symbol() == ' ',
            c.current_pixel_mode == PixelMode::Ascii,
    {
        Canvas {
            width,
            height,
            buffer,
            current_fg: Color::Reset,
            current_bg: Color::Reset,
            current_symbol: ' ',
            current_pixel_mode: PixelMode::Ascii,
        }
    }

    /// Releases the bound buffer at the end of a frame.
    pub fn into_buffer(self) -> (b: Vec<Cell>)
        ensures
            b@ == self.cells(),
    {
        self.buffer
    }

    /// Writes one cell with the current pen if (x, y) is in bounds;
    /// silently does nothing otherwise.
    pub fn draw_point(&mut self, x: u16, y: u16)
        requires
            old(self).wf(),
        ensures
            final(self).wf(),
            old(self).same_frame(*final(self)),
            final(self).cells() == if x < old(self).width && y < old(self).height {
                old(self).cells().update(
                    y as int * old(self).width as int + x as int,
                    old(self).pen_cell(),
                )
            } else {
                old(self).cells()
            },
    {
        if x < self.width && y < self.height {
            proof {
                lemma_row_major_index_bound(
                    x as int,
                    y as int,
                    self.width as int,
                    self.height as int,
                );
            }
            let index: usize = (y as usize) * (self.width as usize) + (x as usize);
            let cell = Cell { symbol: self.current_symbol, fg: self.current_fg, bg: self.current_bg };
            self.buffer[index] = cell;
        }
    }

    /// Writes one cell per character of `text` starting at column `x` of
    /// row `y`, using the pen colors but each character's own glyph.  If
    /// `y` is out of bounds nothing is drawn; characters whose column
    /// reaches the width are dropped.  Each character takes exactly one
    /// column.
    pub fn draw_text(&mut self, x: u16, y: u16, text: &str)
        requires
            old(self).wf(),
        ensures
            final(self).wf(),
            old(self).same_frame(*final(self)),
            final(self).cells().len() == old(self).cells().len(),
            y < old(self).height ==> {
                let n = text_fit(x as int, old(self).width as int, text@.len() as int);
                &&& forall|k: int|
                    0 <= k < n ==> final(self).cells()[y as int * old(self).width as int + x as int
                        + k] == (Cell {
                        symbol: text@[k],
                        fg: old(self).fg(),
                        bg: old(self).bg(),
                    })
                &&& forall|i: int|
                    0 <= i < old(self).cells().len() && !(y as int * old(self).width as int
                        + x as int <= i < y as int * old(self).width as int + x as int + n)
                        ==> final(self).cells()[i] == old(self).cells()[i]
            },
            y >= old(self).height ==> final(self).cells() == old(self).cells(),
    {
        if y >= self.height {
            return ;
        }
        let len = text.unicode_len();
        // Columns left before the right edge; characters past that are
        // dropped, which also keeps every column addition within u16.
        let room: usize = if x >= self.width {
            0
        } else {
            (self.width - x) as usize
        };
        let mut i: usize = 0;
        while i < len && i < room
            invariant
                self.wf(),
                old(self).same_frame(*self),
                len == text@.len(),
                y < self.height,
                self.width == old(self).width,
                self.height == old(self).height,
                self.cells().len() == old(self).cells().len(),
                room == if x >= self.width {
                    0int
                } else {
                    self.width as int - x as int
                },
                i as int <= text_fit(x as int, self.width as int, len as int),
                forall|k: int|
                    0 <= k < i ==> self.cells()[y as int * self.width as int + x as int + k]
                        == (Cell { symbol: text@[k], fg: old(self).fg(), bg: old(self).bg() }),
                forall|j: int|
                    0 <= j < old(self).cells().len() && !(y as int * self.width as int + x as int
                        <= j < y as int * self.width as int + x as int + i) ==> self.cells()[j]
                        == old(self).cells()[j],
            decreases len - i,
        {
            let col: u16 = x + (i as u16);
            let c = text.get_char(i);
            proof {
                lemma_row_major_index_bound(
                    col as int,
                    y as int,
                    self.width as int,
                    self.height as int,
                );
            }
            let index: usize = (y as usize) * (self.width as usize) + (col as usize);
            let cell = Cell { symbol: c, fg: self.current_fg, bg: self.current_bg };
            self.buffer[index] = cell;
            i = i + 1;
        }
        proof {
            assert(i as int == text_fit(x as int, self.width as int, len as int));
        }
    }

    /// Draws the straight line from (x0, y0) to (x1, y1), both endpoints
    /// included, with the integer Bresenham walk: the error accumulator
    /// starts at `dx + dy`, x steps when `2*err >= dy` and y steps when
    /// `2*err <= dx`.  Every visited point is drawn with the current pen,
    /// clipped at the canvas bounds like any other point.
    ///
    /// The coordinate bound keeps the error accumulator within machine
    /// range.
    pub fn draw_line(&mut self, x0: i32, y0: i32, x1: i32, y1: i32)
        requires
            old(self).wf(),
            -0x800_0000 <= x0 <= 0x800_0000,
            -0x800_0000 <= y0 <= 0x800_0000,
            -0x800_0000 <= x1 <= 0x800_0000,
            -0x800_0000 <= y1 <= 0x800_0000,
        ensures
            final(self).wf(),
            old(self).same_frame(*final(self)),
            paints(
                old(self).cells(),
                final(self).cells(),
                line_set(x0 as int, y0 as int, x1 as int, y1 as int),
                old(self).width as int,
                old(self).height as int,
                old(self).pen_cell(),
            ),
    {
        let ghost a = abs(x1 as int - x0 as int);
        let ghost b = abs(y1 as int - y0 as int);
        let ghost gw = self.width as int;
        let ghost gh = self.height as int;
        let ghost pen = self.pen_cell();
        let ghost orig = self.cells();

        let mut cx = x0;
        let mut cy = y0;
        let dx: i32 = if x1 >= x0 {
            x1 - x0
        } else {
            x0 - x1
        };
        let sx: i32 = if x0 < x1 {
            1
        } else {
            -1
        };
        let ndy: i32 = if y1 >= y0 {
            y1 - y0
        } else {
            y0 - y1
        };
        let dy: i32 = -ndy;
        let sy: i32 = if y0 < y1 {
            1
        } else {
            -1
        };
        let mut err: i32 = dx + dy;

        let ghost mut i: int = 0;
        let ghost mut j: int = 0;
        let ghost mut vis: Seq<(int, int)> = Seq::empty();

        proof {
            lemma_paints_empty(orig, gw, gh, pen);
            assert(offset_pts(vis, x0 as int, y0 as int, sx as int, sy as int).to_set()
                =~= Set::<(int, int)>::empty());
            assert(walk(a, b, 0, 0) =~= vis + walk(a, b, i, j));
            lemma_mul_sign(sx as int, i);
            lemma_mul_sign(sy as int, j);
        }
        loop
            invariant_except_break
                self.wf(),
                old(self).same_frame(*self),
                orig == old(self).cells(),
                orig.len() == gw * gh,
                pen == old(self).pen_cell(),
                gw == self.width as int,
                gh == self.height as int,
                -0x800_0000 <= x0 <= 0x800_0000,
                -0x800_0000 <= y0 <= 0x800_0000,
                -0x800_0000 <= x1 <= 0x800_0000,
                -0x800_0000 <= y1 <= 0x800_0000,
                a == abs(x1 as int - x0 as int),
                b == abs(y1 as int - y0 as int),
                dx as int == a,
                dy as int == -b,
                sx as int == sign_step(x0 as int, x1 as int),
                sy as int == sign_step(y0 as int, y1 as int),
                0 <= i <= a,
                0 <= j <= b,
                cx as int == x0 as int + sx as int * i,
                cy as int == y0 as int + sy as int * j,
                err as int == a * (j + 1) - b * (i + 1),
                -2 * b <= err as int <= 2 * a,
                walk(a, b, 0, 0) =~= vis + walk(a, b, i, j),
                paints(
                    orig,
                    self.cells(),
                    offset_pts(vis, x0 as int, y0 as int, sx as int, sy as int).to_set(),
                    gw,
                    gh,
                    pen,
                ),
            ensures
                self.wf(),
                old(self).same_frame(*self),
                paints(
                    orig,
                    self.cells(),
                    line_set(x0 as int, y0 as int, x1 as int, y1 as int),
                    gw,
                    gh,
                    pen,
                ),
            decreases a - i + b - j,
        {
            proof {
                lemma_mul_sign(sx as int, i);
                lemma_mul_sign(sy as int, j);
            }
            let ghost mid = self.cells();
            let ghost pnt = (cx as int, cy as int);
            self.draw_point(cx as u16, cy as u16);
            proof {
                let prev_vis = vis;
                let pre = offset_pts(prev_vis, x0 as int, y0 as int, sx as int, sy as int).to_set();
                lemma_paints_insert(orig, mid, self.cells(), pre, pnt, gw, gh, pen);
                vis = vis.push((i, j));
                assert(offset_pts(vis, x0 as int, y0 as int, sx as int, sy as int) =~= offset_pts(
                    prev_vis,
                    x0 as int,
                    y0 as int,
                    sx as int,
                    sy as int,
                ).push(pnt));
                lemma_to_set_push_pt(
                    offset_pts(prev_vis, x0 as int, y0 as int, sx as int, sy as int),
                    pnt,
                );
                assert(offset_pts(vis, x0 as int, y0 as int, sx as int, sy as int).to_set()
                    =~= pre.insert(pnt));
            }
            if cx == x1 && cy == y1 {
                proof {
                    assert(i == a && j == b) by {
                        lemma_mul_sign(sx as int, i);
                        lemma_mul_sign(sy as int, j);
                    }
                    assert(walk(a, b, a, b) =~= seq![(a, b)]);
                    assert(vis =~= walk(a, b, 0, 0));
                    let f = line_pts(x0 as int, y0 as int, x1 as int, y1 as int);
                    let g = offset_pts(vis, x0 as int, y0 as int, sx as int, sy as int);
                    assert(f =~= g);
                    assert(line_set(x0 as int, y0 as int, x1 as int, y1 as int) =~= g.to_set());
                }
                break ;
            }
            proof {
                assert(!(i == a && j == b)) by {
                    lemma_mul_sign(sx as int, i);
                    lemma_mul_sign(sy as int, j);
                }
                lemma_walk_progress(a, b, i, j);
            }
            let e2: i32 = 2 * err;
            let ghost old_i = i;
            let ghost old_j = j;
            let ghost old_err = err as int;
            proof {
                assert((2 * old_err >= -b) == (2 * a * (old_j + 1) >= b * (2 * old_i + 1)))
                    by (nonlinear_arith)
                    requires
                        old_err == a * (old_j + 1) - b * (old_i + 1),
                ;
                assert((2 * old_err <= a) == (a * (2 * old_j + 1) <= 2 * b * (old_i + 1)))
                    by (nonlinear_arith)
                    requires
                        old_err == a * (old_j + 1) - b * (old_i + 1),
                ;
            }
            if e2 >= dy {
                err = err + dy;
                cx = cx + sx;
                proof {
                    i = i + 1;
                    lemma_mul_sign(sx as int, old_i);
                    lemma_mul_sign(sx as int, i);
                    assert(err as int == a * (old_j + 1) - b * (old_i + 2)) by (nonlinear_arith)
                        requires
                            err as int == old_err - b,
                            old_err == a * (old_j + 1) - b * (old_i + 1),
                    ;
                }
            }
            if e2 <= dx {
                err = err + dx;
                cy = cy + sy;
                proof {
                    j = j + 1;
                    lemma_mul_sign(sy as int, old_j);
                    lemma_mul_sign(sy as int, j);
                }
            }
            proof {
                assert(err as int == a * (j + 1) - b * (i + 1)) by (nonlinear_arith)
                    requires
                        old_err == a * (old_j + 1) - b * (old_i + 1),
                        i == old_i || i == old_i + 1,
                        j == old_j || j == old_j + 1,
                        err as int == old_err + (if i == old_i + 1 {
                            -b
                        } else {
                            0int
                        }) + (if j == old_j + 1 {
                            a
                        } else {
                            0int
                        }),
                ;
                assert(walk(a, b, old_i, old_j) =~= seq![(old_i, old_j)] + walk(a, b, i, j));
                assert(walk(a, b, 0, 0) =~= vis + walk(a, b, i, j)) by {
                    assert(vis =~= vis.drop_last().push((old_i, old_j)));
                    assert(vis.drop_last() + walk(a, b, old_i, old_j) =~= vis + walk(a, b, i, j));
                }
            }
        }
    }

    /// Draws a rectangle of `w` by `h` cells with its top-left corner at
    /// (x, y).  Filled mode paints every cell of the rectangle; outline
    /// mode draws exactly the four boundary segments, corners included
    /// (the corners redundantly but idempotently).  Points outside the
    /// canvas clip as always.
    ///
    /// The sums must stay within the grid's coordinate type, and an
    /// outline needs at least one cell in each direction.
    pub fn draw_rect(&mut self, x: u16, y: u16, w: u16, h: u16, filled: bool)
        requires
            old(self).wf(),
            x as int + w as int <= u16::MAX as int,
            y as int + h as int <= u16::MAX as int,
            !filled ==> w >= 1 && h >= 1,
        ensures
            final(self).wf(),
            old(self).same_frame(*final(self)),
            filled ==> paints(
                old(self).cells(),
                final(self).cells(),
                rect_filled_set(x as int, y as int, w as int, h as int),
                old(self).width as int,
                old(self).height as int,
                old(self).pen_cell(),
            ),
            !filled ==> paints(
                old(self).cells(),
                final(self).cells(),
                rect_outline_set(x as int, y as int, w as int, h as int),
                old(self).width as int,
                old(self).height as int,
                old(self).pen_cell(),
            ),
    {
        let ghost gw = self.width as int;
        let ghost gh = self.height as int;
        let ghost pen = self.pen_cell();
        let ghost orig = self.cells();
        if filled {
            let mut cy: u16 = y;
            proof {
                lemma_paints_empty(orig, gw, gh, pen);
                assert(rect_rows(x as int, w as int, y as int, y as int) =~= Set::<
                    (int, int),
                >::empty());
            }
            while cy < y + h
                invariant
                    self.wf(),
                    old(self).same_frame(*self),
                    orig == old(self).cells(),
                    orig.len() == gw * gh,
                    pen == old(self).pen_cell(),
                    gw == self.width as int,
                    gh == self.height as int,
                    x as int + w as int <= u16::MAX as int,
                    y as int + h as int <= u16::MAX as int,
                    y <= cy <= y as int + h as int,
                    paints(
                        orig,
                        self.cells(),
                        rect_rows(x as int, w as int, y as int, cy as int),
                        gw,
                        gh,
                        pen,
                    ),
                decreases y + h - cy,
            {
                let mut cx: u16 = x;
                proof {
                    assert(rect_partial(x as int, w as int, y as int, cy as int, x as int)
                        =~= rect_rows(x as int, w as int, y as int, cy as int));
                }
                while cx < x + w
                    invariant
                        self.wf(),
                        old(self).same_frame(*self),
                        orig == old(self).cells(),
                        orig.len() == gw * gh,
                        pen == old(self).pen_cell(),
                        gw == self.width as int,
                        gh == self.height as int,
                        x as int + w as int <= u16::MAX as int,
                        y as int + h as int <= u16::MAX as int,
                        y <= cy < y as int + h as int,
                        x <= cx <= x as int + w as int,
                        paints(
                            orig,
                            self.cells(),
                            rect_partial(x as int, w as int, y as int, cy as int, cx as int),
                            gw,
                            gh,
                            pen,
                        ),
                    decreases x + w - cx,
                {
                    let ghost mid = self.cells();
                    let ghost pre = rect_partial(
                        x as int,
                        w as int,
                        y as int,
                        cy as int,
                        cx as int,
                    );
                    self.draw_point(cx, cy);
                    proof {
                        lemma_paints_insert(
                            orig,
                            mid,
                            self.cells(),
                            pre,
                            (cx as int, cy as int),
                            gw,
                            gh,
                            pen,
                        );
                        assert(rect_partial(x as int, w as int, y as int, cy as int, cx as int + 1)
                            =~= pre.insert((cx as int, cy as int)));
                    }
                    cx = cx + 1;
                }
                proof {
                    assert(rect_rows(x as int, w as int, y as int, cy as int + 1) =~= rect_partial(
                        x as int,
                        w as int,
                        y as int,
                        cy as int,
                        x as int + w as int,
                    ));
                }
                cy = cy + 1;
            }
            proof {
                assert(rect_filled_set(x as int, y as int, w as int, h as int) =~= rect_rows(
                    x as int,
                    w as int,
                    y as int,
                    y as int + h as int,
                ));
            }
        } else {
            self.draw_line(x as i32, y as i32, (x + w - 1) as i32, y as i32);
            let ghost b1 = self.cells();
            self.draw_line(x as i32, (y + h - 1) as i32, (x + w - 1) as i32, (y + h - 1) as i32);
            let ghost b2 = self.cells();
            self.draw_line(x as i32, y as i32, x as i32, (y + h - 1) as i32);
            let ghost b3 = self.cells();
            self.draw_line((x + w - 1) as i32, y as i32, (x + w - 1) as i32, (y + h - 1) as i32);
            proof {
                let xi = x as int;
                let yi = y as int;
                let xr = x as int + w as int - 1;
                let yb = y as int + h as int - 1;
                lemma_line_set_horizontal(xi, yi, xr);
                lemma_line_set_horizontal(xi, yb, xr);
                lemma_line_set_vertical(xi, yi, yb);
                lemma_line_set_vertical(xr, yi, yb);
                lemma_paints_compose(
                    orig,
                    b1,
                    b2,
                    hseg_set(xi, xr, yi),
                    hseg_set(xi, xr, yb),
                    gw,
                    gh,
                    pen,
                );
                lemma_paints_compose(
                    orig,
                    b2,
                    b3,
                    hseg_set(xi, xr, yi).union(hseg_set(xi, xr, yb)),
                    vseg_set(yi, yb, xi),
                    gw,
                    gh,
                    pen,
                );
                lemma_paints_compose(
                    orig,
                    b3,
                    self.cells(),
                    hseg_set(xi, xr, yi).union(hseg_set(xi, xr, yb)).union(vseg_set(yi, yb, xi)),
                    vseg_set(yi, yb, xr),
                    gw,
                    gh,
                    pen,
                );
            }
        }
    }

    /// Draws a circle of radius `r` around (cx, cy) with the integer
    /// midpoint walk: no trigonometry, `y` advancing each step and `x`
    /// retreating when the error term crosses zero.  Outline mode plots
    /// the eight-way symmetric points of each step; filled mode draws four
    /// horizontal spans per step instead, covering the disc without gaps.
    /// A non-positive radius draws nothing beyond its degenerate states;
    /// clipping applies per point as always.
    ///
    /// The bounds keep the error term and every plotted coordinate within
    /// machine range.
    pub fn draw_circle(&mut self, cx: i32, cy: i32, r: i32, filled: bool)
        requires
            old(self).wf(),
            -0x7F0_0000 <= cx <= 0x7F0_0000,
            -0x7F0_0000 <= cy <= 0x7F0_0000,
            r <= 0x2000,
        ensures
            final(self).wf(),
            old(self).same_frame(*final(self)),
            !filled ==> paints(
                old(self).cells(),
                final(self).cells(),
                circle_outline_set(cx as int, cy as int, r as int),
                old(self).width as int,
                old(self).height as int,
                old(self).pen_cell(),
            ),
            filled ==> paints(
                old(self).cells(),
                final(self).cells(),
                circle_filled_set(cx as int, cy as int, r as int),
                old(self).width as int,
                old(self).height as int,
                old(self).pen_cell(),
            ),
    {
        let ghost gw = self.width as int;
        let ghost gh = self.height as int;
        let ghost pen = self.pen_cell();
        let ghost orig = self.cells();
        let ghost cxi = cx as int;
        let ghost cyi = cy as int;

        let mut x: i32 = r;
        let mut y: i32 = 0;
        let mut err: i32 = 0;
        let ghost mut vis: Seq<(int, int)> = Seq::empty();
        let ghost mut covered: Set<(int, int)> = Set::empty();

        proof {
            lemma_paints_empty(orig, gw, gh, pen);
            assert(cwalk(r as int, 0, 0) =~= vis + cwalk(x as int, y as int, err as int));
            if r >= 0 {
                assert((r as int - x as int) * (r as int + x as int - 2) == 0) by (nonlinear_arith)
                    requires
                        x == r,
                ;
            }
            assert(covered_form(cxi, cyi, vis, filled) =~= Set::<(int, int)>::empty());
        }
        while x >= y
            invariant
                self.wf(),
                old(self).same_frame(*self),
                orig == old(self).cells(),
                orig.len() == gw * gh,
                pen == old(self).pen_cell(),
                gw == self.width as int,
                gh == self.height as int,
                cxi == cx as int,
                cyi == cy as int,
                -0x7F0_0000 <= cx <= 0x7F0_0000,
                -0x7F0_0000 <= cy <= 0x7F0_0000,
                r <= 0x2000,
                x < y || (0 <= y && y <= x && x <= r && err as int == (y as int) * (y as int) + 2
                    * (y as int) - (r as int - x as int) * (r as int + x as int - 2)),
                cwalk(r as int, 0, 0) =~= vis + cwalk(x as int, y as int, err as int),
                covered == covered_form(cxi, cyi, vis, filled),
                paints(orig, self.cells(), covered, gw, gh, pen),
            decreases gap(x as int, y as int),
        {
            let ghost st = (x as int, y as int);
            let ghost cov0 = covered;
            proof {
                assert(-0x1000_0000 <= err as int && err as int <= 0x1000_0000)
                    by (nonlinear_arith)
                    requires
                        0 <= y as int,
                        y as int <= x as int,
                        x as int <= r as int,
                        r as int <= 0x2000,
                        err as int == (y as int) * (y as int) + 2 * (y as int) - (r as int
                            - x as int) * (r as int + x as int - 2),
                ;
            }
            if filled {
                let ghost h0 = self.cells();
                self.draw_line(cx - x, cy + y, cx + x, cy + y);
                let ghost h1 = self.cells();
                self.draw_line(cx - y, cy + x, cx + y, cy + x);
                let ghost h2 = self.cells();
                self.draw_line(cx - x, cy - y, cx + x, cy - y);
                let ghost h3 = self.cells();
                self.draw_line(cx - y, cy - x, cx + y, cy - x);
                proof {
                    let s1 = hseg_set(cxi - st.0, cxi + st.0, cyi + st.1);
                    let s2 = hseg_set(cxi - st.1, cxi + st.1, cyi + st.0);
                    let s3 = hseg_set(cxi - st.0, cxi + st.0, cyi - st.1);
                    let s4 = hseg_set(cxi - st.1, cxi + st.1, cyi - st.0);
                    lemma_line_set_horizontal(cxi - st.0, cyi + st.1, cxi + st.0);
                    lemma_line_set_horizontal(cxi - st.1, cyi + st.0, cxi + st.1);
                    lemma_line_set_horizontal(cxi - st.0, cyi - st.1, cxi + st.0);
                    lemma_line_set_horizontal(cxi - st.1, cyi - st.0, cxi + st.1);
                    lemma_paints_compose(orig, h0, h1, cov0, s1, gw, gh, pen);
                    lemma_paints_compose(orig, h1, h2, cov0.union(s1), s2, gw, gh, pen);
                    lemma_paints_compose(orig, h2, h3, cov0.union(s1).union(s2), s3, gw, gh, pen);
                    lemma_paints_compose(
                        orig,
                        h3,
                        self.cells(),
                        cov0.union(s1).union(s2).union(s3),
                        s4,
                        gw,
                        gh,
                        pen,
                    );
                    covered = cov0.union(s1).union(s2).union(s3).union(s4);
                    assert(covered =~= cov0.union(spans4(cxi, cyi, st.0, st.1)));
                    covered = cov0.union(spans4(cxi, cyi, st.0, st.1));
                }
            } else {
                let ghost mid0 = self.cells();
                let ghost pre0 = covered;
                self.draw_point((cx + x) as u16, (cy + y) as u16);
                proof {
                    lemma_paints_insert(
                        orig,
                        mid0,
                        self.cells(),
                        pre0,
                        ((cx + x) as int, (cy + y) as int),
                        gw,
                        gh,
                        pen,
                    );
                    covered = pre0.insert(((cx + x) as int, (cy + y) as int));
                }
                let ghost mid1 = self.cells();
                let ghost pre1 = covered;
                self.draw_point((cx + y) as u16, (cy + x) as u16);
                proof {
                    lemma_paints_insert(
                        orig,
                        mid1,
                        self.cells(),
                        pre1,
                        ((cx + y) as int, (cy + x) as int),
                        gw,
                        gh,
                        pen,
                    );
                    covered = pre1.insert(((cx + y) as int, (cy + x) as int));
                }
                let ghost mid2 = self.cells();
                let ghost pre2 = covered;
                self.draw_point((cx - y) as u16, (cy + x) as u16);
                proof {
                    lemma_paints_insert(
                        orig,
                        mid2,
                        self.cells(),
                        pre2,
                        ((cx - y) as int, (cy + x) as int),
                        gw,
                        gh,
                        pen,
                    );
                    covered = pre2.insert(((cx - y) as int, (cy + x) as int));
                }
                let ghost mid3 = self.cells();
                let ghost pre3 = covered;
                self.draw_point((cx - x) as u16, (cy + y) as u16);
                proof {
                    lemma_paints_insert(
                        orig,
                        mid3,
                        self.cells(),
                        pre3,
                        ((cx - x) as int, (cy + y) as int),
                        gw,
                        gh,
                        pen,
                    );
                    covered = pre3.insert(((cx - x) as int, (cy + y) as int));
                }
                let ghost mid4 = self.cells();
                let ghost pre4 = covered;
                self.draw_point((cx - x) as u16, (cy - y) as u16);
                proof {
                    lemma_paints_insert(
                        orig,
                        mid4,
                        self.cells(),
                        pre4,
                        ((cx - x) as int, (cy - y) as int),
                        gw,
                        gh,
                        pen,
                    );
                    covered = pre4.insert(((cx - x) as int, (cy - y) as int));
                }
                let ghost mid5 = self.cells();
                let ghost pre5 = covered;
                self.draw_point((cx - y) as u16, (cy - x) as u16);
                proof {
                    lemma_paints_insert(
                        orig,
                        mid5,
                        self.cells(),
                        pre5,
                        ((cx - y) as int, (cy - x) as int),
                        gw,
                        gh,
                        pen,
                    );
                    covered = pre5.insert(((cx - y) as int, (cy - x) as int));
                }
                let ghost mid6 = self.cells();
                let ghost pre6 = covered;
                self.draw_point((cx + y) as u16, (cy - x) as u16);
                proof {
                    lemma_paints_insert(
                        orig,
                        mid6,
                        self.cells(),
                        pre6,
                        ((cx + y) as int, (cy - x) as int),
                        gw,
                        gh,
                        pen,
                    );
                    covered = pre6.insert(((cx + y) as int, (cy - x) as int));
                }
                let ghost mid7 = self.cells();
                let ghost pre7 = covered;
                self.draw_point((cx + x) as u16, (cy - y) as u16);
                proof {
                    lemma_paints_insert(
                        orig,
                        mid7,
                        self.cells(),
                        pre7,
                        ((cx + x) as int, (cy - y) as int),
                        gw,
                        gh,
                        pen,
                    );
                    covered = pre7.insert(((cx + x) as int, (cy - y) as int));
                }
                proof {
                    assert(covered =~= cov0.union(octet(cxi, cyi, st.0, st.1)));
                    covered = cov0.union(octet(cxi, cyi, st.0, st.1));
                }
            }
            let ghost old_x = x as int;
            let ghost old_y = y as int;
            let ghost old_err = err as int;
            y = y + 1;
            err = err + 1 + 2 * y;
            if 2 * (err - x) + 1 > 0 {
                x = x - 1;
                err = err + 1 - 2 * x;
            }
            proof {
                let prev_vis = vis;
                vis = vis.push(st);
                assert(cwalk(old_x, old_y, old_err) =~= seq![st] + cwalk(
                    x as int,
                    y as int,
                    err as int,
                ));
                assert(cwalk(r as int, 0, 0) =~= vis + cwalk(x as int, y as int, err as int));
                if x >= y {
                    assert(err as int == (y as int) * (y as int) + 2 * (y as int) - (r as int
                        - x as int) * (r as int + x as int - 2)) by (nonlinear_arith)
                        requires
                            old_err == old_y * old_y + 2 * old_y - (r as int - old_x) * (r as int
                                + old_x - 2),
                            y as int == old_y + 1,
                            x as int == old_x || x as int == old_x - 1,
                            ({
                                let e2 = old_err + 1 + 2 * (old_y + 1);
                                &&& (x as int == old_x - 1) == (2 * (e2 - old_x) + 1 > 0)
                                &&& err as int == if x as int == old_x - 1 {
                                    e2 + 1 - 2 * (old_x - 1)
                                } else {
                                    e2
                                }
                            }),
                    ;
                }
                assert forall|p: (int, int)| covered_form(cxi, cyi, vis, filled).contains(p)
                    implies covered.contains(p) by {
                    let k = choose|k: int|
                        0 <= k < vis.len() && state_pts(
                            cxi,
                            cyi,
                            (#[trigger] vis[k]).0,
                            vis[k].1,
                            filled,
                        ).contains(p);
                    if k < prev_vis.len() {
                        assert(prev_vis[k] == vis[k]);
                        assert(covered_form(cxi, cyi, prev_vis, filled).contains(p));
                    } else {
                        assert(vis[k] == st);
                    }
                }
                assert forall|p: (int, int)| covered.contains(p) implies covered_form(
                    cxi,
                    cyi,
                    vis,
                    filled,
                ).contains(p) by {
                    if covered_form(cxi, cyi, prev_vis, filled).contains(p) {
                        let k = choose|k: int|
                            0 <= k < prev_vis.len() && state_pts(
                                cxi,
                                cyi,
                                (#[trigger] prev_vis[k]).0,
                                prev_vis[k].1,
                                filled,
                            ).contains(p);
                        assert(vis[k] == prev_vis[k]);
                    } else {
                        assert(state_pts(cxi, cyi, st.0, st.1, filled).contains(p));
                        assert(vis[vis.len() - 1] == st);
                    }
                }
                assert(covered =~= covered_form(cxi, cyi, vis, filled));
                covered = covered_form(cxi, cyi, vis, filled);
            }
        }
        proof {
            assert(cwalk(x as int, y as int, err as int) =~= Seq::<(int, int)>::empty());
            assert(vis =~= cwalk(r as int, 0, 0));
            if filled {
                assert(circle_filled_set(cxi, cyi, r as int) =~= covered_form(
                    cxi,
                    cyi,
                    vis,
                    filled,
                ));
            } else {
                assert(circle_outline_set(cxi, cyi, r as int) =~= covered_form(
                    cxi,
                    cyi,
                    vis,
                    filled,
                ));
            }
        }
    }

    /// Sets the pen symbol; already-written cells are untouched.
    pub fn set_symbol(&mut self, symbol: char)
        ensures
            final(self).symbol() == symbol,
            final(self).fg() == old(self).fg(),
            final(self).bg() == old(self).bg(),
            final(self).cells() == old(self).cells(),
            final(self).width == old(self).width,
            final(self).height == old(self).height,
            final(self).current_pixel_mode == old(self).current_pixel_mode,
    {
        self.current_symbol = symbol;
    }

    /// Sets the pen foreground color; already-written cells are untouched.
    pub fn set_foreground_color(&mut self, color: Color)
        ensures
            final(self).fg() == color,
            final(self).symbol() == old(self).symbol(),
            final(self).bg() == old(self).bg(),
            final(self).cells() == old(self).cells(),
            final(self).width == old(self).width,
            final(self).height == old(self).height,
            final(self).current_pixel_mode == old(self).current_pixel_mode,
    {
        self.current_fg = color;
    }

    /// Sets the pen background color; already-written cells are untouched.
    pub fn set_background_color(&mut self, color: Color)
        ensures
            final(self).bg() == color,
            final(self).symbol() == old(self).symbol(),
            final(self).fg() == old(self).fg(),
            final(self).cells() == old(self).cells(),
            final(self).width == old(self).width,
            final(self).height == old(self).height,
            final(self).current_pixel_mode == old(self).current_pixel_mode,
    {
        self.current_bg = color;
    }
}

/// One walk state's contribution to the painted set: its octet for an
/// outline, its spans for a filled disc.
spec fn state_pts(cx: int, cy: int, x: int, y: int, filled: bool) -> Set<(int, int)> {
    if filled {
        spans4(cx, cy, x, y)
    } else {
        octet(cx, cy, x, y)
    }
}

/// The points painted by the states visited so far.
spec fn covered_form(cx: int, cy: int, states: Seq<(int, int)>, filled: bool) -> Set<
    (int, int),
> {
    Set::new(
        |p: (int, int)|
            exists|k: int|
                0 <= k < states.len() && state_pts(
                    cx,
                    cy,
                    (#[trigger] states[k]).0,
                    states[k].1,
                    filled,
                ).contains(p),
    )
}

/// The rows of a rectangle already painted: columns `[x, x+w)` of rows
/// `[y, yto)`.
spec fn rect_rows(x: int, w: int, y: int, yto: int) -> Set<(int, int)> {
    Set::new(|p: (int, int)| x <= p.0 < x + w && y <= p.1 < yto)
}

/// The painted rows plus the painted prefix of the current row: all of
/// `rect_rows` up to `yto`, and columns `[x, xto)` of row `yto` itself.
spec fn rect_partial(x: int, w: int, y: int, yto: int, xto: int) -> Set<(int, int)> {
    rect_rows(x, w, y, yto).union(Set::new(|p: (int, int)| x <= p.0 < xto && p.1 == yto))
}

/// A clipped point's target index lies within a buffer of one cell per
/// grid position.
proof fn proof_cell_target_in_range(p: (int, int), width: int, height: int)
    ensures
        cell_target(p, width, height) is Some ==> 0 <= cell_target(p, width, height)->0 < width
            * height,
{
    if cell_target(p, width, height) is Some {
        let xu = p.0 as u16;
        let yu = p.1 as u16;
        assert(0 <= (yu as int) * width + (xu as int) && (yu as int) * width + (xu as int) < width * height) by (nonlinear_arith)
            requires
                0 <= xu as int,
                (xu as int) < width,
                0 <= yu as int,
                (yu as int) < height,
        ;
    }
}

/// Appending one point adds exactly that point to the sequence's set.
proof fn lemma_to_set_push_pt(s: Seq<(int, int)>, v: (int, int))
    ensures
        s.push(v).to_set() == s.to_set().insert(v),
{
    let p = s.push(v);
    assert forall|c: (int, int)| p.to_set().contains(c) implies s.to_set().insert(v).contains(
        c,
    ) by {
        let k = choose|k: int| 0 <= k < p.len() && p[k] == c;
        if k < s.len() {
            assert(s[k] == c);
        }
    }
    assert forall|c: (int, int)| s.to_set().insert(v).contains(c) implies p.to_set().contains(
        c,
    ) by {
        if c == v {
            assert(p[s.len() as int] == c);
        } else {
            let k = choose|k: int| 0 <= k < s.len() && s[k] == c;
            assert(p[k] == c);
        }
    }
    assert(p.to_set() =~= s.to_set().insert(v));
}

/// A row-major index is within the buffer: with `x < width` and
/// `y < height`, `y * width + x` lies below `width * height`.
pub proof fn lemma_row_major_index_bound(x: int, y: int, width: int, height: int)
    requires
        0 <= x < width,
        0 <= y < height,
        width <= 0xFFFF,
        height <= 0xFFFF,
    ensures
        0 <= y * width + x < width * height,
        y * width + x < 0xFFFF_FFFF,
{
    assert(y * width + x < width * height) by (nonlinear_arith)
        requires
            0 <= x < width,
            0 <= y < height,
    ;
    assert(y * width >= 0) by (nonlinear_arith)
        requires
            y >= 0,
            width >= 0,
    ;
    assert(width * height <= 0xFFFF * 0xFFFF) by (nonlinear_arith)
        requires
            0 < width <= 0xFFFF,
            0 < height <= 0xFFFF,
    ;
}

/// How many leading characters of a run of `len` characters starting at
/// column `x` fit before the width: all of them, or exactly `width - x`.
pub open spec fn text_fit(x: int, width: int, len: int) -> int {
    if x >= width {
        0
    } else if len <= width - x {
        len
    } else {
        width - x
    }
}

} // verus!

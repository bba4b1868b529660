//! Double-buffered rendering: the authoritative cell storage and the diff
//! pass that turns a frame into the minimal set of positioned writes.
//!
//! The renderer owns three equally sized buffers: `front` (its memory of
//! what the terminal shows), `back` (what scenes drew this frame) and
//! `overlay` (HUD content composited on top each frame).  `flush` computes
//! the writes a caller must send to the terminal; the caller performs the
//! actual I/O.

use vstd::prelude::*;

use crate::color::Color;
use crate::draw::Canvas;

verus! {

/// One character-sized grid unit: a glyph with its colors.
#[derive(Clone, Copy, Debug, PartialEq, Eq, Structural)]
pub struct Cell {
    pub symbol: char,
    pub fg: Color,
    pub bg: Color,
}

/// The default cell: a space with both colors reset.
pub open spec fn default_cell() -> Cell {
    Cell { symbol: ' ', fg: Color::Reset, bg: Color::Reset }
}

impl Default for Cell {
    /// A space with both colors reset.
    fn default() -> (c: Self)
        ensures
            c == default_cell(),
    {
        Cell { symbol: ' ', fg: Color::Reset, bg: Color::Reset }
    }
}

/// One positioned, colored, single-glyph terminal write.
#[derive(Clone, Copy, Debug, PartialEq, Eq, Structural)]
pub struct TermWrite {
    pub x: u16,
    pub y: u16,
    pub cell: Cell,
}

/// The write that repaints buffer index `i` from `buf`, for a grid of the
/// given width.
pub open spec fn write_at(buf: Seq<Cell>, width: int, i: int) -> TermWrite {
    TermWrite { x: (i % width) as u16, y: (i / width) as u16, cell: buf[i] }
}

/// The writes of the scene-layer pass over indices `[0, n)`: one write per
/// index where `back` differs from `front`, in index order.
pub open spec fn diff_writes(front: Seq<Cell>, back: Seq<Cell>, width: int, n: int) -> Seq<
    TermWrite,
>
    decreases n,
{
    if n <= 0 {
        Seq::empty()
    } else {
        let rest = diff_writes(front, back, width, n - 1);
        if front[n - 1] != back[n - 1] {
            rest.push(write_at(back, width, n - 1))
        } else {
            rest
        }
    }
}

/// The writes of the overlay pass over indices `[0, n)`: one write per
/// index holding a non-default overlay cell, in index order.
pub open spec fn overlay_writes(overlay: Seq<Cell>, width: int, n: int) -> Seq<TermWrite>
    decreases n,
{
    if n <= 0 {
        Seq::empty()
    } else {
        let rest = overlay_writes(overlay, width, n - 1);
        if overlay[n - 1] != default_cell() {
            rest.push(write_at(overlay, width, n - 1))
        } else {
            rest
        }
    }
}

/// Flushing a back buffer identical to the front buffer emits no
/// scene-layer writes: the diff pass is empty whenever the two buffers
/// agree on every compared cell.
pub proof fn lemma_diff_writes_empty(front: Seq<Cell>, back: Seq<Cell>, width: int, n: int)
    requires
        forall|i: int| 0 <= i < n ==> front[i] == back[i],
    ensures
        diff_writes(front, back, width, n) == Seq::<TermWrite>::empty(),
    decreases n,
{
    if n > 0 {
        lemma_diff_writes_empty(front, back, width, n - 1);
    }
}

/// An all-default overlay buffer contributes no writes.
pub proof fn lemma_overlay_writes_empty(overlay: Seq<Cell>, width: int, n: int)
    requires
        forall|i: int| 0 <= i < n ==> overlay[i] == default_cell(),
    ensures
        overlay_writes(overlay, width, n) == Seq::<TermWrite>::empty(),
    decreases n,
{
    if n > 0 {
        lemma_overlay_writes_empty(overlay, width, n - 1);
    }
}

/// The owner of the three cell buffers.  Terminal setup, teardown and the
/// actual byte output are the caller's concern; the renderer only computes.
pub struct TerminalRenderer {
    width: u16,
    height: u16,
    front_buffer: Vec<Cell>,
    back_buffer: Vec<Cell>,
    overlay_buffer: Vec<Cell>,
}

/// A buffer of `size` default cells.
fn default_buffer(size: usize) -> (v: Vec<Cell>)
    ensures
        v@.len() == size,
        forall|i: int| 0 <= i < size ==> v@[i] == default_cell(),
{
    let mut v: Vec<Cell> = Vec::new();
    let mut i: usize = 0;
    while i < size
        invariant
            i <= size,
            v@.len() == i,
            forall|k: int| 0 <= k < i ==> v@[k] == default_cell(),
        decreases size - i,
    {
        v.push(Cell { symbol: ' ', fg: Color::Reset, bg: Color::Reset });
        i = i + 1;
    }
    v
}

impl TerminalRenderer {
    /// The number of cells in each buffer.
    pub open spec fn size(self) -> int {
        self.spec_width() as int * self.spec_height() as int
    }

    /// All three buffers have exactly one cell per grid position.
    pub open spec fn wf(self) -> bool {
        &&& self.front().len() == self.size()
        &&& self.back().len() == self.size()
        &&& self.overlay().len() == self.size()
    }

    /// The grid width.
    pub closed spec fn spec_width(self) -> u16 {
        self.width
    }

    /// The grid height.
    pub closed spec fn spec_height(self) -> u16 {
        self.height
    }

    /// The renderer's record of what the terminal currently displays.
    pub closed spec fn front(self) -> Seq<Cell> {
        self.front_buffer@
    }

    /// The buffer scenes draw into.
    pub closed spec fn back(self) -> Seq<Cell> {
        self.back_buffer@
    }

    /// The transient top layer for HUD content.
    pub closed spec fn overlay(self) -> Seq<Cell> {
        self.overlay_buffer@
    }

    /// Allocates all three buffers at the given fixed dimensions, filled
    /// with default cells.
    pub fn new(width: u16, height: u16) -> (r: TerminalRenderer)
        ensures
            r.wf(),
            r.spec_width() == width,
            r.spec_height() == height,
            forall|i: int| 0 <= i < r.size() ==> r.front()[i] == default_cell(),
            forall|i: int| 0 <= i < r.size() ==> r.back()[i] == default_cell(),
            forall|i: int| 0 <= i < r.size() ==> r.overlay()[i] == default_cell(),
    {
        proof {
            assert((width as int) * (height as int) <= 0xFFFF * 0xFFFF) by (nonlinear_arith)
                requires
                    width <= 0xFFFF,
                    height <= 0xFFFF,
            ;
        }
        let size: usize = (width as usize) * (height as usize);
        TerminalRenderer {
            width,
            height,
            front_buffer: default_buffer(size),
            back_buffer: default_buffer(size),
            overlay_buffer: default_buffer(size),
        }
    }

    /// The grid width.
    pub fn width(&self) -> (w: u16)
        ensures
            w == self.spec_width(),
    {
        self.width
    }

    /// The grid height.
    pub fn height(&self) -> (h: u16)
        ensures
            h == self.spec_height(),
    {
        self.height
    }

    /// Resets every cell of the back and overlay buffers to the default;
    /// the front buffer keeps its memory of what is already drawn.
    pub fn clear_screen(&mut self)
        requires
            old(self).wf(),
        ensures
            final(self).wf(),
            final(self).spec_width() == old(self).spec_width(),
            final(self).spec_height() == old(self).spec_height(),
            final(self).front() == old(self).front(),
            forall|i: int| 0 <= i < final(self).size() ==> final(self).back()[i] == default_cell(),
            forall|i: int|
                0 <= i < final(self).size() ==> final(self).overlay()[i] == default_cell(),
    {
        let n = self.back_buffer.len();
        let mut i: usize = 0;
        while i < n
            invariant
                i <= n,
                self.back_buffer@.len() == n,
                self.overlay_buffer@.len() == old(self).overlay_buffer@.len(),
                forall|k: int| 0 <= k < i ==> self.back_buffer@[k] == default_cell(),
                self.width == old(self).width,
                self.height == old(self).height,
                self.front_buffer@ == old(self).front_buffer@,
                self.overlay_buffer@ == old(self).overlay_buffer@,
            decreases n - i,
        {
            self.back_buffer[i] = Cell { symbol: ' ', fg: Color::Reset, bg: Color::Reset };
            i = i + 1;
        }
        self.clear_overlay();
    }

    /// Resets every overlay cell to the default.
    pub fn clear_overlay(&mut self)
        requires
            old(self).overlay().len() == old(self).size(),
        ensures
            final(self).spec_width() == old(self).spec_width(),
            final(self).spec_height() == old(self).spec_height(),
            final(self).front() == old(self).front(),
            final(self).back() == old(self).back(),
            final(self).overlay().len() == final(self).size(),
            forall|i: int|
                0 <= i < final(self).size() ==> final(self).overlay()[i] == default_cell(),
    {
        let n = self.overlay_buffer.len();
        let mut i: usize = 0;
        while i < n
            invariant
                i <= n,
                self.overlay_buffer@.len() == n,
                forall|k: int| 0 <= k < i ==> self.overlay_buffer@[k] == default_cell(),
                self.width == old(self).width,
                self.height == old(self).height,
                self.front_buffer@ == old(self).front_buffer@,
                self.back_buffer@ == old(self).back_buffer@,
            decreases n - i,
        {
            self.overlay_buffer[i] = Cell { symbol: ' ', fg: Color::Reset, bg: Color::Reset };
            i = i + 1;
        }
    }

    /// Hands out the back buffer as a canvas for this frame.  Until
    /// `end_canvas` returns the buffer, the renderer is not well formed
    /// and cannot flush.
    pub fn canvas(&mut self) -> (c: Canvas)
        requires
            old(self).back().len() == old(self).size(),
        ensures
            c.wf(),
            c.width == old(self).spec_width(),
            c.height == old(self).spec_height(),
            c.cells() == old(self).back(),
            c.fg() == Color::Reset,
            c.bg() == Color::Reset,
            c.symbol() == ' ',
            final(self).spec_width() == old(self).spec_width(),
            final(self).spec_height() == old(self).spec_height(),
            final(self).front() == old(self).front(),
            final(self).overlay() == old(self).overlay(),
    {
        let mut taken: Vec<Cell> = Vec::new();
        core::mem::swap(&mut self.back_buffer, &mut taken);
        Canvas::new(self.width, self.height, taken)
    }

    /// Takes the frame's canvas back as the new back buffer.
    pub fn end_canvas(&mut self, c: Canvas)
        requires
            c.wf(),
            c.width == old(self).spec_width(),
            c.height == old(self).spec_height(),
        ensures
            final(self).spec_width() == old(self).spec_width(),
            final(self).spec_height() == old(self).spec_height(),
            final(self).front() == old(self).front(),
            final(self).overlay() == old(self).overlay(),
            final(self).back() == c.cells(),
    {
        self.back_buffer = c.into_buffer();
    }

    /// Hands out the overlay buffer as a canvas for HUD drawing.
    pub fn overlay_canvas(&mut self) -> (c: Canvas)
        requires
            old(self).overlay().len() == old(self).size(),
        ensures
            c.wf(),
            c.width == old(self).spec_width(),
            c.height == old(self).spec_height(),
            c.cells() == old(self).overlay(),
            c.fg() == Color::Reset,
            c.bg() == Color::Reset,
            c.symbol() == ' ',
            final(self).spec_width() == old(self).spec_width(),
            final(self).spec_height() == old(self).spec_height(),
            final(self).front() == old(self).front(),
            final(self).back() == old(self).back(),
    {
        let mut taken: Vec<Cell> = Vec::new();
        core::mem::swap(&mut self.overlay_buffer, &mut taken);
        Canvas::new(self.width, self.height, taken)
    }

    /// Takes the frame's overlay canvas back as the new overlay buffer.
    pub fn end_overlay_canvas(&mut self, c: Canvas)
        requires
            c.wf(),
            c.width == old(self).spec_width(),
            c.height == old(self).spec_height(),
        ensures
            final(self).spec_width() == old(self).spec_width(),
            final(self).spec_height() == old(self).spec_height(),
            final(self).front() == old(self).front(),
            final(self).back() == old(self).back(),
            final(self).overlay() == c.cells(),
    {
        self.overlay_buffer = c.into_buffer();
    }

    /// Reconciles the frame with the terminal.
    ///
    /// First pass: every cell where the back buffer differs from the front
    /// buffer becomes one write, and the front buffer takes the back
    /// buffer's contents.  Second pass: every non-default overlay cell is
    /// unconditionally written on top and recorded into the front buffer;
    /// the overlay is then reset so it cannot bleed into the next frame.
    ///
    /// The returned writes are what the caller must send to the terminal,
    /// in order.  An unchanged frame (back equal to front, overlay all
    /// default) yields no writes at all.
    pub fn flush(&mut self) -> (writes: Vec<TermWrite>)
        requires
            old(self).wf(),
        ensures
            final(self).wf(),
            final(self).spec_width() == old(self).spec_width(),
            final(self).spec_height() == old(self).spec_height(),
            writes@ == diff_writes(old(self).front(), old(self).back(), old(self).spec_width() as int, old(self).size())
                + overlay_writes(old(self).overlay(), old(self).spec_width() as int, old(self).size()),
            final(self).back() == old(self).back(),
            forall|i: int|
                0 <= i < final(self).size() ==> final(self).front()[i] == if old(self).overlay()[i]
                    != default_cell() {
                    old(self).overlay()[i]
                } else {
                    old(self).back()[i]
                },
            forall|i: int|
                0 <= i < final(self).size() ==> final(self).overlay()[i] == default_cell(),
            (old(self).front() == old(self).back() && (forall|i: int|
                0 <= i < old(self).size() ==> old(self).overlay()[i] == default_cell()))
                ==> writes@ == Seq::<TermWrite>::empty(),
    {
        let n = self.back_buffer.len();
        let mut writes: Vec<TermWrite> = Vec::new();
        let mut i: usize = 0;
        while i < n
            invariant
                old(self).wf(),
                *self == *old(self),
                n == self.size(),
                i <= n,
                writes@ == diff_writes(self.front(), self.back(), self.spec_width() as int, i as int),
            decreases n - i,
        {
            let fc = self.front_buffer[i];
            let bc = self.back_buffer[i];
            if fc != bc {
                proof {
                    assert(self.width as int * self.height as int > 0);
                    assert(i as int / (self.width as int) < self.height as int)
                        by (nonlinear_arith)
                        requires
                            0 <= i as int,
                            (i as int) < (self.width as int) * (self.height as int),
                            self.width as int > 0,
                    ;
                }
                let x: u16 = (i % (self.width as usize)) as u16;
                let y: u16 = (i / (self.width as usize)) as u16;
                writes.push(TermWrite { x, y, cell: bc });
                proof {
                    assert(TermWrite { x, y, cell: bc } == write_at(
                        self.back(),
                        self.spec_width() as int,
                        i as int,
                    ));
                }
            }
            i = i + 1;
        }
        let mut j: usize = 0;
        while j < n
            invariant
                old(self).wf(),
                n == self.size(),
                j <= n,
                self.width == old(self).width,
                self.height == old(self).height,
                self.back_buffer@ == old(self).back_buffer@,
                self.overlay_buffer@ == old(self).overlay_buffer@,
                self.front_buffer@.len() == n,
                forall|k: int| 0 <= k < j ==> self.front_buffer@[k] == old(self).back_buffer@[k],
                forall|k: int| j <= k < n ==> self.front_buffer@[k] == old(self).front_buffer@[k],
            decreases n - j,
        {
            let bc = self.back_buffer[j];
            self.front_buffer[j] = bc;
            j = j + 1;
        }
        let mut k: usize = 0;
        while k < n
            invariant
                old(self).wf(),
                n == self.size(),
                k <= n,
                self.width == old(self).width,
                self.height == old(self).height,
                self.back_buffer@ == old(self).back_buffer@,
                self.overlay_buffer@ == old(self).overlay_buffer@,
                self.front_buffer@.len() == n,
                forall|m: int|
                    0 <= m < n ==> self.front_buffer@[m] == if m < k && old(self).overlay_buffer@[m]
                        != default_cell() {
                        old(self).overlay_buffer@[m]
                    } else {
                        old(self).back_buffer@[m]
                    },
                writes@ == diff_writes(old(self).front(), old(self).back(), self.spec_width() as int, n as int)
                    + overlay_writes(self.overlay(), self.spec_width() as int, k as int),
            decreases n - k,
        {
            let oc = self.overlay_buffer[k];
            let default = Cell { symbol: ' ', fg: Color::Reset, bg: Color::Reset };
            if oc != default {
                proof {
                    assert(self.width as int * self.height as int > 0);
                    assert(k as int / (self.width as int) < self.height as int)
                        by (nonlinear_arith)
                        requires
                            0 <= k as int,
                            (k as int) < (self.width as int) * (self.height as int),
                            self.width as int > 0,
                    ;
                }
                let x: u16 = (k % (self.width as usize)) as u16;
                let y: u16 = (k / (self.width as usize)) as u16;
                writes.push(TermWrite { x, y, cell: oc });
                self.front_buffer[k] = oc;
                proof {
                    assert(writes@ =~= diff_writes(
                        old(self).front(),
                        old(self).back(),
                        self.spec_width() as int,
                        n as int,
                    ) + overlay_writes(self.overlay(), self.spec_width() as int, k as int + 1));
                }
            }
            k = k + 1;
        }
        self.clear_overlay();
        proof {
            if old(self).front() == old(self).back() && (forall|i: int|
                0 <= i < old(self).size() ==> old(self).overlay()[i] == default_cell()) {
                lemma_diff_writes_empty(
                    old(self).front(),
                    old(self).back(),
                    self.spec_width() as int,
                    old(self).size(),
                );
                lemma_overlay_writes_empty(
                    old(self).overlay(),
                    self.spec_width() as int,
                    old(self).size(),
                );
                assert(writes@ == Seq::<TermWrite>::empty());
            }
        }
        writes
    }
}

} // verus!

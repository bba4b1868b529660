//! The integer geometry behind the drawing primitives: the Bresenham line
//! walk, the midpoint circle walk, and the point sets they cover.
//!
//! Everything here is ghost mathematics; the executable loops in `draw`
//! are proved to trace exactly these walks.

use vstd::prelude::*;

verus! {

/// The absolute value.
pub open spec fn abs(v: int) -> int {
    if v >= 0 {
        v
    } else {
        -v
    }
}

/// The step direction from `from` toward `to`: 1 when `from < to`, else -1.
pub open spec fn sign_step(from: int, to: int) -> int {
    if from < to {
        1
    } else {
        -1
    }
}

/// Whether the line walk at progress `(i, j)` advances along x.  Writing
/// `a` for the full x-distance and `b` for the full y-distance, the walk
/// keeps the error term `err = a*(j+1) - b*(i+1)`; the x coordinate
/// advances when `2*err >= -b`.
pub open spec fn step_x(a: int, b: int, i: int, j: int) -> bool {
    2 * a * (j + 1) >= b * (2 * i + 1)
}

/// Whether the line walk at progress `(i, j)` advances along y: the walk
/// advances y when `2*err <= a`.
pub open spec fn step_y(a: int, b: int, i: int, j: int) -> bool {
    a * (2 * j + 1) <= 2 * b * (i + 1)
}

/// While the walk is not finished, at least one axis advances, and a
/// finished axis never advances past its distance.
pub proof fn lemma_walk_progress(a: int, b: int, i: int, j: int)
    requires
        0 <= i <= a,
        0 <= j <= b,
        !(i == a && j == b),
    ensures
        step_x(a, b, i, j) || step_y(a, b, i, j),
        i == a ==> !step_x(a, b, i, j),
        j == b ==> !step_y(a, b, i, j),
{
    if !step_x(a, b, i, j) && !step_y(a, b, i, j) {
        assert(false) by (nonlinear_arith)
            requires
                0 <= i <= a,
                0 <= j <= b,
                2 * a * (j + 1) < b * (2 * i + 1),
                a * (2 * j + 1) > 2 * b * (i + 1),
        ;
    }
    if i == a && j < b {
        assert(!step_x(a, b, i, j)) by (nonlinear_arith)
            requires
                0 <= i <= a,
                0 <= j < b,
                i == a,
        ;
    }
    if j == b && i < a {
        assert(!step_y(a, b, i, j)) by (nonlinear_arith)
            requires
                0 <= i < a,
                0 <= j <= b,
                j == b,
        ;
    }
}

#[via_fn]
proof fn walk_decreases(a: int, b: int, i: int, j: int) {
    if !(i == a && j == b) {
        lemma_walk_progress(a, b, i, j);
    }
}

/// The successor of progress pair `(i, j)`: each axis advances when its
/// step condition fires.
pub open spec fn walk_next(a: int, b: int, i: int, j: int) -> (int, int) {
    (
        if step_x(a, b, i, j) {
            i + 1
        } else {
            i
        },
        if step_y(a, b, i, j) {
            j + 1
        } else {
            j
        },
    )
}

/// The progress pairs the line walk visits from `(i, j)` to `(a, b)`,
/// inclusive of both.
pub open spec fn walk(a: int, b: int, i: int, j: int) -> Seq<(int, int)>
    decreases a - i + b - j,
        when 0 <= i <= a && 0 <= j <= b
        via walk_decreases
{
    if i == a && j == b {
        seq![(i, j)]
    } else {
        let n = walk_next(a, b, i, j);
        seq![(i, j)] + walk(a, b, n.0, n.1)
    }
}

/// The points the line from `(x0, y0)` to `(x1, y1)` covers, in drawing
/// order: the progress walk carried into the line's own quadrant.
pub open spec fn line_pts(x0: int, y0: int, x1: int, y1: int) -> Seq<(int, int)> {
    let a = abs(x1 - x0);
    let b = abs(y1 - y0);
    let sx = sign_step(x0, x1);
    let sy = sign_step(y0, y1);
    walk(a, b, 0, 0).map_values(|p: (int, int)| (x0 + sx * p.0, y0 + sy * p.1))
}

/// The set of points the line from `(x0, y0)` to `(x1, y1)` covers.
pub open spec fn line_set(x0: int, y0: int, x1: int, y1: int) -> Set<(int, int)> {
    line_pts(x0, y0, x1, y1).to_set()
}

/// Carries progress pairs into a line's own quadrant.
pub open spec fn offset_pts(pts: Seq<(int, int)>, x0: int, y0: int, sx: int, sy: int) -> Seq<
    (int, int),
> {
    pts.map_values(|p: (int, int)| (x0 + sx * p.0, y0 + sy * p.1))
}

/// Whether `v` lies between `a` and `b`, whichever of the two is lower.
pub open spec fn between(a: int, b: int, v: int) -> bool {
    (a <= v && v <= b) || (b <= v && v <= a)
}

/// The horizontal segment with endpoint columns `xa` and `xb` (in either
/// order) on row `y`.
pub open spec fn hseg_set(xa: int, xb: int, y: int) -> Set<(int, int)> {
    Set::new(|p: (int, int)| between(xa, xb, p.0) && p.1 == y)
}

/// The vertical segment with endpoint rows `ya` and `yb` (in either order)
/// in column `x`.
pub open spec fn vseg_set(ya: int, yb: int, x: int) -> Set<(int, int)> {
    Set::new(|p: (int, int)| between(ya, yb, p.1) && p.0 == x)
}

/// A horizontal walk advances x alone: with no y-distance the walk is the
/// straight run of progress pairs.
pub proof fn lemma_walk_horizontal(a: int, i: int)
    requires
        0 <= i <= a,
    ensures
        walk(a, 0, i, 0) =~= Seq::new((a - i + 1) as nat, |k: int| (i + k, 0int)),
    decreases a - i,
{
    if i == a {
    } else {
        assert(2 * a * (0 + 1) >= 0 * (2 * i + 1)) by (nonlinear_arith)
            requires
                a >= 0,
        ;
        assert(a * (2 * 0 + 1) > 2 * 0 * (i + 1)) by (nonlinear_arith)
            requires
                a >= 1,
        ;
        assert(step_x(a, 0, i, 0));
        assert(!step_y(a, 0, i, 0));
        lemma_walk_horizontal(a, i + 1);
    }
}

/// A vertical walk advances y alone.
pub proof fn lemma_walk_vertical(b: int, j: int)
    requires
        0 <= j <= b,
    ensures
        walk(0, b, 0, j) =~= Seq::new((b - j + 1) as nat, |k: int| (0int, j + k)),
    decreases b - j,
{
    if j == b {
    } else {
        assert(2 * 0 * (j + 1) < b * (2 * 0 + 1)) by (nonlinear_arith)
            requires
                b >= 1,
        ;
        assert(0 * (2 * j + 1) <= 2 * b * (0 + 1)) by (nonlinear_arith)
            requires
                b >= 0,
        ;
        assert(!step_x(0, b, 0, j));
        assert(step_y(0, b, 0, j));
        lemma_walk_vertical(b, j + 1);
    }
}

/// A horizontal line covers exactly the segment between its endpoints.
pub proof fn lemma_line_set_horizontal(x0: int, y: int, x1: int)
    ensures
        line_set(x0, y, x1, y) =~= hseg_set(x0, x1, y),
{
    let a = abs(x1 - x0);
    let sx = sign_step(x0, x1);
    lemma_walk_horizontal(a, 0);
    let pts = line_pts(x0, y, x1, y);
    assert(pts.len() == a + 1);
    assert(forall|k: int| 0 <= k <= a ==> walk(a, 0, 0, 0)[k] == (k, 0int));
    assert(forall|k: int| 0 <= k <= a ==> pts[k] == (x0 + sx * k, y));
    assert forall|p: (int, int)| line_set(x0, y, x1, y).contains(p) implies hseg_set(
        x0,
        x1,
        y,
    ).contains(p) by {
        let k = choose|k: int| 0 <= k < pts.len() && pts[k] == p;
        assert(p == (x0 + sx * k, y));
        lemma_mul_sign(sx, k);
    }
    assert forall|p: (int, int)| hseg_set(x0, x1, y).contains(p) implies line_set(
        x0,
        y,
        x1,
        y,
    ).contains(p) by {
        let k = abs(p.0 - x0);
        assert(0 <= k <= a);
        lemma_mul_sign(sx, k);
        assert(pts[k] == p);
        assert(pts.contains(p));
    }
}

/// A vertical line covers exactly the segment between its endpoints.
pub proof fn lemma_line_set_vertical(x: int, y0: int, y1: int)
    ensures
        line_set(x, y0, x, y1) =~= vseg_set(y0, y1, x),
{
    let b = abs(y1 - y0);
    let sy = sign_step(y0, y1);
    lemma_walk_vertical(b, 0);
    let pts = line_pts(x, y0, x, y1);
    assert(pts.len() == b + 1);
    assert(forall|k: int| 0 <= k <= b ==> walk(0, b, 0, 0)[k] == (0int, k));
    assert(forall|k: int| 0 <= k <= b ==> pts[k] == (x, y0 + sy * k));
    assert forall|p: (int, int)| line_set(x, y0, x, y1).contains(p) implies vseg_set(
        y0,
        y1,
        x,
    ).contains(p) by {
        let k = choose|k: int| 0 <= k < pts.len() && pts[k] == p;
        lemma_mul_sign(sy, k);
    }
    assert forall|p: (int, int)| vseg_set(y0, y1, x).contains(p) implies line_set(
        x,
        y0,
        x,
        y1,
    ).contains(p) by {
        let k = abs(p.1 - y0);
        assert(0 <= k <= b);
        lemma_mul_sign(sy, k);
        assert(pts[k] == p);
        assert(pts.contains(p));
    }
}

/// Multiplying by a sign either keeps or negates the value.
pub proof fn lemma_mul_sign(s: int, t: int)
    requires
        s == 1 || s == -1,
    ensures
        s == 1 ==> s * t == t,
        s == -1 ==> s * t == -t,
{
    assert(s == 1 ==> s * t == t) by (nonlinear_arith);
    assert(s == -1 ==> s * t == -t) by (nonlinear_arith);
}

/// An axis-aligned or perfectly diagonal walk meets no midpoint tie: on
/// an axis one side of each comparison is zero, and on a diagonal the
/// two sides always differ in parity.
pub proof fn lemma_axis_or_diagonal_tie_free(a: int, b: int, i: int, j: int)
    requires
        0 <= i <= a,
        0 <= j <= b,
        a == 0 || b == 0 || a == b,
    ensures
        walk_tie_free(a, b, i, j),
    decreases a - i + b - j,
{
    if i == a && j == b {
    } else {
        assert(!tie_at(a, b, i, j)) by (nonlinear_arith)
            requires
                0 <= i <= a,
                0 <= j <= b,
                a == 0 || b == 0 || a == b,
                !(i == a && j == b),
        ;
        lemma_walk_progress(a, b, i, j);
        let n = walk_next(a, b, i, j);
        lemma_axis_or_diagonal_tie_free(a, b, n.0, n.1);
    }
}

/// A horizontal, vertical or perfectly diagonal line covers the same
/// point set drawn in either direction: its walk is always tie-free.
pub proof fn lemma_line_set_symmetric_axis_or_diagonal(x0: int, y0: int, x1: int, y1: int)
    requires
        x0 == x1 || y0 == y1 || abs(x1 - x0) == abs(y1 - y0),
    ensures
        line_set(x0, y0, x1, y1) == line_set(x1, y1, x0, y0),
{
    lemma_axis_or_diagonal_tie_free(abs(x1 - x0), abs(y1 - y0), 0, 0);
    lemma_line_set_symmetric(x0, y0, x1, y1);
}

/// Every grid point of the rectangle `[x, x+w) x [y, y+h)`.
pub open spec fn rect_filled_set(x: int, y: int, w: int, h: int) -> Set<(int, int)> {
    Set::new(|p: (int, int)| x <= p.0 < x + w && y <= p.1 < y + h)
}

/// The rectangle's boundary: its points on one of the four edges, corners
/// included.
pub open spec fn rect_boundary_set(x: int, y: int, w: int, h: int) -> Set<(int, int)> {
    Set::new(
        |p: (int, int)|
            x <= p.0 < x + w && y <= p.1 < y + h && (p.0 == x || p.0 == x + w - 1 || p.1 == y
                || p.1 == y + h - 1),
    )
}

/// What the outline variant draws: the four edge segments, each inclusive
/// of its corners.
pub open spec fn rect_outline_set(x: int, y: int, w: int, h: int) -> Set<(int, int)> {
    hseg_set(x, x + w - 1, y).union(hseg_set(x, x + w - 1, y + h - 1)).union(
        vseg_set(y, y + h - 1, x),
    ).union(vseg_set(y, y + h - 1, x + w - 1))
}

/// The outline's four segments cover exactly the rectangle's boundary —
/// corners included, no interior points — and every boundary point lies in
/// the filled rectangle.
pub proof fn lemma_rect_outline_is_boundary(x: int, y: int, w: int, h: int)
    requires
        w >= 1,
        h >= 1,
    ensures
        rect_outline_set(x, y, w, h) == rect_boundary_set(x, y, w, h),
        rect_boundary_set(x, y, w, h).subset_of(rect_filled_set(x, y, w, h)),
{
    assert(rect_outline_set(x, y, w, h) =~= rect_boundary_set(x, y, w, h));
}

/// The termination measure of the circle walk: how many states remain.
pub open spec fn gap(x: int, y: int) -> int {
    if x >= y {
        x - y + 1
    } else {
        0
    }
}

/// The states the midpoint-circle walk visits, starting from `(x, y)` with
/// error term `err`: `y` advances every step and `x` retreats when the
/// error term says so, until `x` falls below `y`.
pub open spec fn cwalk(x: int, y: int, err: int) -> Seq<(int, int)>
    decreases gap(x, y),
{
    if x < y {
        Seq::empty()
    } else {
        let y2 = y + 1;
        let e2 = err + 1 + 2 * y2;
        let xdec = 2 * (e2 - x) + 1 > 0;
        let x3 = if xdec {
            x - 1
        } else {
            x
        };
        let e3 = if xdec {
            e2 + 1 - 2 * x3
        } else {
            e2
        };
        seq![(x, y)] + cwalk(x3, y2, e3)
    }
}

/// The walk of a circle of radius `r`, from `(r, 0)` with error zero.  A
/// negative radius yields no states at all.
pub open spec fn circle_states(r: int) -> Seq<(int, int)> {
    cwalk(r, 0, 0)
}

/// Every state of a walk started at `y >= 0` keeps `x >= y >= 0`.
pub proof fn lemma_cwalk_states_bounds(x: int, y: int, err: int)
    requires
        0 <= y,
    ensures
        forall|k: int|
            0 <= k < cwalk(x, y, err).len() ==> (#[trigger] cwalk(x, y, err)[k]).1 >= 0 && cwalk(
                x,
                y,
                err,
            )[k].0 >= cwalk(x, y, err)[k].1,
    decreases gap(x, y),
{
    if x >= y {
        let y2 = y + 1;
        let e2 = err + 1 + 2 * y2;
        let xdec = 2 * (e2 - x) + 1 > 0;
        let x3 = if xdec {
            x - 1
        } else {
            x
        };
        let e3 = if xdec {
            e2 + 1 - 2 * x3
        } else {
            e2
        };
        lemma_cwalk_states_bounds(x3, y2, e3);
        assert(forall|k: int|
            1 <= k < cwalk(x, y, err).len() ==> cwalk(x, y, err)[k] == cwalk(x3, y2, e3)[k - 1]);
    }
}

/// The eight symmetric points one walk state contributes to a circle
/// outline around `(cx, cy)`.
pub open spec fn octet(cx: int, cy: int, x: int, y: int) -> Set<(int, int)> {
    set![
        (cx + x, cy + y),
        (cx + y, cy + x),
        (cx - y, cy + x),
        (cx - x, cy + y),
        (cx - x, cy - y),
        (cx - y, cy - x),
        (cx + y, cy - x),
        (cx + x, cy - y),
    ]
}

/// The four horizontal spans one walk state contributes to a filled disc
/// around `(cx, cy)`.
pub open spec fn spans4(cx: int, cy: int, x: int, y: int) -> Set<(int, int)> {
    hseg_set(cx - x, cx + x, cy + y).union(hseg_set(cx - y, cx + y, cy + x)).union(
        hseg_set(cx - x, cx + x, cy - y),
    ).union(hseg_set(cx - y, cx + y, cy - x))
}

/// The point set of a circle outline: the octets of every walk state.
pub open spec fn circle_outline_set(cx: int, cy: int, r: int) -> Set<(int, int)> {
    Set::new(
        |p: (int, int)|
            exists|k: int|
                0 <= k < circle_states(r).len() && octet(
                    cx,
                    cy,
                    (#[trigger] circle_states(r)[k]).0,
                    circle_states(r)[k].1,
                ).contains(p),
    )
}

/// The point set of a filled disc: the spans of every walk state.
pub open spec fn circle_filled_set(cx: int, cy: int, r: int) -> Set<(int, int)> {
    Set::new(
        |p: (int, int)|
            exists|k: int|
                0 <= k < circle_states(r).len() && spans4(
                    cx,
                    cy,
                    (#[trigger] circle_states(r)[k]).0,
                    circle_states(r)[k].1,
                ).contains(p),
    )
}

/// A state's eight outline points are endpoints of its four spans.
pub proof fn lemma_octet_within_spans(cx: int, cy: int, x: int, y: int)
    requires
        x >= y >= 0,
    ensures
        octet(cx, cy, x, y).subset_of(spans4(cx, cy, x, y)),
{
    assert(spans4(cx, cy, x, y).contains((cx + x, cy + y)));
    assert(spans4(cx, cy, x, y).contains((cx + y, cy + x)));
    assert(spans4(cx, cy, x, y).contains((cx - y, cy + x)));
    assert(spans4(cx, cy, x, y).contains((cx - x, cy + y)));
    assert(spans4(cx, cy, x, y).contains((cx - x, cy - y)));
    assert(spans4(cx, cy, x, y).contains((cx - y, cy - x)));
    assert(spans4(cx, cy, x, y).contains((cx + y, cy - x)));
    assert(spans4(cx, cy, x, y).contains((cx + x, cy - y)));
}

/// For one center and radius, every point of the circle outline lies
/// within the filled disc's point set.
pub proof fn lemma_circle_outline_within_filled(cx: int, cy: int, r: int)
    ensures
        circle_outline_set(cx, cy, r).subset_of(circle_filled_set(cx, cy, r)),
{
    lemma_cwalk_states_bounds(r, 0, 0);
    assert forall|p: (int, int)| circle_outline_set(cx, cy, r).contains(p) implies circle_filled_set(
        cx,
        cy,
        r,
    ).contains(p) by {
        let k = choose|k: int|
            0 <= k < circle_states(r).len() && octet(
                cx,
                cy,
                (#[trigger] circle_states(r)[k]).0,
                circle_states(r)[k].1,
            ).contains(p);
        let s = circle_states(r)[k];
        lemma_octet_within_spans(cx, cy, s.0, s.1);
        assert(spans4(cx, cy, s.0, s.1).contains(p));
    }
}

/// Whether the walk at `(i, j)` sits on a midpoint tie: one of its step
/// conditions holds with exact equality.
pub open spec fn tie_at(a: int, b: int, i: int, j: int) -> bool {
    2 * a * (j + 1) == b * (2 * i + 1) || a * (2 * j + 1) == 2 * b * (i + 1)
}

#[via_fn]
proof fn walk_tie_free_decreases(a: int, b: int, i: int, j: int) {
    if !(i == a && j == b) {
        lemma_walk_progress(a, b, i, j);
    }
}

/// Whether the walk from `(i, j)` to `(a, b)` meets no midpoint tie
/// before its final state.
pub open spec fn walk_tie_free(a: int, b: int, i: int, j: int) -> bool
    decreases a - i + b - j,
        when 0 <= i <= a && 0 <= j <= b
        via walk_tie_free_decreases
{
    if i == a && j == b {
        true
    } else {
        let n = walk_next(a, b, i, j);
        !tie_at(a, b, i, j) && walk_tie_free(a, b, n.0, n.1)
    }
}

/// The error term of the walk at `(i, j)`, twice the signed distance the
/// step conditions compare: x steps when `e >= -b`, y steps when `e <= a`.
pub open spec fn e_of(a: int, b: int, i: int, j: int) -> int {
    2 * a * (j + 1) - 2 * b * (i + 1)
}

/// The window the error term keeps to at every visited state, one bound
/// per kind of step.  It is exactly what makes each step reversible.
pub open spec fn inv_at(a: int, b: int, i: int, j: int) -> bool {
    let e = e_of(a, b, i, j);
    &&& (-b < e < a ==> a - 2 * b < e < 2 * a - b)
    &&& (e > a ==> e < 3 * a - 2 * b)
    &&& (e < -b ==> e > 2 * a - 3 * b)
}

/// The mirror of a progress pair: as far from `(a, b)` as the pair is
/// from the origin.
pub open spec fn mirror_pt(a: int, b: int, p: (int, int)) -> (int, int) {
    (a - p.0, b - p.1)
}

/// Bridges the step conditions and the tie predicate to the error term,
/// and gives the error term of each possible successor.
proof fn lemma_e_conditions(a: int, b: int, i: int, j: int)
    ensures
        step_x(a, b, i, j) == (e_of(a, b, i, j) >= -b),
        step_y(a, b, i, j) == (e_of(a, b, i, j) <= a),
        tie_at(a, b, i, j) == (e_of(a, b, i, j) == -b || e_of(a, b, i, j) == a),
        e_of(a, b, i + 1, j + 1) == e_of(a, b, i, j) + 2 * a - 2 * b,
        e_of(a, b, i + 1, j) == e_of(a, b, i, j) - 2 * b,
        e_of(a, b, i, j + 1) == e_of(a, b, i, j) + 2 * a,
{
    assert((2 * a * (j + 1) >= b * (2 * i + 1)) == (2 * a * (j + 1) - 2 * b * (i + 1) >= -b))
        by (nonlinear_arith);
    assert((a * (2 * j + 1) <= 2 * b * (i + 1)) == (2 * a * (j + 1) - 2 * b * (i + 1) <= a))
        by (nonlinear_arith);
    assert((2 * a * (j + 1) == b * (2 * i + 1)) == (2 * a * (j + 1) - 2 * b * (i + 1) == -b))
        by (nonlinear_arith);
    assert((a * (2 * j + 1) == 2 * b * (i + 1)) == (2 * a * (j + 1) - 2 * b * (i + 1) == a))
        by (nonlinear_arith);
    assert(2 * a * (j + 2) - 2 * b * (i + 2) == 2 * a * (j + 1) - 2 * b * (i + 1) + 2 * a - 2 * b)
        by (nonlinear_arith);
    assert(2 * a * (j + 1) - 2 * b * (i + 2) == 2 * a * (j + 1) - 2 * b * (i + 1) - 2 * b)
        by (nonlinear_arith);
    assert(2 * a * (j + 2) - 2 * b * (i + 1) == 2 * a * (j + 1) - 2 * b * (i + 1) + 2 * a)
        by (nonlinear_arith);
}

/// The error term of a mirrored pair.
proof fn lemma_e_mirror(a: int, b: int, i: int, j: int)
    ensures
        e_of(a, b, a - i, b - j) == -e_of(a, b, i, j) + 4 * a - 4 * b,
{
    assert(2 * a * ((b - j) + 1) - 2 * b * ((a - i) + 1) == -(2 * a * (j + 1) - 2 * b * (i + 1))
        + 4 * a - 4 * b) by (nonlinear_arith);
}

/// The error window holds at the walk's start.
proof fn lemma_inv_initial(a: int, b: int)
    requires
        0 <= a,
        0 <= b,
    ensures
        inv_at(a, b, 0, 0),
{
    lemma_e_conditions(a, b, 0, 0);
    assert(e_of(a, b, 0, 0) == 2 * a - 2 * b) by (nonlinear_arith);
}

/// One step of the walk keeps the error window.
proof fn lemma_inv_preserved(a: int, b: int, i: int, j: int)
    requires
        0 <= i <= a,
        0 <= j <= b,
        !(i == a && j == b),
        !tie_at(a, b, i, j),
        inv_at(a, b, i, j),
    ensures
        inv_at(a, b, walk_next(a, b, i, j).0, walk_next(a, b, i, j).1),
{
    lemma_walk_progress(a, b, i, j);
    lemma_e_conditions(a, b, i, j);
    let n = walk_next(a, b, i, j);
    lemma_e_conditions(a, b, n.0, n.1);
    let e = e_of(a, b, i, j);
    if step_x(a, b, i, j) && step_y(a, b, i, j) {
        assert(e_of(a, b, n.0, n.1) == e + 2 * a - 2 * b);
    } else if step_x(a, b, i, j) {
        assert(e_of(a, b, n.0, n.1) == e - 2 * b);
    } else {
        assert(e_of(a, b, n.0, n.1) == e + 2 * a);
    }
}

/// Under the error window, each tie-free step runs backwards: the mirror
/// of the successor steps to the mirror of the state.
proof fn lemma_step_reversal(a: int, b: int, i: int, j: int)
    requires
        0 <= i <= a,
        0 <= j <= b,
        !(i == a && j == b),
        !tie_at(a, b, i, j),
        inv_at(a, b, i, j),
    ensures
        ({
            let n = walk_next(a, b, i, j);
            walk_next(a, b, a - n.0, b - n.1) == (a - i, b - j)
        }),
{
    lemma_walk_progress(a, b, i, j);
    lemma_e_conditions(a, b, i, j);
    let e = e_of(a, b, i, j);
    let n = walk_next(a, b, i, j);
    lemma_e_mirror(a, b, n.0, n.1);
    lemma_e_conditions(a, b, n.0, n.1);
    lemma_e_conditions(a, b, a - n.0, b - n.1);
    let f = e_of(a, b, a - n.0, b - n.1);
    if step_x(a, b, i, j) && step_y(a, b, i, j) {
        assert(f == -e + 2 * a - 2 * b);
        assert(-b < f < a);
    } else if step_x(a, b, i, j) {
        assert(f == -e + 4 * a - 2 * b);
        assert(f >= -b && f > a);
    } else {
        assert(f == -e + 2 * a - 4 * b);
        assert(f <= a && f < -b);
    }
}

/// Structural facts of the walk, gathered per index: where it starts and
/// ends, how neighbours relate, that all states stay in the box and only
/// the last is final, and that tie-freeness and the error window carry to
/// every state.
proof fn lemma_walk_facts(a: int, b: int, i: int, j: int)
    requires
        0 <= i <= a,
        0 <= j <= b,
    ensures
        ({
            let w = walk(a, b, i, j);
            &&& w.len() >= 1
            &&& w[0] == (i, j)
            &&& w.last() == (a, b)
            &&& forall|k: int|
                0 <= k < w.len() ==> 0 <= (#[trigger] w[k]).0 <= a && 0 <= w[k].1 <= b
            &&& forall|k: int|
                0 <= k < w.len() - 1 ==> #[trigger] w[k + 1] == walk_next(
                    a,
                    b,
                    w[k].0,
                    w[k].1,
                )
            &&& forall|k: int| 0 <= k < w.len() - 1 ==> (#[trigger] w[k]) != (a, b)
            &&& walk_tie_free(a, b, i, j) ==> forall|k: int|
                0 <= k < w.len() - 1 ==> !tie_at(a, b, (#[trigger] w[k]).0, w[k].1)
            &&& (walk_tie_free(a, b, i, j) && inv_at(a, b, i, j)) ==> forall|k: int|
                0 <= k < w.len() ==> inv_at(a, b, (#[trigger] w[k]).0, w[k].1)
        }),
    decreases a - i + b - j,
{
    let w = walk(a, b, i, j);
    if i == a && j == b {
    } else {
        lemma_walk_progress(a, b, i, j);
        let n = walk_next(a, b, i, j);
        lemma_walk_facts(a, b, n.0, n.1);
        let rest = walk(a, b, n.0, n.1);
        assert(w == seq![(i, j)] + rest);
        assert(forall|k: int| 1 <= k < w.len() ==> w[k] == rest[k - 1]);
        assert(w.last() == rest.last());
        assert forall|k: int|
            0 <= k < w.len() - 1 implies #[trigger] w[k + 1] == walk_next(
            a,
            b,
            w[k].0,
            w[k].1,
        ) by {
            if k == 0 {
                assert(w[1] == rest[0]);
                assert(rest[0] == n);
            } else {
                assert(w[k + 1] == rest[k]);
                assert(rest[(k - 1) + 1] == walk_next(a, b, rest[k - 1].0, rest[k - 1].1));
                assert(w[k] == rest[k - 1]);
            }
        }
        assert forall|k: int|
            0 <= k < w.len() implies 0 <= (#[trigger] w[k]).0 <= a && 0 <= w[k].1 <= b by {
            if k >= 1 {
                assert(w[k] == rest[k - 1]);
            }
        }
        assert forall|k: int| 0 <= k < w.len() - 1 implies (#[trigger] w[k]) != (a, b) by {
            if k >= 1 {
                assert(w[k] == rest[k - 1]);
            }
        }
        if walk_tie_free(a, b, i, j) {
            assert(walk_tie_free(a, b, n.0, n.1));
            assert forall|k: int|
                0 <= k < w.len() - 1 implies !tie_at(a, b, (#[trigger] w[k]).0, w[k].1) by {
                if k >= 1 {
                    assert(w[k] == rest[k - 1]);
                }
            }
            if inv_at(a, b, i, j) {
                lemma_inv_preserved(a, b, i, j);
                assert forall|k: int|
                    0 <= k < w.len() implies inv_at(a, b, (#[trigger] w[k]).0, w[k].1) by {
                    if k >= 1 {
                        assert(w[k] == rest[k - 1]);
                    }
                }
            }
        }
    }
}

/// Every state of a tie-free walk mirrors to a state of the same walk:
/// position `k` from the start is the mirror of position `k` from the
/// end.
proof fn lemma_mirror_index(a: int, b: int, k: int)
    requires
        0 <= a,
        0 <= b,
        walk_tie_free(a, b, 0, 0),
        0 <= k < walk(a, b, 0, 0).len(),
    ensures
        walk(a, b, 0, 0)[k] == mirror_pt(a, b, walk(a, b, 0, 0)[walk(a, b, 0, 0).len() - 1 - k]),
    decreases k,
{
    let w = walk(a, b, 0, 0);
    let n = w.len();
    lemma_walk_facts(a, b, 0, 0);
    lemma_inv_initial(a, b);
    if k == 0 {
        assert(w[0] == (0int, 0int));
        assert(w[n - 1] == (a, b));
    } else {
        lemma_mirror_index(a, b, k - 1);
        let s = w[n - 1 - k];
        assert(w[(n - 1 - k) + 1] == walk_next(a, b, s.0, s.1));
        lemma_step_reversal(a, b, s.0, s.1);
        assert(w[(k - 1) + 1] == walk_next(a, b, w[k - 1].0, w[k - 1].1));
        assert(w[k] == walk_next(a, b, w[k - 1].0, w[k - 1].1));
        assert(w[k - 1] == mirror_pt(a, b, w[n - k]));
        assert(walk_next(a, b, a - w[n - k].0, b - w[n - k].1) == (a - s.0, b - s.1));
    }
}

/// A tie-free walk visits a progress pair exactly when it visits its
/// mirror.
pub proof fn lemma_walk_mirror_set(a: int, b: int)
    requires
        0 <= a,
        0 <= b,
        walk_tie_free(a, b, 0, 0),
    ensures
        forall|p: (int, int)|
            walk(a, b, 0, 0).to_set().contains(p) <==> walk(a, b, 0, 0).to_set().contains(
                #[trigger] mirror_pt(a, b, p),
            ),
{
    let w = walk(a, b, 0, 0);
    assert forall|p: (int, int)| w.to_set().contains(p) implies w.to_set().contains(
        mirror_pt(a, b, p),
    ) by {
        let k = choose|k: int| 0 <= k < w.len() && w[k] == p;
        lemma_mirror_index(a, b, k);
        assert(w[k] == mirror_pt(a, b, w[w.len() - 1 - k]));
        assert(mirror_pt(a, b, p) == w[w.len() - 1 - k]);
        assert(w.contains(w[w.len() - 1 - k]));
    }
    assert forall|p: (int, int)| w.to_set().contains(mirror_pt(a, b, p)) implies w.to_set().contains(
        p,
    ) by {
        let q = mirror_pt(a, b, p);
        let k = choose|k: int| 0 <= k < w.len() && w[k] == q;
        lemma_mirror_index(a, b, k);
        assert(mirror_pt(a, b, q) == w[w.len() - 1 - k]);
        assert(mirror_pt(a, b, q) == p);
        assert(w.contains(w[w.len() - 1 - k]));
    }
}

/// Whether drawing this line meets no midpoint tie.  On a tie this walk
/// rounds toward one side, and the opposite direction rounds toward the
/// other, so only tie-free lines cover the same points both ways.
pub open spec fn line_tie_free(x0: int, y0: int, x1: int, y1: int) -> bool {
    walk_tie_free(abs(x1 - x0), abs(y1 - y0), 0, 0)
}

/// Line symmetry: a line whose walk meets no midpoint tie covers exactly
/// the same point set drawn in either direction.
pub proof fn lemma_line_set_symmetric(x0: int, y0: int, x1: int, y1: int)
    requires
        line_tie_free(x0, y0, x1, y1),
    ensures
        line_set(x0, y0, x1, y1) == line_set(x1, y1, x0, y0),
{
    let a = abs(x1 - x0);
    let b = abs(y1 - y0);
    let sx = sign_step(x0, x1);
    let sy = sign_step(y0, y1);
    let rx = sign_step(x1, x0);
    let ry = sign_step(y1, y0);
    let fwd = line_pts(x0, y0, x1, y1);
    let rev = line_pts(x1, y1, x0, y0);
    let w = walk(a, b, 0, 0);
    lemma_walk_facts(a, b, 0, 0);
    lemma_walk_mirror_set(a, b);
    assert(abs(x0 - x1) == a);
    assert(abs(y0 - y1) == b);
    assert(forall|k: int| 0 <= k < w.len() ==> fwd[k] == (x0 + sx * (#[trigger] w[k]).0, y0 + sy * w[k].1));
    assert(forall|k: int| 0 <= k < w.len() ==> rev[k] == (x1 + rx * (#[trigger] w[k]).0, y1 + ry * w[k].1));
    assert forall|p: (int, int)| fwd.to_set().contains(p) implies rev.to_set().contains(p) by {
        let k = choose|k: int| 0 <= k < fwd.len() && fwd[k] == p;
        let s = w[k];
        let m = mirror_pt(a, b, s);
        assert(w.to_set().contains(s));
        assert(w.to_set().contains(m));
        let km = choose|km: int| 0 <= km < w.len() && w[km] == m;
        lemma_endpoint_mirror(x0, y0, x1, y1, s.0, s.1);
        assert(rev[km] == p);
        assert(rev.contains(p));
    }
    assert forall|p: (int, int)| rev.to_set().contains(p) implies fwd.to_set().contains(p) by {
        let k = choose|k: int| 0 <= k < rev.len() && rev[k] == p;
        let s = w[k];
        let m = mirror_pt(a, b, s);
        assert(w.to_set().contains(s));
        assert(w.to_set().contains(m));
        let km = choose|km: int| 0 <= km < w.len() && w[km] == m;
        lemma_endpoint_mirror(x1, y1, x0, y0, s.0, s.1);
        assert(fwd[km] == p);
        assert(fwd.contains(p));
    }
    assert(fwd.to_set() =~= rev.to_set());
}

/// The point a progress pair names from one end is the point its mirror
/// names from the other end.
proof fn lemma_endpoint_mirror(x0: int, y0: int, x1: int, y1: int, i: int, j: int)
    requires
        0 <= i <= abs(x1 - x0),
        0 <= j <= abs(y1 - y0),
    ensures
        x0 + sign_step(x0, x1) * i == x1 + sign_step(x1, x0) * (abs(x1 - x0) - i),
        y0 + sign_step(y0, y1) * j == y1 + sign_step(y1, y0) * (abs(y1 - y0) - j),
{
    lemma_mul_sign(sign_step(x0, x1), i);
    lemma_mul_sign(sign_step(x1, x0), abs(x1 - x0) - i);
    lemma_mul_sign(sign_step(y0, y1), j);
    lemma_mul_sign(sign_step(y1, y0), abs(y1 - y0) - j);
}

} // verus!

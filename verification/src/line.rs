//! The integer line walk shared by the stroke drawers: Bresenham's
//! all-octant algorithm with one error term.
//!
//! With `DX = |x1 - x0|` and `DY = |y1 - y0|`, the state after `i` steps along
//! x and `j` steps along y is the point `(x0 ± i, y0 ± j)` with error term
//! `DX * (1 + j) - DY * (1 + i)`. From each state the walk steps along x when
//! twice the error is at least `-DY`, along y when it is at most `DX`, and stops
//! at the end point.

use vstd::prelude::*;

verus! {

/// A coordinate span along each axis up to which every line fits the walk's
/// `i32` arithmetic (see `lemma_small_span_fits`).
pub const MAX_SPAN: i32 = 0x1FFF_FFFF;

pub open spec fn abs(v: int) -> int {
    if v < 0 {
        -v
    } else {
        v
    }
}

/// The coordinate `i` unit steps from `a` in the direction of `b`.
pub open spec fn toward(a: int, b: int, i: int) -> int {
    if a < b {
        a + i
    } else {
        a - i
    }
}

/// The error term after `i` steps along x and `j` steps along y.
pub open spec fn step_error(dx: int, dy: int, i: int, j: int) -> int {
    dx * (1 + j) - dy * (1 + i)
}

/// From state `(i, j)` the walk steps along x.
pub open spec fn steps_x(dx: int, dy: int, i: int, j: int) -> bool {
    2 * step_error(dx, dy, i, j) >= -dy
}

/// From state `(i, j)` the walk steps along y.
pub open spec fn steps_y(dx: int, dy: int, i: int, j: int) -> bool {
    2 * step_error(dx, dy, i, j) <= dx
}

/// From a state that is not the end, the walk takes at least one step and never
/// passes the end point along either axis.
pub proof fn lemma_step_progress(dx: int, dy: int, i: int, j: int)
    requires
        0 <= i <= dx,
        0 <= j <= dy,
        !(i == dx && j == dy),
    ensures
        steps_x(dx, dy, i, j) ==> i < dx,
        steps_y(dx, dy, i, j) ==> j < dy,
        steps_x(dx, dy, i, j) || steps_y(dx, dy, i, j),
{
    if i == dx {
        assert(dx * (1 + j) <= dx * dy) by (nonlinear_arith)
            requires
                0 <= dx,
                1 + j <= dy,
        ;
        assert(dy * (1 + i) == dy + dy * dx) by (nonlinear_arith)
            requires
                i == dx,
        ;
        assert(dx * dy == dy * dx) by (nonlinear_arith);
    }
    if j == dy {
        assert(dy * (1 + i) <= dy * dx) by (nonlinear_arith)
            requires
                0 <= dy,
                1 + i <= dx,
        ;
        assert(dx * (1 + j) == dx + dx * dy) by (nonlinear_arith)
            requires
                j == dy,
        ;
        assert(dx * dy == dy * dx) by (nonlinear_arith);
    }
}

/// One step along x lowers the error by `dy`; one step along y raises it by `dx`.
pub proof fn lemma_step_error_update(dx: int, dy: int, i: int, j: int)
    ensures
        step_error(dx, dy, i + 1, j) == step_error(dx, dy, i, j) - dy,
        step_error(dx, dy, i, j + 1) == step_error(dx, dy, i, j) + dx,
        step_error(dx, dy, 0, 0) == dx - dy,
{
    assert(dy * (1 + (i + 1)) == dy * (1 + i) + dy) by (nonlinear_arith);
    assert(dx * (1 + (j + 1)) == dx * (1 + j) + dx) by (nonlinear_arith);
    assert(dx * (1 + 0) == dx) by (nonlinear_arith);
    assert(dy * (1 + 0) == dy) by (nonlinear_arith);
}

/// The state after the step taken from `(i, j)`.
pub open spec fn next_i(dx: int, dy: int, i: int, j: int) -> int {
    if steps_x(dx, dy, i, j) {
        i + 1
    } else {
        i
    }
}

pub open spec fn next_j(dx: int, dy: int, i: int, j: int) -> int {
    if steps_y(dx, dy, i, j) {
        j + 1
    } else {
        j
    }
}

/// The points the walk from `(x0, y0)` to `(x1, y1)` visits from state `(i, j)` on.
pub open spec fn line_tail(x0: int, y0: int, x1: int, y1: int, i: int, j: int) -> Seq<(int, int)>
    decreases (abs(x1 - x0) - i) + (abs(y1 - y0) - j),
    when 0 <= i <= abs(x1 - x0) && 0 <= j <= abs(y1 - y0)
{
    let dx = abs(x1 - x0);
    let dy = abs(y1 - y0);
    let p = (toward(x0, x1, i), toward(y0, y1, j));
    if i == dx && j == dy {
        seq![p]
    } else {
        proof {
            lemma_step_progress(dx, dy, i, j);
        }
        seq![p] + line_tail(x0, y0, x1, y1, next_i(dx, dy, i, j), next_j(dx, dy, i, j))
    }
}

/// The points of the line from `start` to `end`, in the order they are drawn.
pub open spec fn line_points(start: (int, int), end: (int, int)) -> Seq<(int, int)> {
    line_tail(start.0, start.1, end.0, end.1, 0, 0)
}

pub open spec fn fits_i32(v: int) -> bool {
    i32::MIN <= v <= i32::MAX
}

/// The step from state `(i, j)` stays inside `i32`: doubling the error, then
/// lowering it by `dy` for a step along x, then raising it by `dx` for a step
/// along y.
pub open spec fn step_fits(dx: int, dy: int, i: int, j: int) -> bool {
    let e = step_error(dx, dy, i, j);
    let e1 = if steps_x(dx, dy, i, j) {
        e - dy
    } else {
        e
    };
    &&& fits_i32(2 * e)
    &&& fits_i32(e1)
    &&& (steps_y(dx, dy, i, j) ==> fits_i32(e1 + dx))
}

/// Every step the walk takes from state `(i, j)` on stays inside `i32`.
pub open spec fn walk_fits_from(x0: int, y0: int, x1: int, y1: int, i: int, j: int) -> bool
    decreases (abs(x1 - x0) - i) + (abs(y1 - y0) - j),
    when 0 <= i <= abs(x1 - x0) && 0 <= j <= abs(y1 - y0)
{
    let dx = abs(x1 - x0);
    let dy = abs(y1 - y0);
    if i == dx && j == dy {
        true
    } else {
        proof {
            lemma_step_progress(dx, dy, i, j);
        }
        step_fits(dx, dy, i, j) && walk_fits_from(
            x0,
            y0,
            x1,
            y1,
            next_i(dx, dy, i, j),
            next_j(dx, dy, i, j),
        )
    }
}

/// The walk from `start` to `end` runs in `i32` arithmetic without overflow:
/// the spans along both axes and their magnitudes are `i32` values, and so is
/// every intermediate error term.
pub open spec fn line_fits(start: (i32, i32), end: (i32, i32)) -> bool {
    &&& abs(end.0 - start.0) <= i32::MAX
    &&& abs(end.1 - start.1) <= i32::MAX
    &&& walk_fits_from(start.0 as int, start.1 as int, end.0 as int, end.1 as int, 0, 0)
}

/// An `i32` point as a pair of integers.
pub open spec fn pt(p: (i32, i32)) -> (int, int) {
    (p.0 as int, p.1 as int)
}

/// `p` and `q` are distinct 8-neighbours.
pub open spec fn neighbours(p: (int, int), q: (int, int)) -> bool {
    -1 <= q.0 - p.0 <= 1 && -1 <= q.1 - p.1 <= 1 && p != q
}

/// `p` lies in the axis-aligned box spanned by `a` and `b`.
pub open spec fn in_box(p: (int, int), a: (int, int), b: (int, int)) -> bool {
    &&& (a.0 <= p.0 <= b.0 || b.0 <= p.0 <= a.0)
    &&& (a.1 <= p.1 <= b.1 || b.1 <= p.1 <= a.1)
}

proof fn lemma_tail_shape(x0: int, y0: int, x1: int, y1: int, i: int, j: int)
    requires
        0 <= i <= abs(x1 - x0),
        0 <= j <= abs(y1 - y0),
    ensures
        line_tail(x0, y0, x1, y1, i, j).len() >= 1,
        line_tail(x0, y0, x1, y1, i, j)[0] == (toward(x0, x1, i), toward(y0, y1, j)),
        line_tail(x0, y0, x1, y1, i, j).last() == (x1, y1),
        forall|m: int|
            0 <= m < line_tail(x0, y0, x1, y1, i, j).len() ==> in_box(
                #[trigger] line_tail(x0, y0, x1, y1, i, j)[m],
                (x0, y0),
                (x1, y1),
            ),
        forall|m: int|
            0 <= m < line_tail(x0, y0, x1, y1, i, j).len() - 1 ==> neighbours(
                #[trigger] line_tail(x0, y0, x1, y1, i, j)[m],
                line_tail(x0, y0, x1, y1, i, j)[m + 1],
            ),
    decreases (abs(x1 - x0) - i) + (abs(y1 - y0) - j),
{
    let dx = abs(x1 - x0);
    let dy = abs(y1 - y0);
    let s = line_tail(x0, y0, x1, y1, i, j);
    let p = (toward(x0, x1, i), toward(y0, y1, j));
    if i == dx && j == dy {
        assert(s == seq![p]);
    } else {
        lemma_step_progress(dx, dy, i, j);
        let ni = next_i(dx, dy, i, j);
        let nj = next_j(dx, dy, i, j);
        let t = line_tail(x0, y0, x1, y1, ni, nj);
        lemma_tail_shape(x0, y0, x1, y1, ni, nj);
        assert(s == seq![p] + t);
        assert forall|m: int| 0 <= m < s.len() implies in_box(#[trigger] s[m], (x0, y0), (x1, y1)) by {
            if m > 0 {
                assert(s[m] == t[m - 1]);
            }
        }
        assert forall|m: int| 0 <= m < s.len() - 1 implies neighbours(#[trigger] s[m], s[m + 1]) by {
            if m > 0 {
                assert(s[m] == t[m - 1]);
                assert(s[m + 1] == t[m]);
            } else {
                assert(s[1] == t[0]);
            }
        }
    }
}

/// The line starts at `start`, ends at `end`, and is not empty.
pub proof fn lemma_line_endpoints(start: (int, int), end: (int, int))
    ensures
        line_points(start, end).len() >= 1,
        line_points(start, end)[0] == start,
        line_points(start, end).last() == end,
{
    lemma_tail_shape(start.0, start.1, end.0, end.1, 0, 0);
}

/// Every point of the line lies in the box spanned by its end points.
pub proof fn lemma_line_in_box(start: (int, int), end: (int, int))
    ensures
        forall|m: int|
            0 <= m < line_points(start, end).len() ==> in_box(
                #[trigger] line_points(start, end)[m],
                start,
                end,
            ),
{
    lemma_tail_shape(start.0, start.1, end.0, end.1, 0, 0);
}

/// Consecutive points of the line are distinct 8-neighbours: the stroke has no
/// gaps and never revisits the point it just left.
pub proof fn lemma_line_connected(start: (int, int), end: (int, int))
    ensures
        forall|m: int|
            0 <= m < line_points(start, end).len() - 1 ==> neighbours(
                #[trigger] line_points(start, end)[m],
                line_points(start, end)[m + 1],
            ),
{
    lemma_tail_shape(start.0, start.1, end.0, end.1, 0, 0);
}

/// A line from a point to itself is that single point.
pub proof fn lemma_line_degenerate(p: (int, int))
    ensures
        line_points(p, p) == seq![p],
{
    assert(line_points(p, p) == seq![(toward(p.0, p.0, 0), toward(p.1, p.1, 0))]);
}

proof fn lemma_tail_len_x_major(x0: int, y0: int, x1: int, y1: int, i: int, j: int)
    requires
        0 <= i <= abs(x1 - x0),
        0 <= j <= abs(y1 - y0),
        abs(x1 - x0) >= abs(y1 - y0),
        2 * step_error(abs(x1 - x0), abs(y1 - y0), i, j) >= -abs(y1 - y0),
    ensures
        line_tail(x0, y0, x1, y1, i, j).len() == abs(x1 - x0) - i + 1,
    decreases abs(x1 - x0) - i,
{
    let dx = abs(x1 - x0);
    let dy = abs(y1 - y0);
    if !(i == dx && j == dy) {
        lemma_step_progress(dx, dy, i, j);
        lemma_step_error_update(dx, dy, i, j);
        lemma_step_error_update(dx, dy, i + 1, j);
        lemma_tail_len_x_major(x0, y0, x1, y1, next_i(dx, dy, i, j), next_j(dx, dy, i, j));
    }
}

proof fn lemma_tail_len_y_major(x0: int, y0: int, x1: int, y1: int, i: int, j: int)
    requires
        0 <= i <= abs(x1 - x0),
        0 <= j <= abs(y1 - y0),
        abs(y1 - y0) >= abs(x1 - x0),
        2 * step_error(abs(x1 - x0), abs(y1 - y0), i, j) <= abs(x1 - x0),
    ensures
        line_tail(x0, y0, x1, y1, i, j).len() == abs(y1 - y0) - j + 1,
    decreases abs(y1 - y0) - j,
{
    let dx = abs(x1 - x0);
    let dy = abs(y1 - y0);
    if !(i == dx && j == dy) {
        lemma_step_progress(dx, dy, i, j);
        lemma_step_error_update(dx, dy, i, j);
        lemma_step_error_update(dx, dy, i + 1, j);
        lemma_tail_len_y_major(x0, y0, x1, y1, next_i(dx, dy, i, j), next_j(dx, dy, i, j));
    }
}

/// The line has one point per unit of its longer side, plus one: the walk
/// advances along the longer axis at every step.
pub proof fn lemma_line_length(start: (int, int), end: (int, int))
    ensures
        line_points(start, end).len() == if abs(end.0 - start.0) >= abs(end.1 - start.1) {
            abs(end.0 - start.0) + 1
        } else {
            abs(end.1 - start.1) + 1
        },
{
    let dx = abs(end.0 - start.0);
    let dy = abs(end.1 - start.1);
    lemma_step_error_update(dx, dy, 0, 0);
    if dx >= dy {
        lemma_tail_len_x_major(start.0, start.1, end.0, end.1, 0, 0);
    } else {
        lemma_tail_len_y_major(start.0, start.1, end.0, end.1, 0, 0);
    }
}

proof fn lemma_small_span_walk(x0: int, y0: int, x1: int, y1: int, i: int, j: int)
    requires
        0 <= i <= abs(x1 - x0),
        0 <= j <= abs(y1 - y0),
        abs(x1 - x0) <= MAX_SPAN,
        abs(y1 - y0) <= MAX_SPAN,
        -2 * abs(y1 - y0) <= step_error(abs(x1 - x0), abs(y1 - y0), i, j) <= 2 * abs(x1 - x0),
    ensures
        walk_fits_from(x0, y0, x1, y1, i, j),
    decreases (abs(x1 - x0) - i) + (abs(y1 - y0) - j),
{
    let dx = abs(x1 - x0);
    let dy = abs(y1 - y0);
    if !(i == dx && j == dy) {
        lemma_step_progress(dx, dy, i, j);
        lemma_step_error_update(dx, dy, i, j);
        lemma_step_error_update(dx, dy, i + 1, j);
        lemma_small_span_walk(x0, y0, x1, y1, next_i(dx, dy, i, j), next_j(dx, dy, i, j));
    }
}

/// Lines spanning at most `MAX_SPAN` along each axis fit the walk's `i32`
/// arithmetic: the error term stays within `[-2 * DY, 2 * DX]`.
pub proof fn lemma_small_span_fits(start: (i32, i32), end: (i32, i32))
    requires
        abs(end.0 - start.0) <= MAX_SPAN,
        abs(end.1 - start.1) <= MAX_SPAN,
    ensures
        line_fits(start, end),
{
    let dx = abs(end.0 - start.0);
    let dy = abs(end.1 - start.1);
    lemma_step_error_update(dx, dy, 0, 0);
    lemma_small_span_walk(start.0 as int, start.1 as int, end.0 as int, end.1 as int, 0, 0);
}

/// Whether the walk from `start` to `end` runs without `i32` overflow,
/// decided by running the walk in `i64`.
pub fn line_fits_check(start: (i32, i32), end: (i32, i32)) -> (r: bool)
    ensures
        r == line_fits(start, end),
{
    let x0 = start.0 as i64;
    let y0 = start.1 as i64;
    let x1 = end.0 as i64;
    let y1 = end.1 as i64;
    let dx: i64 = if x1 >= x0 { x1 - x0 } else { x0 - x1 };
    let dy: i64 = if y1 >= y0 { y1 - y0 } else { y0 - y1 };
    let imax = i32::MAX as i64;
    let imin = i32::MIN as i64;
    if dx > imax || dy > imax {
        return false;
    }
    let ghost gdx: int = dx as int;
    let ghost gdy: int = dy as int;
    let ghost sx = start.0 as int;
    let ghost sy = start.1 as int;
    let ghost ex = end.0 as int;
    let ghost ey = end.1 as int;
    let mut i: i64 = 0;
    let mut j: i64 = 0;
    let mut err: i64 = dx - dy;
    proof {
        lemma_step_error_update(gdx, gdy, 0, 0);
    }
    while !(i == dx && j == dy)
        invariant
            sx == start.0 as int,
            sy == start.1 as int,
            ex == end.0 as int,
            ey == end.1 as int,
            gdx == abs(ex - sx),
            gdy == abs(ey - sy),
            dx == gdx,
            dy == gdy,
            dx <= imax,
            dy <= imax,
            imax == i32::MAX,
            imin == i32::MIN,
            0 <= i <= dx,
            0 <= j <= dy,
            err == step_error(gdx, gdy, i as int, j as int),
            -2 * dy <= err <= 2 * dx,
            walk_fits_from(sx, sy, ex, ey, 0, 0) == walk_fits_from(sx, sy, ex, ey, i as int, j as int),
        decreases (dx - i) + (dy - j),
    {
        proof {
            lemma_step_progress(gdx, gdy, i as int, j as int);
            lemma_step_error_update(gdx, gdy, i as int, j as int);
            lemma_step_error_update(gdx, gdy, i + 1, j as int);
        }
        let e2 = 2 * err;
        let step_x = e2 >= -dy;
        let step_y = e2 <= dx;
        let e1 = if step_x { err - dy } else { err };
        let fits = imin <= e2 && e2 <= imax && imin <= e1 && e1 <= imax && (!step_y || (imin <= e1
            + dx && e1 + dx <= imax));
        if !fits {
            proof {
                assert(!step_fits(gdx, gdy, i as int, j as int));
            }
            return false;
        }
        err = if step_y { e1 + dx } else { e1 };
        if step_x {
            i += 1;
        }
        if step_y {
            j += 1;
        }
    }
    true
}

} // verus!

//! Free-hand drawing with the mouse: a square brush, brush strokes along
//! lines, and the per-frame decisions of the drawing window.

use vstd::prelude::*;
use crate::canvas::{
    fill, fits_buffer, in_canvas, lemma_covered_single, lemma_fits_buffer_point,
    lemma_full_canvas_fits, lemma_painted_concat, lemma_plotted_at, near, painted, pixel_index,
    pixel_x, pixel_y, plot, BG_COLOR, CANVAS_LEN, DRAW_COLOR,
};
use crate::line::{
    abs, in_box, lemma_line_in_box, lemma_step_error_update,
    lemma_step_progress, line_fits, line_points, line_tail, next_i, next_j, pt, step_error, toward,
    walk_fits_from,
};

verus! {

/// Half-width of the square brush: a dab covers a 5 x 5 square.
pub const BRUSH_RADIUS: i32 = 2;

/// A dab at `p` has all its coordinates inside `i32`.
pub open spec fn brush_fits(p: (i32, i32)) -> bool {
    i32::MIN + BRUSH_RADIUS <= p.0 <= i32::MAX - BRUSH_RADIUS && i32::MIN + BRUSH_RADIUS <= p.1
        <= i32::MAX - BRUSH_RADIUS
}

/// Whether a dab at `p` has all its coordinates inside `i32`.
pub fn brush_fits_check(p: (i32, i32)) -> (r: bool)
    ensures
        r == brush_fits(p),
{
    let lo = i32::MIN + BRUSH_RADIUS;
    let hi = i32::MAX - BRUSH_RADIUS;
    lo <= p.0 && p.0 <= hi && lo <= p.1 && p.1 <= hi
}

/// Paints the square of half-width `BRUSH_RADIUS` centred on `point`, row by
/// row; its pixels off the canvas are dropped.
pub fn draw_brush(buffer: &mut [u32], point: (i32, i32), color: u32)
    requires
        brush_fits(point),
        fits_buffer(old(buffer)@.len() as int, seq![pt(point)], BRUSH_RADIUS as int),
    ensures
        final(buffer)@ == painted(old(buffer)@, seq![pt(point)], BRUSH_RADIUS as int, color),
{
    let radius = BRUSH_RADIUS;
    let ghost c = pt(point);
    let ghost old_buf = buffer@;
    let ghost len = old_buf.len();
    let mut y: i32 = -radius;
    while y <= radius
        invariant
            radius == BRUSH_RADIUS,
            c == pt(point),
            brush_fits(point),
            -radius <= y <= radius + 1,
            len == old_buf.len(),
            buffer@.len() == len,
            fits_buffer(len as int, seq![c], BRUSH_RADIUS as int),
            forall|k: int|
                #![trigger buffer@[k]]
                0 <= k < len ==> buffer@[k] == if (k < CANVAS_LEN as int && near(k, c, 2)
                    && pixel_y(k) - c.1 < y) {
                    color
                } else {
                    old_buf[k]
                },
        decreases radius + 1 - y,
    {
        let mut x: i32 = -radius;
        while x <= radius
            invariant
                radius == BRUSH_RADIUS,
                c == pt(point),
                brush_fits(point),
                -radius <= y <= radius,
                -radius <= x <= radius + 1,
                len == old_buf.len(),
                buffer@.len() == len,
                fits_buffer(len as int, seq![c], BRUSH_RADIUS as int),
                forall|k: int|
                    #![trigger buffer@[k]]
                    0 <= k < len ==> buffer@[k] == if (k < CANVAS_LEN as int && near(k, c, 2) && (
                    pixel_y(k) - c.1 < y || (pixel_y(k) - c.1 == y && pixel_x(k) - c.0 < x))) {
                        color
                    } else {
                        old_buf[k]
                    },
            decreases radius + 1 - x,
        {
            let ghost px = c.0 + x;
            let ghost py = c.1 + y;
            proof {
                assert(seq![c][0] == c);
                if in_canvas(px, py) {
                    assert(pixel_index(px, py) < len);
                }
            }
            let ghost before = buffer@;
            plot(buffer, point.0 + x, point.1 + y, color);
            proof {
                assert forall|k: int| #![trigger buffer@[k]] 0 <= k < len implies buffer@[k] == if (k
                    < CANVAS_LEN as int && near(k, c, 2) && (pixel_y(k) - c.1 < y || (pixel_y(k)
                    - c.1 == y && pixel_x(k) - c.0 < x + 1))) {
                    color
                } else {
                    old_buf[k]
                } by {
                    lemma_plotted_at(before, px, py, color, k);
                }
            }
            x += 1;
        }
        y += 1;
    }
    proof {
        let target = painted(old_buf, seq![c], BRUSH_RADIUS as int, color);
        assert forall|k: int| 0 <= k < len implies buffer@[k] == target[k] by {
            lemma_covered_single(c, k, BRUSH_RADIUS as int);
        }
        assert(buffer@ =~= target);
    }
}

/// Paints a brush dab at every point of `line_points(start, end)`: a stroke
/// five pixels wide.
pub fn draw_line(buffer: &mut [u32], start: (i32, i32), end: (i32, i32), color: u32)
    requires
        line_fits(start, end),
        brush_fits(start),
        brush_fits(end),
        fits_buffer(
            old(buffer)@.len() as int,
            line_points(pt(start), pt(end)),
            BRUSH_RADIUS as int,
        ),
    ensures
        final(buffer)@ == painted(
            old(buffer)@,
            line_points(pt(start), pt(end)),
            BRUSH_RADIUS as int,
            color,
        ),
{
    let mut x0 = start.0;
    let mut y0 = start.1;
    let x1 = end.0;
    let y1 = end.1;

    let dx = if x1 >= x0 { x1 - x0 } else { x0 - x1 };
    let sx: i32 = if x0 < x1 { 1 } else { -1 };
    let dy = if y1 >= y0 { y0 - y1 } else { y1 - y0 };
    let sy: i32 = if y0 < y1 { 1 } else { -1 };
    let mut err = dx + dy;

    let ghost sp = pt(start);
    let ghost ep = pt(end);
    let ghost pts = line_points(sp, ep);
    let ghost big_dx: int = dx as int;
    let ghost big_dy: int = -dy;
    let ghost old_buf = buffer@;
    let ghost r = BRUSH_RADIUS as int;
    let ghost mut i: int = 0;
    let ghost mut j: int = 0;
    let ghost mut done: Seq<(int, int)> = Seq::empty();
    proof {
        lemma_step_error_update(big_dx, big_dy, 0, 0);
        lemma_line_in_box(sp, ep);
        assert(done + line_tail(sp.0, sp.1, ep.0, ep.1, 0, 0) =~= pts);
    }

    loop
        invariant_except_break
            pts == done + line_tail(sp.0, sp.1, ep.0, ep.1, i, j),
        invariant
            big_dx == abs(ep.0 - sp.0),
            big_dy == abs(ep.1 - sp.1),
            big_dx <= i32::MAX,
            big_dy <= i32::MAX,
            walk_fits_from(sp.0, sp.1, ep.0, ep.1, i, j),
            dx == big_dx,
            dy == -big_dy,
            sx == (if sp.0 < ep.0 { 1int } else { -1int }),
            sy == (if sp.1 < ep.1 { 1int } else { -1int }),
            x1 == ep.0,
            y1 == ep.1,
            sp == pt(start),
            ep == pt(end),
            brush_fits(start),
            brush_fits(end),
            r == BRUSH_RADIUS,
            pts == line_points(sp, ep),
            forall|m: int| 0 <= m < pts.len() ==> in_box(#[trigger] pts[m], sp, ep),
            0 <= i <= big_dx,
            0 <= j <= big_dy,
            x0 == toward(sp.0, ep.0, i),
            y0 == toward(sp.1, ep.1, j),
            err == step_error(big_dx, big_dy, i, j),
            buffer@.len() == old_buf.len(),
            fits_buffer(old_buf.len() as int, pts, r),
            buffer@ == painted(old_buf, done, r, color),
        ensures
            buffer@ == painted(old_buf, pts, r, color),
        decreases (big_dx - i) + (big_dy - j),
    {
        let ghost p = (x0 as int, y0 as int);
        let ghost before = buffer@;
        proof {
            let m = done.len() as int;
            assert(pts[m] == p);
            assert(in_box(pts[m], sp, ep));
            lemma_fits_buffer_point(old_buf.len() as int, pts, r, m);
        }
        draw_brush(buffer, (x0, y0), color);
        proof {
            let d0 = done;
            lemma_painted_concat(old_buf, d0, seq![p], r, color);
            done = d0.push(p);
            assert(d0 + seq![p] =~= done);
        }
        if x0 == x1 && y0 == y1 {
            proof {
                assert(i == big_dx && j == big_dy);
                assert(pts =~= done);
            }
            break;
        }
        proof {
            lemma_step_progress(big_dx, big_dy, i, j);
            lemma_step_error_update(big_dx, big_dy, i, j);
            lemma_step_error_update(big_dx, big_dy, i + 1, j);
            let t = line_tail(
                sp.0,
                sp.1,
                ep.0,
                ep.1,
                next_i(big_dx, big_dy, i, j),
                next_j(big_dx, big_dy, i, j),
            );
            assert(line_tail(sp.0, sp.1, ep.0, ep.1, i, j) == seq![p] + t);
            assert(pts =~= done + t);
        }
        let e2 = 2 * err;
        if e2 >= dy {
            err += dy;
            x0 += sx;
            proof {
                i = i + 1;
            }
        }
        if e2 <= dx {
            err += dx;
            y0 += sy;
            proof {
                j = j + 1;
            }
        }
    }
}

/// The drawing window's state between frames.
pub struct Sketch {
    /// Where the mouse was drawn at in the previous frame, while the button is held.
    pub last_point: Option<(i32, i32)>,
    /// Whether the left button was down in the previous frame.
    pub was_down: bool,
}

impl Sketch {
    /// The remembered point can carry a brush dab.
    pub open spec fn wf(&self) -> bool {
        self.last_point matches Some(q) ==> brush_fits(q)
    }

    /// The remembered point once the clear key of this frame has been handled.
    pub open spec fn last_after_clear(&self, clear_pressed: bool) -> Option<(i32, i32)> {
        if clear_pressed {
            None
        } else {
            self.last_point
        }
    }

    /// The point a stroke of this frame starts from, if the frame draws a stroke.
    pub open spec fn stroke_start(&self, clear_pressed: bool) -> Option<(i32, i32)> {
        if self.was_down {
            self.last_after_clear(clear_pressed)
        } else {
            None
        }
    }

    /// The inputs of a frame keep every dab and stroke inside `i32` arithmetic.
    pub open spec fn frame_ok(&self, clear_pressed: bool, is_down: bool, mouse: Option<(i32, i32)>) -> bool {
        is_down ==> (mouse matches Some(p) ==> {
            &&& brush_fits(p)
            &&& (self.stroke_start(clear_pressed) matches Some(q) ==> line_fits(q, p))
        })
    }

    /// The canvas after a frame: cleared to the background if the clear key was
    /// pressed, then, while the button is down and the mouse is over the window,
    /// a stroke from the previous point, or a single dab when the button has just
    /// gone down or there is no previous point.
    pub open spec fn frame_canvas(
        &self,
        buf: Seq<u32>,
        clear_pressed: bool,
        is_down: bool,
        mouse: Option<(i32, i32)>,
    ) -> Seq<u32> {
        let base = if clear_pressed {
            Seq::new(buf.len(), |_k: int| BG_COLOR)
        } else {
            buf
        };
        if is_down && mouse is Some {
            let p = pt(mouse->0);
            match self.stroke_start(clear_pressed) {
                Some(q) => painted(base, line_points(pt(q), p), BRUSH_RADIUS as int, DRAW_COLOR),
                None => painted(base, seq![p], BRUSH_RADIUS as int, DRAW_COLOR),
            }
        } else {
            base
        }
    }

    /// The point remembered for the next frame.
    pub open spec fn next_last_point(
        &self,
        clear_pressed: bool,
        is_down: bool,
        mouse: Option<(i32, i32)>,
    ) -> Option<(i32, i32)> {
        if is_down {
            if mouse is Some {
                mouse
            } else {
                self.last_after_clear(clear_pressed)
            }
        } else {
            None
        }
    }

    /// A window with the button up and nothing drawn yet.
    pub fn new() -> (s: Sketch)
        ensures
            s.last_point is None,
            !s.was_down,
            s.wf(),
    {
        Sketch { last_point: None, was_down: false }
    }

    /// Handles one frame: the clear key, then the left button and the mouse
    /// position (`None` when the mouse is outside the window).
    pub fn handle_frame(
        &mut self,
        buffer: &mut [u32],
        clear_pressed: bool,
        is_down: bool,
        mouse: Option<(i32, i32)>,
    )
        requires
            old(self).wf(),
            old(self).frame_ok(clear_pressed, is_down, mouse),
            old(buffer)@.len() >= CANVAS_LEN,
        ensures
            final(self).wf(),
            final(buffer)@ == old(self).frame_canvas(old(buffer)@, clear_pressed, is_down, mouse),
            final(self).last_point == old(self).next_last_point(clear_pressed, is_down, mouse),
            final(self).was_down == is_down,
    {
        if clear_pressed {
            fill(buffer, BG_COLOR);
            self.last_point = None;
        }
        let ghost base = buffer@;
        proof {
            lemma_full_canvas_fits(base.len() as int, seq![(0int, 0int)], 0);
        }
        if is_down {
            if let Some(point) = mouse {
                if self.was_down {
                    if let Some(prev) = self.last_point {
                        proof {
                            lemma_full_canvas_fits(
                                base.len() as int,
                                line_points(pt(prev), pt(point)),
                                BRUSH_RADIUS as int,
                            );
                        }
                        draw_line(buffer, prev, point, DRAW_COLOR);
                    } else {
                        proof {
                            lemma_full_canvas_fits(
                                base.len() as int,
                                seq![pt(point)],
                                BRUSH_RADIUS as int,
                            );
                        }
                        draw_brush(buffer, point, DRAW_COLOR);
                    }
                } else {
                    proof {
                        lemma_full_canvas_fits(base.len() as int, seq![pt(point)], BRUSH_RADIUS as int);
                    }
                    draw_brush(buffer, point, DRAW_COLOR);
                }
                self.last_point = Some(point);
            }
        } else {
            self.last_point = None;
        }
        self.was_down = is_down;
    }
}

/// The clear key resets the whole canvas to the background: with the button
/// up, the frame leaves nothing but background, whatever was drawn before.
pub proof fn lemma_clear_resets_canvas(s: Sketch, buf: Seq<u32>, mouse: Option<(i32, i32)>)
    ensures
        forall|k: int|
            0 <= k < buf.len() ==> #[trigger] s.frame_canvas(buf, true, false, mouse)[k]
                == BG_COLOR,
        s.frame_canvas(buf, true, false, mouse).len() == buf.len(),
{
}

/// After the clear key nothing of the old canvas survives: two canvases of the
/// same size end the frame equal, and with the button down the frame holds a
/// single dab at the mouse on the background (no stroke from the point
/// remembered before the clear).
pub proof fn lemma_clear_forgets_old_canvas(
    s: Sketch,
    b1: Seq<u32>,
    b2: Seq<u32>,
    is_down: bool,
    mouse: Option<(i32, i32)>,
)
    requires
        b1.len() == b2.len(),
    ensures
        s.frame_canvas(b1, true, is_down, mouse) == s.frame_canvas(b2, true, is_down, mouse),
        is_down && mouse is Some ==> s.frame_canvas(b1, true, is_down, mouse) == painted(
            Seq::new(b1.len(), |_k: int| BG_COLOR),
            seq![pt(mouse->0)],
            BRUSH_RADIUS as int,
            DRAW_COLOR,
        ),
{
    assert(Seq::new(b1.len(), |_k: int| BG_COLOR) =~= Seq::new(b2.len(), |_k: int| BG_COLOR));
}

/// Without the clear key and with the button up, a frame changes nothing.
pub proof fn lemma_idle_frame_keeps_canvas(s: Sketch, buf: Seq<u32>, mouse: Option<(i32, i32)>)
    ensures
        s.frame_canvas(buf, false, false, mouse) == buf,
{
}

} // verus!

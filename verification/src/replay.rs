//! Replaying a recorded trajectory: one-pixel strokes between consecutive
//! samples, the frame renderer, and the pausable replay clock.

use vstd::prelude::*;
use crate::canvas::{
    covered, lemma_covered_concat, draw_axes, fill, fits_buffer, in_canvas, lemma_full_canvas_fits, lemma_painted_concat,
    lemma_plotted_is_painted, painted, pixel_index, plot, with_axes, BG_COLOR, CANVAS_LEN,
    DRAW_COLOR, HEIGHT, WIDTH,
};
use crate::trajectory::{positions, Point};
use crate::line::{
    abs, lemma_step_error_update, lemma_step_progress, line_fits, line_points, line_tail, next_i,
    next_j, pt, step_error, toward, walk_fits_from,
};

verus! {

/// Draws the line from `start` to `end` one pixel wide: every point of
/// `line_points(start, end)` that lies on the canvas is set to `color`.
pub fn draw_line(buffer: &mut [u32], start: (i32, i32), end: (i32, i32), color: u32)
    requires
        line_fits(start, end),
        fits_buffer(old(buffer)@.len() as int, line_points(pt(start), pt(end)), 0),
    ensures
        final(buffer)@ == painted(old(buffer)@, line_points(pt(start), pt(end)), 0, color),
{
    let mut x0 = start.0;
    let mut y0 = start.1;
    let x1 = end.0;
    let y1 = end.1;

    let dx = if x1 >= x0 { x1 - x0 } else { x0 - x1 };
    let sx: i32 = if x0 < x1 { 1 } else { -1 };
    let dy = if y1 >= y0 { y0 - y1 } else { y1 - y0 };
    let sy: i32 = if y0 < y1 { 1 } else { -1 };
    let mut err = dx + dy;

    let ghost sp = pt(start);
    let ghost ep = pt(end);
    let ghost pts = line_points(sp, ep);
    let ghost big_dx: int = dx as int;
    let ghost big_dy: int = -dy;
    let ghost old_buf = buffer@;
    let ghost mut i: int = 0;
    let ghost mut j: int = 0;
    let ghost mut done: Seq<(int, int)> = Seq::empty();
    proof {
        lemma_step_error_update(big_dx, big_dy, 0, 0);
        assert(done + line_tail(sp.0, sp.1, ep.0, ep.1, 0, 0) =~= pts);
    }

    loop
        invariant_except_break
            pts == done + line_tail(sp.0, sp.1, ep.0, ep.1, i, j),
        invariant
            big_dx == abs(ep.0 - sp.0),
            big_dy == abs(ep.1 - sp.1),
            big_dx <= i32::MAX,
            big_dy <= i32::MAX,
            walk_fits_from(sp.0, sp.1, ep.0, ep.1, i, j),
            dx == big_dx,
            dy == -big_dy,
            sx == (if sp.0 < ep.0 { 1int } else { -1int }),
            sy == (if sp.1 < ep.1 { 1int } else { -1int }),
            x1 == ep.0,
            y1 == ep.1,
            pts == line_points(sp, ep),
            0 <= i <= big_dx,
            0 <= j <= big_dy,
            x0 == toward(sp.0, ep.0, i),
            y0 == toward(sp.1, ep.1, j),
            err == step_error(big_dx, big_dy, i, j),
            buffer@.len() == old_buf.len(),
            fits_buffer(old_buf.len() as int, pts, 0),
            buffer@ == painted(old_buf, done, 0, color),
        ensures
            buffer@ == painted(old_buf, pts, 0, color),
        decreases (big_dx - i) + (big_dy - j),
    {
        let ghost p = (x0 as int, y0 as int);
        let ghost before = buffer@;
        proof {
            assert(pts[done.len() as int] == p);
            if in_canvas(p.0, p.1) {
                assert(pixel_index(p.0, p.1) < old_buf.len());
            }
        }
        plot(buffer, x0, y0, color);
        proof {
            lemma_plotted_is_painted(before, p.0, p.1, color);
            let d0 = done;
            lemma_painted_concat(old_buf, d0, seq![p], 0, color);
            done = d0.push(p);
            assert(d0 + seq![p] =~= done);
        }
        if x0 == x1 && y0 == y1 {
            proof {
                assert(i == big_dx && j == big_dy);
                assert(pts =~= done);
            }
            break;
        }
        proof {
            lemma_step_progress(big_dx, big_dy, i, j);
            lemma_step_error_update(big_dx, big_dy, i, j);
            lemma_step_error_update(big_dx, big_dy, i + 1, j);
            let t = line_tail(sp.0, sp.1, ep.0, ep.1, next_i(big_dx, big_dy, i, j), next_j(big_dx, big_dy, i, j));
            assert(line_tail(sp.0, sp.1, ep.0, ep.1, i, j) == seq![p] + t);
            assert(pts =~= done + t);
        }
        let e2 = 2 * err;
        if e2 >= dy {
            err += dy;
            x0 += sx;
            proof {
                i = i + 1;
            }
        }
        if e2 <= dx {
            err += dx;
            y0 += sy;
            proof {
                j = j + 1;
            }
        }
    }
}

/// How many samples, from the first on, are reached at `playback_ms`: the
/// length of the longest prefix whose timestamps are all at most `playback_ms`.
pub open spec fn visible_count(points: Seq<Point>, playback_ms: u128) -> nat
    decreases points.len(),
{
    if points.len() == 0 {
        0
    } else if points[0].timestamp_ms <= playback_ms {
        1 + visible_count(points.drop_first(), playback_ms)
    } else {
        0
    }
}

/// The strokes joining consecutive positions, in drawing order.
pub open spec fn polyline(pts: Seq<(int, int)>) -> Seq<(int, int)>
    decreases pts.len(),
{
    if pts.len() < 2 {
        Seq::empty()
    } else {
        polyline(pts.drop_last()) + line_points(pts[pts.len() - 2], pts[pts.len() - 1])
    }
}

/// Consecutive positions among the first `n` samples span lines that fit the
/// line walk.
pub open spec fn strokes_fit(points: Seq<Point>, n: int) -> bool {
    forall|m: int|
        0 <= m < n - 1 ==> line_fits(
            (#[trigger] points[m].x, points[m].y),
            (points[m + 1].x, points[m + 1].y),
        )
}

/// A frame of the replay: the background, the axes, then the polyline through
/// the samples reached at `playback_ms`.
pub open spec fn replay_frame(buf: Seq<u32>, points: Seq<Point>, playback_ms: u128) -> Seq<u32> {
    painted(
        with_axes(Seq::new(buf.len(), |_k: int| BG_COLOR)),
        polyline(positions(points.take(visible_count(points, playback_ms) as int))),
        0,
        DRAW_COLOR,
    )
}

/// A prefix of samples all reached at `playback_ms` is at most the visible
/// prefix, and is all of it when the next sample is not reached.
pub proof fn lemma_visible_prefix(points: Seq<Point>, playback_ms: u128, n: int)
    requires
        0 <= n <= points.len(),
        forall|m: int| 0 <= m < n ==> (#[trigger] points[m]).timestamp_ms <= playback_ms,
    ensures
        n <= visible_count(points, playback_ms),
        (n == points.len() || points[n].timestamp_ms > playback_ms) ==> visible_count(
            points,
            playback_ms,
        ) == n,
        visible_count(points, playback_ms) <= points.len(),
    decreases points.len(),
{
    if n == 0 {
        if points.len() > 0 {
            lemma_visible_prefix(points.drop_first(), playback_ms, 0);
        }
    } else {
        let rest = points.drop_first();
        assert forall|m: int| 0 <= m < n - 1 implies (#[trigger] rest[m]).timestamp_ms
            <= playback_ms by {
            assert(rest[m] == points[m + 1]);
        }
        assert(points[0].timestamp_ms <= playback_ms);
        lemma_visible_prefix(rest, playback_ms, n - 1);
        if n < points.len() {
            assert(rest[n - 1] == points[n]);
        }
    }
}

/// Renders one frame of the replay at `playback_ms`: clears to the background,
/// draws the axes, then joins the samples reached so far with one-pixel lines.
pub fn render_frame(buffer: &mut [u32], points: &[Point], playback_ms: u128)
    requires
        old(buffer)@.len() >= CANVAS_LEN,
        strokes_fit(points@, visible_count(points@, playback_ms) as int),
    ensures
        final(buffer)@ == replay_frame(old(buffer)@, points@, playback_ms),
{
    fill(buffer, BG_COLOR);
    proof {
        assert(pixel_index(WIDTH as int / 2, HEIGHT as int - 1) < CANVAS_LEN);
    }
    draw_axes(buffer);
    let ghost base = buffer@;
    let ghost len = base.len();
    let mut prev: Option<(i32, i32)> = None;
    let mut idx: usize = 0;
    proof {
        assert(positions(points@.take(0)) =~= Seq::<(int, int)>::empty());
        assert(painted(base, Seq::empty(), 0, DRAW_COLOR) =~= base);
    }
    while idx < points.len() && points[idx].timestamp_ms <= playback_ms
        invariant
            idx <= points@.len(),
            len == base.len(),
            len >= CANVAS_LEN,
            buffer@.len() == len,
            strokes_fit(points@, visible_count(points@, playback_ms) as int),
            forall|m: int| 0 <= m < idx ==> (#[trigger] points@[m]).timestamp_ms <= playback_ms,
            prev == (if idx == 0 {
                None
            } else {
                Some((points@[idx - 1].x, points@[idx - 1].y))
            }),
            buffer@ == painted(base, polyline(positions(points@.take(idx as int))), 0, DRAW_COLOR),
        decreases points@.len() - idx,
    {
        let pos = (points[idx].x, points[idx].y);
        let ghost before_pts = positions(points@.take(idx as int));
        let ghost after_pts = positions(points@.take(idx + 1));
        proof {
            lemma_visible_prefix(points@, playback_ms, idx + 1);
            assert(after_pts.drop_last() =~= before_pts);
        }
        if let Some(last) = prev {
            proof {
                let m = idx - 1;
                assert(line_fits((points@[m].x, points@[m].y), (points@[m + 1].x, points@[m + 1].y)));
                lemma_full_canvas_fits(len as int, line_points(pt(last), pt(pos)), 0);
            }
            draw_line(buffer, last, pos, DRAW_COLOR);
            proof {
                assert(after_pts[after_pts.len() - 2] == pt(last));
                assert(after_pts[after_pts.len() - 1] == pt(pos));
                lemma_painted_concat(
                    base,
                    polyline(before_pts),
                    line_points(pt(last), pt(pos)),
                    0,
                    DRAW_COLOR,
                );
            }
        } else {
            proof {
                assert(polyline(after_pts) =~= polyline(before_pts));
            }
        }
        prev = Some(pos);
        idx += 1;
    }
    proof {
        lemma_visible_prefix(points@, playback_ms, idx as int);
    }
}

/// Nanoseconds in a millisecond.
pub const NANOS_PER_MILLI: u128 = 1_000_000;

/// The replay clock. Times are nanoseconds read from a monotonic clock whose
/// origin the caller chooses; the clock only ever compares and subtracts them.
pub struct ReplayClock {
    /// When the replay (re)started.
    pub replay_start: u128,
    pub paused: bool,
    /// When the current pause began, while paused.
    pub pause_started: Option<u128>,
    /// Total length of the pauses since the replay started.
    pub paused_total: u128,
}

impl ReplayClock {
    /// The earliest time at which the clock may next be read: the start of the
    /// current pause, or else the replay start shifted by the pauses so far.
    pub open spec fn floor(&self) -> int {
        match self.pause_started {
            Some(s) => s as int,
            None => self.replay_start + self.paused_total,
        }
    }

    /// The clock is paused exactly when a pause start is recorded, and no pause
    /// reaches back before the time already played.
    pub open spec fn wf(&self) -> bool {
        &&& self.paused == self.pause_started is Some
        &&& self.replay_start + self.paused_total <= self.floor()
        &&& self.floor() <= u128::MAX
    }

    /// A clock started at `now`.
    pub open spec fn started(now: u128) -> ReplayClock {
        ReplayClock { replay_start: now, paused: false, pause_started: None, paused_total: 0 }
    }

    /// The clock after the pause key is pressed at `now`: a running clock pauses,
    /// a paused one resumes and adds the pause to the paused total.
    pub open spec fn toggled(self, now: u128) -> ReplayClock {
        if self.paused {
            ReplayClock {
                replay_start: self.replay_start,
                paused: false,
                pause_started: None,
                paused_total: (self.paused_total + (now - self.pause_started->0)) as u128,
            }
        } else {
            ReplayClock {
                replay_start: self.replay_start,
                paused: true,
                pause_started: Some(now),
                paused_total: self.paused_total,
            }
        }
    }

    /// Replay time played at `now`: the time since the start less the pauses;
    /// while paused, frozen at the start of the pause.
    pub open spec fn elapsed_ns(&self, now: u128) -> int {
        if self.paused {
            self.pause_started->0 - self.replay_start - self.paused_total
        } else {
            now - self.replay_start - self.paused_total
        }
    }

    /// A clock that starts running at `now`.
    pub fn start(now: u128) -> (c: ReplayClock)
        ensures
            c == ReplayClock::started(now),
            c.wf(),
    {
        ReplayClock { replay_start: now, paused: false, pause_started: None, paused_total: 0 }
    }

    /// Pauses a running clock at `now`, or resumes a paused one.
    pub fn toggle_pause(&mut self, now: u128)
        requires
            old(self).wf(),
            now >= old(self).floor(),
        ensures
            *final(self) == old(self).toggled(now),
            final(self).wf(),
            final(self).floor() <= now,
    {
        if self.paused {
            if let Some(start) = self.pause_started.take() {
                self.paused_total += now - start;
            }
        } else {
            self.pause_started = Some(now);
        }
        self.paused = !self.paused;
    }

    /// Restarts the replay from its beginning at `now`, running.
    pub fn restart(&mut self, now: u128)
        ensures
            *final(self) == ReplayClock::started(now),
            final(self).wf(),
    {
        self.replay_start = now;
        self.paused_total = 0;
        self.paused = false;
        self.pause_started = None;
    }

    /// The replay position at `now`, in whole milliseconds.
    pub fn playback_ms(&self, now: u128) -> (ms: u128)
        requires
            self.wf(),
            now >= self.floor(),
        ensures
            ms == self.elapsed_ns(now) / (NANOS_PER_MILLI as int),
    {
        let elapsed = if self.paused {
            match self.pause_started {
                Some(start) => start - self.replay_start - self.paused_total,
                None => 0,
            }
        } else {
            (now - self.replay_start).saturating_sub(self.paused_total)
        };
        elapsed / NANOS_PER_MILLI
    }
}

/// While the clock is paused, the replay position does not move.
pub proof fn lemma_paused_frozen(c: ReplayClock, t1: u128, t2: u128)
    requires
        c.wf(),
        c.paused,
    ensures
        c.elapsed_ns(t1) == c.elapsed_ns(t2),
{
}

/// While the clock runs, the replay position advances exactly with time.
pub proof fn lemma_running_advances(c: ReplayClock, t1: u128, t2: u128)
    requires
        c.wf(),
        !c.paused,
        c.floor() <= t1 <= t2,
    ensures
        0 <= c.elapsed_ns(t1),
        c.elapsed_ns(t2) - c.elapsed_ns(t1) == t2 - t1,
{
}

/// A pause taken at `a` and ended at `b` resumes the replay exactly where it
/// stopped: from `b` on, the position is the position at `a` plus the time
/// run since `b`.
pub proof fn lemma_pause_resume(c: ReplayClock, a: u128, b: u128, t: u128)
    requires
        c.wf(),
        !c.paused,
        c.floor() <= a <= b <= t,
    ensures
        c.toggled(a).wf(),
        c.toggled(a).toggled(b).wf(),
        !c.toggled(a).toggled(b).paused,
        c.toggled(a).elapsed_ns(b) == c.elapsed_ns(a),
        c.toggled(a).toggled(b).elapsed_ns(t) == c.elapsed_ns(a) + (t - b),
{
}

/// A restarted clock is at the beginning of the replay.
pub proof fn lemma_restart_at_zero(now: u128)
    ensures
        ReplayClock::started(now).wf(),
        ReplayClock::started(now).elapsed_ns(now) == 0,
{
}

/// A pixel is on the polyline through `pts` exactly when it is on the line
/// between some two consecutive positions.
pub proof fn lemma_polyline_covered(pts: Seq<(int, int)>, k: int)
    ensures
        covered(polyline(pts), k, 0) <==> exists|m: int|
            0 <= m < pts.len() - 1 && #[trigger] covered(line_points(pts[m], pts[m + 1]), k, 0),
    decreases pts.len(),
{
    if pts.len() < 2 {
        assert(!covered(Seq::<(int, int)>::empty(), k, 0));
    } else {
        let n = pts.len() as int;
        let init = pts.drop_last();
        let last_line = line_points(pts[n - 2], pts[n - 1]);
        lemma_polyline_covered(init, k);
        lemma_covered_concat(polyline(init), last_line, k, 0);
        if covered(polyline(pts), k, 0) {
            if covered(polyline(init), k, 0) {
                let m = choose|m: int|
                    0 <= m < init.len() - 1 && #[trigger] covered(
                        line_points(init[m], init[m + 1]),
                        k,
                        0,
                    );
                assert(init[m] == pts[m] && init[m + 1] == pts[m + 1]);
            } else {
                assert(covered(line_points(pts[n - 2], pts[(n - 2) + 1]), k, 0));
            }
        }
        if exists|m: int|
            0 <= m < pts.len() - 1 && #[trigger] covered(line_points(pts[m], pts[m + 1]), k, 0) {
            let m = choose|m: int|
                0 <= m < pts.len() - 1 && #[trigger] covered(line_points(pts[m], pts[m + 1]), k, 0);
            if m < n - 2 {
                assert(init[m] == pts[m] && init[m + 1] == pts[m + 1]);
                assert(covered(line_points(init[m], init[m + 1]), k, 0));
            }
        }
    }
}

/// What a replay frame shows, pixel by pixel, when the first `n` samples are
/// the ones reached at `playback_ms`: a canvas pixel is in the stroke colour
/// exactly when it lies on the line between two consecutive reached samples;
/// every other pixel is the background with the axes. In particular no line
/// joins samples that are not consecutive, and nothing is drawn from a sample
/// not yet reached.
pub proof fn lemma_replay_frame_pixels(
    buf: Seq<u32>,
    points: Seq<Point>,
    playback_ms: u128,
    n: int,
    k: int,
)
    requires
        0 <= n <= points.len(),
        forall|m: int| 0 <= m < n ==> (#[trigger] points[m]).timestamp_ms <= playback_ms,
        n == points.len() || points[n].timestamp_ms > playback_ms,
        0 <= k < buf.len(),
    ensures
        replay_frame(buf, points, playback_ms)[k] == if k < CANVAS_LEN as int && exists|m: int|
            0 <= m < n - 1 && #[trigger] covered(
                line_points(
                    (points[m].x as int, points[m].y as int),
                    (points[m + 1].x as int, points[m + 1].y as int),
                ),
                k,
                0,
            ) {
            DRAW_COLOR
        } else {
            with_axes(Seq::new(buf.len(), |_k: int| BG_COLOR))[k]
        },
{
    lemma_visible_prefix(points, playback_ms, n);
    let pos = positions(points.take(n));
    lemma_polyline_covered(pos, k);
    let on_pair = exists|m: int|
        0 <= m < n - 1 && #[trigger] covered(
            line_points(
                (points[m].x as int, points[m].y as int),
                (points[m + 1].x as int, points[m + 1].y as int),
            ),
            k,
            0,
        );
    if covered(polyline(pos), k, 0) {
        let m = choose|m: int|
            0 <= m < pos.len() - 1 && #[trigger] covered(line_points(pos[m], pos[m + 1]), k, 0);
        assert(pos[m] == (points[m].x as int, points[m].y as int));
        assert(pos[m + 1] == (points[m + 1].x as int, points[m + 1].y as int));
    }
    if on_pair {
        let m = choose|m: int|
            0 <= m < n - 1 && #[trigger] covered(
                line_points(
                    (points[m].x as int, points[m].y as int),
                    (points[m + 1].x as int, points[m + 1].y as int),
                ),
                k,
                0,
            );
        assert(pos[m] == (points[m].x as int, points[m].y as int));
        assert(pos[m + 1] == (points[m + 1].x as int, points[m + 1].y as int));
        assert(covered(line_points(pos[m], pos[m + 1]), k, 0));
    }
}

} // verus!

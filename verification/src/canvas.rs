//! The raster canvas: a row-major buffer of `WIDTH * HEIGHT` colour words.
//!
//! A buffer is modelled by its view, a `Seq<u32>`. Pixel `(x, y)` lives at
//! index `y * WIDTH + x`; writes outside the canvas rectangle are dropped.
//! Indices at or past `CANVAS_LEN` (a longer buffer) are never touched.

use vstd::prelude::*;

verus! {

pub const WIDTH: usize = 900;

pub const HEIGHT: usize = 600;

/// Number of pixels of the canvas, `WIDTH * HEIGHT`.
pub const CANVAS_LEN: usize = 540000;

pub const BG_COLOR: u32 = 0x00F4F1EA;

pub const DRAW_COLOR: u32 = 0x001A1A1A;

pub const AXIS_COLOR: u32 = 0x00D8D2C8;

/// `(x, y)` lies inside the canvas rectangle.
pub open spec fn in_canvas(x: int, y: int) -> bool {
    0 <= x < WIDTH as int && 0 <= y < HEIGHT as int
}

/// Buffer index of pixel `(x, y)`.
pub open spec fn pixel_index(x: int, y: int) -> int {
    y * (WIDTH as int) + x
}

/// Column of buffer index `k`.
pub open spec fn pixel_x(k: int) -> int {
    k % (WIDTH as int)
}

/// Row of buffer index `k`.
pub open spec fn pixel_y(k: int) -> int {
    k / (WIDTH as int)
}

/// The buffer after writing `color` at `(x, y)`, if that pixel is on the canvas.
pub open spec fn plotted(buf: Seq<u32>, x: int, y: int, color: u32) -> Seq<u32> {
    if in_canvas(x, y) {
        buf.update(pixel_index(x, y), color)
    } else {
        buf
    }
}

/// Pixel `k` lies in the square of half-width `r` centred on `p`.
pub open spec fn near(k: int, p: (int, int), r: int) -> bool {
    -r <= pixel_x(k) - p.0 <= r && -r <= pixel_y(k) - p.1 <= r
}

/// Pixel `k` lies in the square of half-width `r` around some point of `pts`.
pub open spec fn covered(pts: Seq<(int, int)>, k: int, r: int) -> bool {
    exists|m: int| 0 <= m < pts.len() && #[trigger] near(k, pts[m], r)
}

/// The buffer after stamping a square of half-width `r` in `color` around every
/// point of `pts`: exactly the canvas pixels covered by some square change.
pub open spec fn painted(buf: Seq<u32>, pts: Seq<(int, int)>, r: int, color: u32) -> Seq<u32> {
    Seq::new(
        buf.len(),
        |k: int|
            if k < CANVAS_LEN as int && covered(pts, k, r) {
                color
            } else {
                buf[k]
            },
    )
}

/// Every canvas pixel that a stamp of half-width `r` around a point of `pts`
/// would write has an index inside a buffer of length `len`.
pub open spec fn fits_buffer(len: int, pts: Seq<(int, int)>, r: int) -> bool {
    forall|m: int, x: int, y: int|
        #![trigger pts[m], pixel_index(x, y)]
        0 <= m < pts.len() && -r <= x - pts[m].0 <= r && -r <= y - pts[m].1 <= r && in_canvas(x, y)
            ==> pixel_index(x, y) < len
}

/// The canvas with its two axis lines (the middle row and the middle column).
pub open spec fn with_axes(buf: Seq<u32>) -> Seq<u32> {
    Seq::new(
        buf.len(),
        |k: int|
            if k < CANVAS_LEN as int && (pixel_y(k) == HEIGHT as int / 2 || pixel_x(k)
                == WIDTH as int / 2) {
                AXIS_COLOR
            } else {
                buf[k]
            },
    )
}

/// A pixel on the canvas has an index below `CANVAS_LEN`, from which its
/// coordinates are recovered.
pub proof fn lemma_pixel_roundtrip(x: int, y: int)
    requires
        in_canvas(x, y),
    ensures
        0 <= pixel_index(x, y) < CANVAS_LEN as int,
        pixel_x(pixel_index(x, y)) == x,
        pixel_y(pixel_index(x, y)) == y,
{
    vstd::arithmetic::div_mod::lemma_fundamental_div_mod_converse(
        pixel_index(x, y),
        WIDTH as int,
        y,
        x,
    );
}

/// Every index below `CANVAS_LEN` is the index of exactly one canvas pixel.
pub proof fn lemma_index_roundtrip(k: int)
    requires
        0 <= k < CANVAS_LEN as int,
    ensures
        in_canvas(pixel_x(k), pixel_y(k)),
        pixel_index(pixel_x(k), pixel_y(k)) == k,
{
    vstd::arithmetic::div_mod::lemma_fundamental_div_mod(k, WIDTH as int);
    assert(0 <= pixel_x(k) < WIDTH as int) by {
        vstd::arithmetic::div_mod::lemma_mod_bound(k, WIDTH as int);
    }
    assert(0 <= pixel_y(k) < HEIGHT as int) by {
        vstd::arithmetic::div_mod::lemma_div_is_ordered(k, CANVAS_LEN as int, WIDTH as int);
        vstd::arithmetic::div_mod::lemma_div_pos_is_pos(k, WIDTH as int);
        assert((CANVAS_LEN as int) / (WIDTH as int) == HEIGHT as int);
        assert(pixel_y(k) != HEIGHT as int);
    }
}

/// Writing one pixel is stamping a square of half-width 0 around it.
pub proof fn lemma_plotted_is_painted(buf: Seq<u32>, x: int, y: int, color: u32)
    requires
        in_canvas(x, y) ==> pixel_index(x, y) < buf.len(),
    ensures
        plotted(buf, x, y, color) == painted(buf, seq![(x, y)], 0, color),
{
    let lhs = plotted(buf, x, y, color);
    let rhs = painted(buf, seq![(x, y)], 0, color);
    assert forall|k: int| 0 <= k < buf.len() implies lhs[k] == rhs[k] by {
        let c = k < CANVAS_LEN as int && covered(seq![(x, y)], k, 0);
        if in_canvas(x, y) {
            lemma_pixel_roundtrip(x, y);
        }
        if 0 <= k < CANVAS_LEN as int {
            lemma_index_roundtrip(k);
        }
        if c {
            let m = choose|m: int| 0 <= m < 1 && #[trigger] near(k, seq![(x, y)][m], 0);
            assert(m == 0);
        } else if k < CANVAS_LEN as int {
            assert(!near(k, seq![(x, y)][0], 0));
        }
    }
    assert(lhs =~= rhs);
}

/// A pixel is covered by a concatenation exactly when one of the parts covers it.
pub proof fn lemma_covered_concat(s1: Seq<(int, int)>, s2: Seq<(int, int)>, k: int, r: int)
    ensures
        covered(s1 + s2, k, r) <==> covered(s1, k, r) || covered(s2, k, r),
{
    let s = s1 + s2;
    if covered(s1, k, r) {
        let m = choose|m: int| 0 <= m < s1.len() && #[trigger] near(k, s1[m], r);
        assert(s[m] == s1[m]);
    }
    if covered(s2, k, r) {
        let m = choose|m: int| 0 <= m < s2.len() && #[trigger] near(k, s2[m], r);
        assert(s[s1.len() + m] == s2[m]);
    }
    if covered(s, k, r) {
        let m = choose|m: int| 0 <= m < s.len() && #[trigger] near(k, s[m], r);
        if m < s1.len() {
            assert(near(k, s1[m], r));
        } else {
            assert(near(k, s2[m - s1.len()], r));
        }
    }
}

/// Stamping `s1` and then `s2` is stamping `s1 + s2`.
pub proof fn lemma_painted_concat(
    buf: Seq<u32>,
    s1: Seq<(int, int)>,
    s2: Seq<(int, int)>,
    r: int,
    color: u32,
)
    ensures
        painted(painted(buf, s1, r, color), s2, r, color) == painted(buf, s1 + s2, r, color),
{
    let lhs = painted(painted(buf, s1, r, color), s2, r, color);
    let rhs = painted(buf, s1 + s2, r, color);
    assert forall|k: int| 0 <= k < buf.len() implies lhs[k] == rhs[k] by {
        let s = s1 + s2;
        if covered(s1, k, r) {
            let m = choose|m: int| 0 <= m < s1.len() && #[trigger] near(k, s1[m], r);
            assert(s[m] == s1[m]);
            assert(covered(s, k, r));
        }
        if covered(s2, k, r) {
            let m = choose|m: int| 0 <= m < s2.len() && #[trigger] near(k, s2[m], r);
            assert(s[s1.len() + m] == s2[m]);
            assert(covered(s, k, r));
        }
        if covered(s, k, r) {
            let m = choose|m: int| 0 <= m < s.len() && #[trigger] near(k, s[m], r);
            if m < s1.len() {
                assert(near(k, s1[m], r));
            } else {
                assert(near(k, s2[m - s1.len()], r));
            }
        }
    }
    assert(lhs =~= rhs);
}

/// One pixel of the buffer after a write at `(x, y)`.
pub proof fn lemma_plotted_at(buf: Seq<u32>, x: int, y: int, color: u32, k: int)
    requires
        0 <= k < buf.len(),
        in_canvas(x, y) ==> pixel_index(x, y) < buf.len(),
    ensures
        plotted(buf, x, y, color)[k] == if k < CANVAS_LEN as int && pixel_x(k) == x && pixel_y(k)
            == y {
            color
        } else {
            buf[k]
        },
{
    if in_canvas(x, y) {
        lemma_pixel_roundtrip(x, y);
    }
    if k < CANVAS_LEN as int {
        lemma_index_roundtrip(k);
    }
}

/// A stamp around a single point covers exactly the pixels near it.
pub proof fn lemma_covered_single(p: (int, int), k: int, r: int)
    ensures
        covered(seq![p], k, r) <==> near(k, p, r),
{
    if near(k, p, r) {
        assert(near(k, seq![p][0], r));
    }
}

/// A buffer that holds the whole canvas fits every stamp.
pub proof fn lemma_full_canvas_fits(len: int, pts: Seq<(int, int)>, r: int)
    requires
        len >= CANVAS_LEN as int,
    ensures
        fits_buffer(len, pts, r),
{
    assert forall|m: int, x: int, y: int|
        #![trigger pts[m], pixel_index(x, y)]
        0 <= m < pts.len() && -r <= x - pts[m].0 <= r && -r <= y - pts[m].1 <= r && in_canvas(x, y)
            implies pixel_index(x, y) < len by {
        lemma_pixel_roundtrip(x, y);
    }
}

/// What fits for a sequence of points fits for each of its points.
pub proof fn lemma_fits_buffer_point(len: int, pts: Seq<(int, int)>, r: int, m: int)
    requires
        fits_buffer(len, pts, r),
        0 <= m < pts.len(),
    ensures
        fits_buffer(len, seq![pts[m]], r),
{
    let single = seq![pts[m]];
    assert forall|n: int, x: int, y: int|
        #![trigger single[n], pixel_index(x, y)]
        0 <= n < single.len() && -r <= x - single[n].0 <= r && -r <= y - single[n].1 <= r
            && in_canvas(x, y) implies pixel_index(x, y) < len by {
        assert(single[n] == pts[m]);
    }
}

/// Stamping the same points twice is stamping them once.
pub proof fn lemma_painted_idempotent(buf: Seq<u32>, pts: Seq<(int, int)>, r: int, color: u32)
    ensures
        painted(painted(buf, pts, r, color), pts, r, color) == painted(buf, pts, r, color),
{
    let once = painted(buf, pts, r, color);
    let twice = painted(once, pts, r, color);
    assert(twice =~= once);
}

/// Writes `color` at `(x, y)` when that pixel lies on the canvas, and does
/// nothing otherwise.
pub fn plot(buffer: &mut [u32], x: i32, y: i32, color: u32)
    requires
        in_canvas(x as int, y as int) ==> pixel_index(x as int, y as int) < old(buffer)@.len(),
    ensures
        final(buffer)@ == plotted(old(buffer)@, x as int, y as int, color),
{
    if x < 0 || y < 0 {
        return ;
    }
    let x = x as usize;
    let y = y as usize;
    if x >= WIDTH || y >= HEIGHT {
        return ;
    }
    buffer[y * WIDTH + x] = color;
}

/// Sets every word of the buffer to `color`.
pub fn fill(buffer: &mut [u32], color: u32)
    ensures
        final(buffer)@ == Seq::new(old(buffer)@.len(), |_k: int| color),
{
    let len = buffer.len();
    let mut i: usize = 0;
    while i < len
        invariant
            len == buffer@.len(),
            len == old(buffer)@.len(),
            i <= len,
            forall|k: int| 0 <= k < i ==> buffer@[k] == color,
        decreases len - i,
    {
        buffer[i] = color;
        i = i + 1;
    }
    assert(buffer@ =~= Seq::new(old(buffer)@.len(), |_k: int| color));
}

/// Draws the horizontal axis (the middle row) and then the vertical axis (the
/// middle column) in `AXIS_COLOR`.
pub fn draw_axes(buffer: &mut [u32])
    requires
        old(buffer)@.len() > pixel_index(WIDTH as int / 2, HEIGHT as int - 1),
    ensures
        final(buffer)@ == with_axes(old(buffer)@),
{
    let mid_x = WIDTH / 2;
    let mid_y = HEIGHT / 2;
    let ghost old_buf = buffer@;
    let len = buffer.len();
    let mut x: usize = 0;
    while x < WIDTH
        invariant
            mid_x == WIDTH / 2,
            mid_y == HEIGHT / 2,
            len == buffer@.len(),
            len == old_buf.len(),
            len > pixel_index(WIDTH as int / 2, HEIGHT as int - 1),
            x <= WIDTH,
            forall|k: int|
                #![trigger buffer@[k]]
                0 <= k < len ==> buffer@[k] == if (k < CANVAS_LEN as int && pixel_y(k) == mid_y
                    && pixel_x(k) < x) {
                    AXIS_COLOR
                } else {
                    old_buf[k]
                },
        decreases WIDTH - x,
    {
        proof {
            lemma_pixel_roundtrip(x as int, mid_y as int);
        }
        buffer[mid_y * WIDTH + x] = AXIS_COLOR;
        x = x + 1;
        proof {
            assert forall|k: int| #![trigger buffer@[k]] 0 <= k < len implies buffer@[k] == (if (k < CANVAS_LEN as int
                && pixel_y(k) == mid_y && pixel_x(k) < x) {
                AXIS_COLOR
            } else {
                old_buf[k]
            }) by {
                if 0 <= k < CANVAS_LEN as int {
                    lemma_index_roundtrip(k);
                }
            }
        }
    }
    let mut y: usize = 0;
    while y < HEIGHT
        invariant
            mid_x == WIDTH / 2,
            mid_y == HEIGHT / 2,
            len == buffer@.len(),
            len == old_buf.len(),
            len > pixel_index(WIDTH as int / 2, HEIGHT as int - 1),
            y <= HEIGHT,
            forall|k: int|
                #![trigger buffer@[k]]
                0 <= k < len ==> buffer@[k] == if (k < CANVAS_LEN as int && (pixel_y(k) == mid_y
                    || (pixel_x(k) == mid_x && pixel_y(k) < y))) {
                    AXIS_COLOR
                } else {
                    old_buf[k]
                },
        decreases HEIGHT - y,
    {
        proof {
            lemma_pixel_roundtrip(mid_x as int, y as int);
        }
        buffer[y * WIDTH + mid_x] = AXIS_COLOR;
        proof {
            assert forall|k: int| #![trigger buffer@[k]] 0 <= k < len implies buffer@[k] == if k < CANVAS_LEN as int && (
            pixel_y(k) == mid_y || (pixel_x(k) == mid_x && pixel_y(k) < y + 1)) {
                AXIS_COLOR
            } else {
                old_buf[k]
            } by {
                if 0 <= k < CANVAS_LEN as int {
                    lemma_index_roundtrip(k);
                }
            }
        }
        y = y + 1;
    }
    proof {
        assert forall|k: int| #![trigger buffer@[k]] 0 <= k < len implies buffer@[k] == with_axes(old_buf)[k] by {
            if 0 <= k < CANVAS_LEN as int {
                lemma_index_roundtrip(k);
            }
        }
    }
    assert(buffer@ =~= with_axes(old_buf));
}

} // verus!

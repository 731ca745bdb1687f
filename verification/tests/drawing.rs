use pen_plotter::canvas::{
    draw_axes, fill, plot, AXIS_COLOR, BG_COLOR, CANVAS_LEN, DRAW_COLOR, HEIGHT, WIDTH,
};
use pen_plotter::line::line_fits_check;
use pen_plotter::replay;
use pen_plotter::sketch::{self, brush_fits_check, Sketch};

fn blank() -> Vec<u32> {
    vec![BG_COLOR; CANVAS_LEN]
}

fn at(buf: &[u32], x: usize, y: usize) -> u32 {
    buf[y * WIDTH + x]
}

fn changed(buf: &[u32]) -> Vec<(usize, usize)> {
    let mut out = Vec::new();
    for (k, &c) in buf.iter().enumerate() {
        if c != BG_COLOR {
            out.push((k % WIDTH, k / WIDTH));
        }
    }
    out
}

#[test]
fn canvas_is_width_times_height() {
    assert_eq!(CANVAS_LEN, WIDTH * HEIGHT);
}

#[test]
fn plot_sets_one_pixel_on_canvas() {
    let mut buf = blank();
    plot(&mut buf, 3, 7, DRAW_COLOR);
    assert_eq!(changed(&buf), vec![(3, 7)]);
    assert_eq!(at(&buf, 3, 7), DRAW_COLOR);
}

#[test]
fn plot_off_canvas_is_dropped() {
    let mut buf = blank();
    plot(&mut buf, -1, 5, DRAW_COLOR);
    plot(&mut buf, 5, -1, DRAW_COLOR);
    plot(&mut buf, 900, 5, DRAW_COLOR);
    plot(&mut buf, 5, 600, DRAW_COLOR);
    plot(&mut buf, i32::MIN, i32::MAX, DRAW_COLOR);
    assert!(changed(&buf).is_empty());
}

#[test]
fn plot_last_pixel() {
    let mut buf = blank();
    plot(&mut buf, 899, 599, DRAW_COLOR);
    assert_eq!(buf[CANVAS_LEN - 1], DRAW_COLOR);
}

#[test]
fn plot_into_longer_buffer_leaves_tail() {
    let mut buf = vec![BG_COLOR; CANVAS_LEN + 4];
    plot(&mut buf, 899, 599, DRAW_COLOR);
    assert_eq!(&buf[CANVAS_LEN..], &[BG_COLOR; 4]);
}

#[test]
fn fill_sets_every_word() {
    let mut buf = vec![1u32, 2, 3];
    fill(&mut buf, 9);
    assert_eq!(buf, vec![9, 9, 9]);
}

#[test]
fn axes_cross_in_the_middle() {
    let mut buf = blank();
    draw_axes(&mut buf);
    assert_eq!(at(&buf, 0, 300), AXIS_COLOR);
    assert_eq!(at(&buf, 899, 300), AXIS_COLOR);
    assert_eq!(at(&buf, 450, 0), AXIS_COLOR);
    assert_eq!(at(&buf, 450, 599), AXIS_COLOR);
    assert_eq!(at(&buf, 449, 299), BG_COLOR);
    assert_eq!(changed(&buf).len(), WIDTH + HEIGHT - 1);
}

#[test]
fn pixel_line_shallow_slope() {
    let mut buf = blank();
    replay::draw_line(&mut buf, (0, 0), (5, 2), DRAW_COLOR);
    let mut got = changed(&buf);
    got.sort();
    assert_eq!(got, vec![(0, 0), (1, 0), (2, 1), (3, 1), (4, 2), (5, 2)]);
}

#[test]
fn pixel_line_steep_reverse() {
    let mut buf = blank();
    replay::draw_line(&mut buf, (2, 5), (0, 0), DRAW_COLOR);
    let got = changed(&buf);
    // one pixel per row: the longer side has 5 units
    assert_eq!(got.len(), 6);
    assert!(got.contains(&(2, 5)));
    assert!(got.contains(&(0, 0)));
}

#[test]
fn pixel_line_diagonal_and_straight() {
    let mut buf = blank();
    replay::draw_line(&mut buf, (10, 10), (13, 13), DRAW_COLOR);
    let mut got = changed(&buf);
    got.sort();
    assert_eq!(got, vec![(10, 10), (11, 11), (12, 12), (13, 13)]);

    let mut buf = blank();
    replay::draw_line(&mut buf, (7, 4), (7, 1), DRAW_COLOR);
    let mut got = changed(&buf);
    got.sort();
    assert_eq!(got, vec![(7, 1), (7, 2), (7, 3), (7, 4)]);
}

#[test]
fn pixel_line_to_itself_is_a_point() {
    let mut buf = blank();
    replay::draw_line(&mut buf, (4, 4), (4, 4), DRAW_COLOR);
    assert_eq!(changed(&buf), vec![(4, 4)]);
}

#[test]
fn pixel_line_clipped_to_canvas() {
    let mut buf = blank();
    replay::draw_line(&mut buf, (-3, 0), (3, 0), DRAW_COLOR);
    let mut got = changed(&buf);
    got.sort();
    assert_eq!(got, vec![(0, 0), (1, 0), (2, 0), (3, 0)]);
}

#[test]
fn pixel_line_twice_is_once() {
    let mut once = blank();
    replay::draw_line(&mut once, (1, 2), (40, 17), DRAW_COLOR);
    let mut twice = once.clone();
    replay::draw_line(&mut twice, (1, 2), (40, 17), DRAW_COLOR);
    assert_eq!(once, twice);
}

#[test]
fn brush_covers_five_by_five() {
    let mut buf = blank();
    sketch::draw_brush(&mut buf, (10, 10), DRAW_COLOR);
    let got = changed(&buf);
    assert_eq!(got.len(), 25);
    for y in 8..=12 {
        for x in 8..=12 {
            assert_eq!(at(&buf, x, y), DRAW_COLOR);
        }
    }
    assert_eq!(at(&buf, 13, 10), BG_COLOR);
    assert_eq!(at(&buf, 10, 7), BG_COLOR);
}

#[test]
fn brush_in_corner_is_clipped() {
    let mut buf = blank();
    sketch::draw_brush(&mut buf, (0, 0), DRAW_COLOR);
    assert_eq!(changed(&buf).len(), 9);
    let mut buf = blank();
    sketch::draw_brush(&mut buf, (899, 599), DRAW_COLOR);
    assert_eq!(changed(&buf).len(), 9);
}

#[test]
fn brush_stroke_is_five_wide() {
    let mut buf = blank();
    sketch::draw_line(&mut buf, (10, 10), (20, 10), DRAW_COLOR);
    assert_eq!(changed(&buf).len(), 15 * 5);
    assert_eq!(at(&buf, 15, 12), DRAW_COLOR);
    assert_eq!(at(&buf, 15, 13), BG_COLOR);
    assert_eq!(at(&buf, 8, 8), DRAW_COLOR);
    assert_eq!(at(&buf, 22, 12), DRAW_COLOR);
}

#[test]
fn brush_stroke_to_itself_is_one_dab() {
    let mut a = blank();
    sketch::draw_line(&mut a, (30, 40), (30, 40), DRAW_COLOR);
    let mut b = blank();
    sketch::draw_brush(&mut b, (30, 40), DRAW_COLOR);
    assert_eq!(a, b);
}

#[test]
fn sketch_frames() {
    let mut buf = blank();
    let mut s = Sketch::new();
    // button up: nothing drawn, nothing remembered
    s.handle_frame(&mut buf, false, false, Some((50, 50)));
    assert!(changed(&buf).is_empty());
    assert_eq!(s.last_point, None);
    // button goes down: a dab
    s.handle_frame(&mut buf, false, true, Some((50, 50)));
    assert_eq!(changed(&buf).len(), 25);
    assert_eq!(s.last_point, Some((50, 50)));
    assert!(s.was_down);
    // held and moved: a stroke from the previous point
    s.handle_frame(&mut buf, false, true, Some((60, 50)));
    assert_eq!(changed(&buf).len(), 15 * 5);
    assert_eq!(s.last_point, Some((60, 50)));
    // held with the mouse outside: the point is kept
    s.handle_frame(&mut buf, false, true, None);
    assert_eq!(s.last_point, Some((60, 50)));
    // clear while held: canvas cleared, next position is a dab, not a stroke
    s.handle_frame(&mut buf, true, true, Some((100, 100)));
    assert_eq!(changed(&buf).len(), 25);
    assert_eq!(at(&buf, 100, 100), DRAW_COLOR);
    // released
    s.handle_frame(&mut buf, false, false, None);
    assert_eq!(s.last_point, None);
    assert!(!s.was_down);
}

#[test]
fn line_fit_check() {
    assert!(line_fits_check((0, 0), (5, 2)));
    assert!(line_fits_check((-300, 40), (899, 599)));
    assert!(!line_fits_check((i32::MIN, 0), (i32::MAX, 0)));
    assert!(!line_fits_check((0, i32::MIN), (0, 1)));
    // the doubled error term of a 1.1e9 pixel span leaves i32 at the first step
    assert!(!line_fits_check((0, 0), (1_100_000_000, 0)));
}

#[test]
fn brush_fit_check() {
    assert!(brush_fits_check((0, 0)));
    assert!(brush_fits_check((i32::MIN + 2, i32::MAX - 2)));
    assert!(!brush_fits_check((i32::MIN + 1, 0)));
    assert!(!brush_fits_check((0, i32::MAX - 1)));
}

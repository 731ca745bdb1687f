use pen_plotter::canvas::{AXIS_COLOR, BG_COLOR, CANVAS_LEN, DRAW_COLOR, WIDTH};
use pen_plotter::replay::{render_frame, ReplayClock};
use pen_plotter::trail::{push_trail, TRAIL_LIMIT};
use pen_plotter::trajectory::Point;
use std::collections::VecDeque;

fn p(x: i32, y: i32, t: u128) -> Point {
    Point { x, y, timestamp_ms: t }
}

fn at(buf: &[u32], x: usize, y: usize) -> u32 {
    buf[y * WIDTH + x]
}

#[test]
fn frame_draws_reached_samples_only() {
    let pts = vec![p(10, 10, 0), p(20, 10, 100), p(20, 40, 200)];
    let mut buf = vec![7u32; CANVAS_LEN];
    render_frame(&mut buf, &pts, 150);
    assert_eq!(at(&buf, 15, 10), DRAW_COLOR);
    assert_eq!(at(&buf, 20, 30), BG_COLOR);
    assert_eq!(at(&buf, 450, 0), AXIS_COLOR);
    assert_eq!(at(&buf, 0, 0), BG_COLOR);
    render_frame(&mut buf, &pts, 200);
    assert_eq!(at(&buf, 20, 30), DRAW_COLOR);
}

#[test]
fn frame_with_one_sample_draws_no_line() {
    let pts = vec![p(10, 10, 0), p(20, 10, 100)];
    let mut buf = vec![BG_COLOR; CANVAS_LEN];
    render_frame(&mut buf, &pts, 50);
    assert_eq!(at(&buf, 10, 10), BG_COLOR);
}

#[test]
fn frame_stops_at_first_unreached_sample() {
    // the third sample is earlier but comes after an unreached one
    let pts = vec![p(10, 10, 0), p(20, 10, 500), p(30, 10, 10)];
    let mut buf = vec![BG_COLOR; CANVAS_LEN];
    render_frame(&mut buf, &pts, 100);
    assert_eq!(at(&buf, 15, 10), BG_COLOR);
    assert_eq!(at(&buf, 25, 10), BG_COLOR);
}

#[test]
fn clock_runs_pauses_and_resumes() {
    let ms = 1_000_000u128;
    let mut c = ReplayClock::start(0);
    assert_eq!(c.playback_ms(5 * ms + 999_999), 5);
    c.toggle_pause(10 * ms);
    assert!(c.paused);
    assert_eq!(c.playback_ms(50 * ms), 10);
    assert_eq!(c.playback_ms(90 * ms), 10);
    c.toggle_pause(20 * ms);
    assert!(!c.paused);
    assert_eq!(c.paused_total, 10 * ms);
    assert_eq!(c.playback_ms(20 * ms), 10);
    assert_eq!(c.playback_ms(30 * ms), 20);
}

#[test]
fn clock_restart_is_at_zero() {
    let ms = 1_000_000u128;
    let mut c = ReplayClock::start(0);
    c.toggle_pause(3 * ms);
    c.restart(100 * ms);
    assert!(!c.paused);
    assert_eq!(c.pause_started, None);
    assert_eq!(c.playback_ms(100 * ms), 0);
    assert_eq!(c.playback_ms(107 * ms), 7);
}

#[test]
fn trail_keeps_the_newest() {
    let mut t: VecDeque<u32> = VecDeque::new();
    for i in 0..5 {
        push_trail(&mut t, i, 3);
    }
    assert_eq!(t, VecDeque::from(vec![2, 3, 4]));
    let mut long: VecDeque<u32> = VecDeque::new();
    for i in 0..(TRAIL_LIMIT as u32 + 10) {
        push_trail(&mut long, i, TRAIL_LIMIT);
    }
    assert_eq!(long.len(), TRAIL_LIMIT);
    assert_eq!(long.front(), Some(&10));
}

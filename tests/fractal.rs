use forktal::field::{fits, Fractal, WIN_MAX_X, WIN_MAX_Y, WIN_MIN_X, WIN_MIN_Y};
use forktal::point::{Point, COORD_MAX, ONE};
use std::time::Duration;

const UNIT: i64 = ONE as i64;

fn ms(n: u64) -> Duration {
    Duration::from_millis(n)
}

fn red_channel(f: &Fractal, w: usize, h: usize) -> Vec<u8> {
    let mut frame = vec![0u8; w * h * 4];
    f.draw(&mut frame);
    frame.chunks(4).map(|p| p[0]).collect()
}

#[test]
fn origin_never_escapes() {
    let mut p = Point::new(0, 0);
    for _ in 0..1000 {
        p.step();
        assert!(!p.is_escaped());
    }
    assert_eq!(p.count(), 1000);
}

#[test]
fn two_escapes_after_four_steps() {
    let mut p = Point::new(2 * UNIT, 0);
    for k in 1..=3 {
        p.step();
        assert!(!p.is_escaped());
        assert_eq!(p.count(), k);
    }
    p.step();
    assert!(p.is_escaped());
    assert_eq!(p.count(), 4);
}

#[test]
fn escaped_point_is_frozen() {
    let mut p = Point::new(2 * UNIT, 0);
    for _ in 0..4 {
        p.step();
    }
    assert!(p.is_escaped());
    for _ in 0..10 {
        p.step();
        assert!(p.is_escaped());
        assert_eq!(p.count(), 4);
    }
}

#[test]
fn far_point_escapes_in_one_step() {
    let mut p = Point::new(200 * UNIT, -3 * UNIT);
    assert!(!p.is_escaped());
    p.step();
    assert!(p.is_escaped());
    assert_eq!(p.count(), 1);
}

#[test]
fn fresh_field_draws_opaque_black() {
    let f = Fractal::new(4, 3);
    let mut frame = vec![7u8; 4 * 3 * 4];
    f.draw(&mut frame);
    for px in frame.chunks(4) {
        assert_eq!(px, &[0, 0, 0, 255]);
    }
}

#[test]
fn one_tick_golden_output() {
    let mut f = Fractal::new(4, 3);
    f.step(&ms(60));
    let mut frame = vec![0u8; 48];
    f.draw(&mut frame);
    let expected: Vec<u8> = [0u8, 0, 0, 255].iter().copied().cycle().take(48).collect();
    assert_eq!(frame, expected);
}

#[test]
fn ten_ticks_golden_output() {
    let mut f = Fractal::new(4, 3);
    for _ in 0..10 {
        f.step(&ms(51));
    }
    assert_eq!(
        red_channel(&f, 4, 3),
        vec![102, 128, 128, 153, 128, 153, 230, 0, 128, 204, 0, 0]
    );
}

#[test]
fn initial_scales() {
    let f = Fractal::new(4, 3);
    assert_eq!(f.scale_width(), 3 * UNIT);
    assert_eq!(f.scale_height(), 3 * UNIT);
    assert_eq!(WIN_MAX_X - WIN_MIN_X, 3 * UNIT);
    assert_eq!(WIN_MAX_Y - WIN_MIN_Y, 3 * UNIT);
}

#[test]
fn two_zooms_quarter_the_extent() {
    let mut f = Fractal::new(4, 3);
    let w0 = f.scale_width();
    let h0 = f.scale_height();
    f.zoom();
    assert_eq!(f.scale_width(), w0 / 2);
    f.zoom();
    assert_eq!(f.scale_width(), w0 / 4);
    assert_eq!(f.scale_height(), h0 / 4);
}

#[test]
fn zoom_restarts_iteration() {
    let mut f = Fractal::new(4, 3);
    for _ in 0..10 {
        f.step(&ms(51));
    }
    f.zoom();
    assert_eq!(red_channel(&f, 4, 3), vec![0; 12]);
}

fn field_at_two() -> Fractal {
    let mut f = Fractal::new(4, 3);
    // Columns at -0.25, 0.5, 1.25, 2.0 and rows at 0, 0.75, 1.5.
    f.shift(2 * UNIT, 5 * UNIT / 4);
    f
}

#[test]
fn shift_by_zero_keeps_state() {
    let mut f = field_at_two();
    for _ in 0..5 {
        f.step(&ms(51));
    }
    let before = red_channel(&f, 4, 3);
    assert_eq!(before, vec![0, 0, 255, 204, 0, 0, 204, 204, 255, 255, 204, 204]);
    f.shift(0, 0);
    assert_eq!(red_channel(&f, 4, 3), before);
    f.step(&ms(51));
    assert_eq!(
        red_channel(&f, 4, 3),
        vec![0, 0, 213, 170, 0, 255, 170, 170, 213, 213, 170, 170]
    );
}

#[test]
fn shift_moves_viewport_and_restarts() {
    let mut f = field_at_two();
    assert_eq!(f.scale_width(), 3 * UNIT);
    for _ in 0..5 {
        f.step(&ms(51));
    }
    f.shift(UNIT, 0);
    assert_eq!(red_channel(&f, 4, 3), vec![0; 12]);
}

#[test]
fn shift_out_of_range_is_refused() {
    let mut f = field_at_two();
    for _ in 0..4 {
        f.step(&ms(51));
    }
    let before = red_channel(&f, 4, 3);
    f.shift(COORD_MAX, 0);
    assert_eq!(red_channel(&f, 4, 3), before);
    f.step(&ms(51));
    assert_eq!(red_channel(&f, 4, 3)[3], 204);
}

#[test]
fn exactly_one_period_from_rest_takes_one_tick() {
    let mut f = field_at_two();
    for _ in 0..4 {
        f.step(&ms(50));
    }
    // Four ticks, nothing carried; the cell at 2 escaped at its fourth step.
    assert_eq!(
        red_channel(&f, 4, 3),
        vec![0, 0, 0, 255, 0, 0, 255, 255, 0, 0, 255, 255]
    );
    f.step(&ms(50));
    assert_eq!(red_channel(&f, 4, 3)[3], 204);
}

#[test]
fn split_period_takes_one_tick() {
    let mut g = field_at_two();
    g.step(&ms(20));
    g.step(&ms(30));
    // One tick so far; 150 ms more make four.
    g.step(&ms(149));
    assert_eq!(red_channel(&g, 4, 3), vec![0; 12]);
    g.step(&ms(1));
    assert_eq!(red_channel(&g, 4, 3)[3], 255);
}

#[test]
fn two_periods_from_rest_take_two_ticks() {
    let mut f = field_at_two();
    f.step(&ms(100));
    f.step(&ms(100));
    assert_eq!(red_channel(&f, 4, 3)[3], 255);
}

#[test]
fn two_and_a_half_periods_take_two_ticks() {
    let mut f = field_at_two();
    f.step(&ms(125));
    // Two ticks and 25 ms carried; 25 ms more complete the third.
    assert_eq!(red_channel(&f, 4, 3), vec![0; 12]);
    f.step(&ms(25));
    f.step(&ms(49));
    assert_eq!(red_channel(&f, 4, 3)[3], 0);
    f.step(&ms(1));
    assert_eq!(red_channel(&f, 4, 3)[3], 255);
}

#[test]
fn one_more_period_after_carry_takes_one_tick() {
    let mut f = field_at_two();
    f.step(&ms(160));
    // Three ticks, 10 ms carried.
    assert_eq!(red_channel(&f, 4, 3)[3], 0);
    f.step(&ms(50));
    assert_eq!(red_channel(&f, 4, 3)[3], 255);
    f.step(&ms(50));
    assert_eq!(red_channel(&f, 4, 3)[3], 204);
}

#[test]
fn advance_counts_nanoseconds() {
    let mut f = field_at_two();
    f.advance(199_999_999);
    assert_eq!(red_channel(&f, 4, 3)[3], 0);
    f.advance(1);
    assert_eq!(red_channel(&f, 4, 3)[3], 255);
    f.advance(50_000_000);
    assert_eq!(red_channel(&f, 4, 3)[3], 204);
}

#[test]
fn red_level_rounds_half_up() {
    let mut f = field_at_two();
    for _ in 0..7 {
        f.step(&ms(51));
    }
    // 255 * 4 / 7 = 145.71..., 255 * 6 / 7 = 218.57..., 255 * 5 / 7 = 182.14...
    assert_eq!(
        red_channel(&f, 4, 3),
        vec![0, 255, 182, 146, 0, 219, 146, 146, 182, 182, 146, 146]
    );
}

#[test]
fn empty_field_draws_nothing() {
    let mut f = Fractal::new(0, 0);
    f.step(&ms(500));
    f.zoom();
    let mut frame: Vec<u8> = Vec::new();
    f.draw(&mut frame);
    assert!(frame.is_empty());
}

#[test]
fn fits_rejects_unrepresentable_viewports() {
    let xr = (WIN_MIN_X, WIN_MAX_X);
    let yr = (WIN_MIN_Y, WIN_MAX_Y);
    assert!(fits(400, 300, xr, yr));
    assert!(!fits(400, 300, (WIN_MAX_X, WIN_MIN_X), yr));
    assert!(!fits(400, 300, (WIN_MIN_X, COORD_MAX + 1), yr));
    assert!(!fits(1, 1 << 40, xr, yr));
    assert!(fits(1, 1000, xr, yr));
}

use std::time::Duration;

use jelly_cursor::color::COLOR_ALPHA;
use jelly_cursor::cursor::{JellyCursor, DEFAULT_COLOR_SOLID};
use jelly_cursor::double::Double;
use jelly_cursor::geometry::{
    bounds, corner_frequencies, corners_center, corners_equal, frequency, movement, rect_corners,
    rect_i32_to_f64, Point, Rect, RectF, EPS, HALF, HIGHEST_OMEGA, INFINITY, LOWEST_OMEGA,
    MINUS_INFINITY, MINUS_ONE, ONE, POSITION_EPSILON, QUARTER, SPRING_DEFORMATION, SPRING_OMEGA,
    ZERO,
};
use jelly_cursor::raster::NAN;
use jelly_cursor::spring::{
    decay_exponent, seconds, step_critically_damped, SpringState, VELOCITY_EPSILON,
};

fn d(x: f64) -> Double {
    Double::from_bits(x.to_bits())
}

fn f(x: Double) -> f64 {
    f64::from_bits(x.bits)
}

fn exp(x: Double) -> Double {
    d(f(x).exp())
}

fn hypot(x: Double, y: Double) -> Double {
    d(f(x).hypot(f(y)))
}

fn rect(x: f64, y: f64, w: f64, h: f64) -> RectF {
    RectF { loc: Point { x: d(x), y: d(y) }, w: d(w), h: d(h) }
}

fn pixels(x: i32, y: i32, w: i32, h: i32) -> Option<Rect> {
    Some(Rect { x, y, w, h })
}

fn millis(n: u64) -> u128 {
    Duration::from_millis(n).as_nanos()
}

#[test]
fn critical_spring_converges_without_overshoot() {
    let mut position = d(0.0);
    let mut velocity = d(0.0);
    let omega = Double::from_bits(SPRING_OMEGA);
    let dt = d(1.0 / 60.0);
    for _ in 0..60 {
        let decay = exp(decay_exponent(omega, dt));
        step_critically_damped(&mut position, &mut velocity, d(20.0), omega, dt, decay);
        assert!((0.0..=20.0).contains(&f(position)));
    }
    assert!((f(position) - 20.0).abs() < f64::from_bits(POSITION_EPSILON));
}

#[test]
fn set_color_hex_updates_solid_color() {
    let mut jc = JellyCursor::new();
    jc.set_color_hex("#000000");
    assert_eq!(jc.color_solid(), [0, 0, 0, COLOR_ALPHA]);
}

#[test]
fn update_with_none_sets_idle() {
    let mut jc = JellyCursor::new();
    jc.set_enabled(true);
    jc.update(pixels(10, 10, 8, 16), 0, exp, hypot);
    assert!(jc.state().is_some());
    jc.update(None, millis(50), exp, hypot);
    assert!(jc.state().is_none());
    // Re-entry after idle starts settled at the new position.
    jc.update(pixels(30, 30, 8, 16), millis(100), exp, hypot);
    let state = jc.state().unwrap();
    assert!(!state.moving);
    assert!(corners_equal(
        &state.current,
        &rect_corners(rect(30.0, 30.0, 8.0, 16.0))
    ));
}

#[test]
fn update_with_changed_rect_seeds_animation() {
    let mut jc = JellyCursor::new();
    jc.set_enabled(true);
    jc.update(pixels(0, 0, 8, 16), 0, exp, hypot);
    jc.update(pixels(20, 0, 8, 16), millis(10), exp, hypot);
    let state = jc.state().unwrap();
    assert!(state.moving);
    assert!(corners_equal(
        &state.current,
        &rect_corners(rect(0.0, 0.0, 8.0, 16.0))
    ));
    assert!(corners_equal(
        &state.target,
        &rect_corners(rect(20.0, 0.0, 8.0, 16.0))
    ));
}

#[test]
fn update_mid_flight_retargets_without_stalling() {
    let mut jc = JellyCursor::new();
    jc.set_enabled(true);
    jc.update(pixels(0, 0, 8, 16), 0, exp, hypot);
    jc.update(pixels(20, 0, 8, 16), millis(10), exp, hypot);
    jc.update(pixels(40, 0, 8, 16), millis(15), exp, hypot);
    let state = jc.state().unwrap();
    let current_x = f(corners_center(&state.current).x);
    assert!(current_x > 0.0 && current_x < 20.0);
    assert!((f(corners_center(&state.target).x) - 44.0).abs() < 1e-6);
    assert!(
        state.velocity.iter().any(|velocity| f(velocity[0]) > 0.0),
        "velocity = {:?}",
        state.velocity
    );
}

#[test]
fn leading_corners_move_faster_than_trailing_corners() {
    let mut state = SpringState::new(rect(0.0, 0.0, 8.0, 16.0), 0);
    state.retarget(rect(20.0, 0.0, 8.0, 16.0), 0, exp, hypot);
    state.advance_to(millis(50), exp);

    let trailing_displacement = f(state.current[0].x);
    let leading_displacement = f(state.current[1].x) - 8.0;
    assert!(
        leading_displacement > trailing_displacement,
        "leading={leading_displacement}, trailing={trailing_displacement}"
    );
    assert!(f(state.omega[1]) > f(state.omega[0]));
}

#[test]
fn settled_cursor_stays_present() {
    let mut jc = JellyCursor::new();
    jc.set_enabled(true);
    jc.update(pixels(0, 0, 8, 16), 0, exp, hypot);
    jc.update(pixels(20, 0, 8, 16), millis(10), exp, hypot);
    jc.pre_paint(Duration::from_secs(1).as_nanos(), exp);
    let state = jc.state().unwrap();
    assert!(!state.moving);
    assert!(corners_equal(&state.current, &state.target));
}

#[test]
fn constants_are_the_numbers_they_stand_for() {
    assert_eq!(f64::from_bits(SPRING_OMEGA), 26.0);
    assert_eq!(f64::from_bits(SPRING_DEFORMATION), 6.0);
    assert_eq!(f64::from_bits(POSITION_EPSILON), 0.02);
    assert_eq!(f64::from_bits(VELOCITY_EPSILON), 0.5);
    assert_eq!(f64::from_bits(EPS), 1e-9);
    assert_eq!(ZERO, 0.0f64.to_bits());
    assert_eq!(f64::from_bits(QUARTER), 0.25);
    assert_eq!(f64::from_bits(HALF), 0.5);
    assert_eq!(f64::from_bits(ONE), 1.0);
    assert_eq!(f64::from_bits(MINUS_ONE), -1.0);
    assert_eq!(f64::from_bits(INFINITY), f64::INFINITY);
    assert_eq!(f64::from_bits(MINUS_INFINITY), f64::NEG_INFINITY);
    assert!(f64::from_bits(NAN).is_nan());
    assert_eq!(f64::from_bits(LOWEST_OMEGA), 20.0);
    assert_eq!(f64::from_bits(HIGHEST_OMEGA), 32.0);
}

#[test]
fn durations_become_seconds() {
    for t in [
        Duration::ZERO,
        Duration::from_nanos(1),
        Duration::from_millis(16),
        Duration::new(1, 999_999_999),
        Duration::new(86_400 * 365, 123_456_789),
        Duration::new(u64::MAX, 999_999_999),
    ] {
        assert_eq!(seconds(t.as_nanos()).bits, t.as_secs_f64().to_bits(), "{t:?}");
    }
}

#[test]
fn a_new_caret_is_not_followed() {
    let jc = JellyCursor::default();
    assert!(!jc.is_active());
    assert!(jc.state().is_none());
    assert_eq!(jc.color_solid(), DEFAULT_COLOR_SOLID);
    assert_eq!(jc.color_solid(), [0xeb, 0xdc, 0x89, 0xc8]);
    assert_eq!(jc.name(), "jelly_cursor");
    assert_eq!(jc.chain_position(), 77);
    assert!(!jc.post_paint());
    assert_eq!(jc.area(), None);
}

#[test]
fn disabled_carets_ignore_reports() {
    let mut jc = JellyCursor::new();
    jc.update(pixels(1, 2, 3, 4), 0, exp, hypot);
    assert!(jc.state().is_none());
    jc.set_enabled(true);
    assert!(jc.is_active());
    jc.update(pixels(1, 2, 3, 4), 0, exp, hypot);
    assert!(jc.state().is_some());
    jc.set_enabled(false);
    assert!(jc.state().is_none());
    assert!(jc.is_drawable());
    assert_eq!(jc.area(), None);
}

#[test]
fn malformed_colors_are_ignored() {
    let mut jc = JellyCursor::new();
    jc.set_color_hex("#12345678");
    assert_eq!(jc.color_solid(), [0x56, 0x34, 0x12, 0x78]);
    jc.set_color_hex("#1234");
    jc.set_color_hex("a\u{e9}bcd");
    jc.set_color_hex("+f+f+f");
    jc.set_color_hex("##0f0f0f");
    jc.set_color_hex("\u{4e00}\u{4e8c}");
    assert_eq!(jc.color_solid(), [0x56, 0x34, 0x12, 0x78]);
}

#[test]
fn frames_are_needed_while_the_caret_moves() {
    let mut jc = JellyCursor::new();
    jc.set_enabled(true);
    jc.update(pixels(0, 0, 8, 16), 0, exp, hypot);
    assert!(!jc.post_paint());
    jc.update(pixels(200, 100, 8, 16), millis(1), exp, hypot);
    assert!(jc.post_paint());
    let mut frames = 0;
    while jc.post_paint() {
        frames += 1;
        jc.pre_paint(millis(1 + 16 * frames), exp);
        assert!(frames < 200);
    }
    let state = jc.state().unwrap();
    assert_eq!(state.current, state.target);
    assert!(state.velocity.iter().flatten().all(|v| v.bits == ZERO));
    assert_eq!(state.current, rect_corners(rect(200.0, 100.0, 8.0, 16.0)));
}

#[test]
fn a_clock_that_goes_back_moves_nothing() {
    let mut state = SpringState::new(rect(0.0, 0.0, 8.0, 16.0), millis(100));
    state.retarget(rect(20.0, 5.0, 8.0, 16.0), millis(100), exp, hypot);
    let before = state;
    state.advance_to(millis(90), exp);
    assert_eq!(state.current, before.current);
    assert_eq!(state.velocity, before.velocity);
    assert_eq!(state.last_tick, millis(90));
    assert!(state.moving);
    assert_eq!(state.decay_exponents(millis(90)), None);
    assert!(state.decay_exponents(millis(91)).is_some());
}

#[test]
fn repeated_reports_change_nothing() {
    let mut jc = JellyCursor::new();
    jc.set_enabled(true);
    jc.update(pixels(0, 0, 8, 16), 0, exp, hypot);
    jc.update(pixels(20, 7, 8, 16), millis(10), exp, hypot);
    let once = jc.state().unwrap();
    jc.update(pixels(20, 7, 8, 16), millis(10), exp, hypot);
    let twice = jc.state().unwrap();
    assert_eq!(once.current, twice.current);
    assert_eq!(once.target, twice.target);
    assert_eq!(once.velocity, twice.velocity);
    assert_eq!(once.omega, twice.omega);
    assert_eq!(once.moving, twice.moving);
}

#[test]
fn retargeting_keeps_velocities() {
    let mut a = SpringState::new(rect(0.0, 0.0, 8.0, 16.0), 0);
    a.retarget(rect(20.0, 0.0, 8.0, 16.0), 0, exp, hypot);
    let mut b = a;
    a.advance_to(millis(20), exp);
    b.retarget(rect(-40.0, 9.0, 8.0, 16.0), millis(20), exp, hypot);
    assert!(a.velocity[0][0].bits != ZERO);
    assert_eq!(a.velocity, b.velocity);
    assert_eq!(a.current, b.current);
    assert!(b.way_to(rect(-40.0, 9.0, 8.0, 16.0)).is_none());
    assert!(b.way_to(rect(-40.0, 8.0, 8.0, 16.0)).is_some());
}

#[test]
fn rest_is_kept() {
    let mut position = d(20.0);
    let mut velocity = d(0.0);
    let omega = d(26.0);
    let dt = d(0.016);
    let decay = exp(decay_exponent(omega, dt));
    step_critically_damped(&mut position, &mut velocity, d(20.0), omega, dt, decay);
    assert_eq!(f(position), 20.0);
    assert_eq!(f(velocity), 0.0);
}

#[test]
fn corners_of_whole_pixels_are_exact() {
    let c = rect_corners(rect_i32_to_f64(Rect { x: i32::MAX, y: -7, w: i32::MAX, h: 16 }));
    assert_eq!(f(c[0].x), 2147483647.0);
    assert_eq!(f(c[1].x), 4294967294.0);
    assert_eq!(f(c[2].y), 9.0);
    assert_eq!(f(c[3].x), 2147483647.0);
    assert_eq!(f(c[1].y), -7.0);
    let moved = rect_corners(rect(2147483647.0, -7.0, 2147483647.0, 17.0));
    assert!(corners_equal(&c, &c));
    assert!(!corners_equal(&c, &moved));
}

#[test]
fn frequencies_follow_the_way() {
    let from = rect_corners(rect(0.0, 0.0, 8.0, 16.0));
    let to = rect_corners(rect(30.0, 0.0, 8.0, 16.0));
    let way = movement(&from, &to);
    assert_eq!((f(way.x), f(way.y)), (30.0, 0.0));
    let omega = corner_frequencies(&from, &to, hypot(way.x, way.y));
    assert_eq!(omega.map(f), [20.0, 32.0, 32.0, 20.0]);
    let none = corner_frequencies(&from, &from, d(0.0));
    assert_eq!(none.map(f), [26.0; 4]);
    assert_eq!(f(frequency(d(0.5))), 29.0);
    assert_eq!(f(frequency(d(-7.0))), 20.0);
    assert_eq!(f(frequency(d(7.0))), 32.0);
    assert!(frequency(d(f64::NAN)).is_nan());
}

#[test]
fn bounds_leave_out_what_is_no_number() {
    let p = |x: f64, y: f64| Point { x: d(x), y: d(y) };
    let b = bounds(&[p(1.0, 5.0), p(-2.0, 4.0), p(f64::NAN, 9.5), p(0.5, f64::NAN)]);
    assert_eq!(f(b.min_x), -2.0);
    assert_eq!(f(b.max_x), 1.0);
    assert_eq!(f(b.min_y), 4.0);
    assert_eq!(f(b.max_y), 9.5);
    let n = p(f64::NAN, f64::NAN);
    let b = bounds(&[n, n, n, n]);
    assert_eq!(b.min_x.bits, INFINITY);
    assert_eq!(b.max_y.bits, MINUS_INFINITY);
}

#[test]
fn a_caret_at_rest_shows_its_rectangle() {
    let mut jc = JellyCursor::new();
    jc.set_enabled(true);
    jc.set_color_hex("#11223344");
    jc.update(pixels(-5, 1000, 3, 6), 0, exp, hypot);
    assert!(jc.is_drawable());
    let area = jc.area().unwrap();
    assert_eq!(area, Rect { x: -7, y: 998, w: 7, h: 10 });
    let mut data = vec![0xaau8; 7 * 10 * 4];
    jc.paint(&mut data);
    for py in 0..10 {
        for px in 0..7 {
            let inside = (2..5).contains(&px) && (2..8).contains(&py);
            let at = (py * 7 + px) * 4;
            let expected = if inside { [0x33, 0x22, 0x11, 0x44] } else { [0, 0, 0, 0] };
            assert_eq!(data[at..at + 4], expected, "{px}, {py}");
        }
    }
}

#[test]
fn carets_at_the_end_of_the_range_cannot_be_drawn() {
    let mut jc = JellyCursor::new();
    jc.set_enabled(true);
    jc.update(pixels(i32::MIN, 0, 3, 6), 0, exp, hypot);
    assert!(!jc.is_drawable());
    jc.update(None, 1, exp, hypot);
    jc.update(pixels(0, 0, 30000, 30000), 2, exp, hypot);
    assert!(!jc.is_drawable());
}

#[test]
fn time_shows_nothing_new_of_a_caret_at_rest() {
    let mut jc = JellyCursor::new();
    jc.set_enabled(true);
    jc.update(pixels(3, 4, 5, 6), 0, exp, hypot);
    let mut before = vec![0u8; 9 * 10 * 4];
    jc.paint(&mut before);
    jc.pre_paint(millis(5000), exp);
    assert!(!jc.post_paint());
    assert_eq!(jc.state().unwrap().last_tick, millis(5000));
    let mut after = vec![1u8; 9 * 10 * 4];
    jc.paint(&mut after);
    assert_eq!(before, after);
    assert!(before.iter().any(|b| *b != 0));
}

#[test]
fn a_spring_let_go_does_not_overshoot() {
    for start in [-1e6, -3.25, 20.0, 20.5, 1e9] {
        for dt in [0.0, 1e-9, 1.0 / 60.0, 0.5, 100.0] {
            let mut position = d(start);
            let mut velocity = d(0.0);
            let omega = d(32.0);
            let decay = exp(decay_exponent(omega, d(dt)));
            step_critically_damped(&mut position, &mut velocity, d(20.0), omega, d(dt), decay);
            if start <= 20.0 {
                assert!(f(position) <= 20.0);
            }
            if start >= 20.0 {
                assert!(f(position) >= 20.0);
            }
        }
    }
}

#[test]
fn the_outermost_corners_have_the_extreme_frequencies() {
    let from = rect_corners(rect(0.0, 0.0, 8.0, 16.0));
    let to = rect_corners(rect(-30.0, 17.0, 8.0, 16.0));
    let way = movement(&from, &to);
    let omega = corner_frequencies(&from, &to, hypot(way.x, way.y)).map(f);
    // Down and to the left: the lower left corner leads, the upper right one trails.
    assert_eq!(omega[3], 32.0);
    assert_eq!(omega[1], 20.0);
    assert!(20.0 < omega[0] && omega[0] < 32.0);
    assert!(20.0 < omega[2] && omega[2] < 32.0);
}

#[test]
fn every_motion_ends() {
    // A second is enough for a screen, and a minute for every rectangle of whole pixels.
    for (x, y, now) in [
        (20, 0, millis(1000)),
        (9000, -9000, millis(1100)),
        (i32::MAX, i32::MIN, millis(60_000)),
    ] {
        let mut jc = JellyCursor::new();
        jc.set_enabled(true);
        jc.update(pixels(0, 0, 8, 16), 0, exp, hypot);
        jc.update(pixels(x, y, 8, 16), 0, exp, hypot);
        assert!(jc.post_paint());
        jc.pre_paint(now, exp);
        assert!(!jc.post_paint());
        let state = jc.state().unwrap();
        assert_eq!(state.current, state.target);
        assert_eq!(state.current, rect_corners(rect_i32_to_f64(Rect { x, y, w: 8, h: 16 })));
    }
}

#[test]
fn the_frame_rate_does_not_matter() {
    let omega = d(29.5);
    let run = |steps: &[f64]| {
        let mut position = d(-12.25);
        let mut velocity = d(300.0);
        for dt in steps {
            let decay = exp(decay_exponent(omega, d(*dt)));
            step_critically_damped(&mut position, &mut velocity, d(640.0), omega, d(*dt), decay);
        }
        (f(position), f(velocity))
    };
    let once = run(&[0.125]);
    for steps in [vec![0.0625; 2], vec![0.015625; 8], vec![0.1, 0.025]] {
        let often = run(&steps);
        assert!((often.0 - once.0).abs() < 1e-9);
        assert!((often.1 - once.1).abs() < 1e-7);
    }
}

#[test]
fn springs_do_not_overshoot_step_after_step() {
    for (start, goal) in [(0.0, 20.0), (700.0, -31.5)] {
        let mut position = d(start);
        let mut velocity = d(0.0);
        let omega = d(32.0);
        let mut way: f64 = (goal - start as f64).abs();
        for _ in 0..50 {
            let dt = d(1.0 / 144.0);
            let decay = exp(decay_exponent(omega, dt));
            step_critically_damped(&mut position, &mut velocity, d(goal), omega, dt, decay);
            let left = goal - f(position);
            assert!(left * (goal - start) >= 0.0);
            assert!(f(velocity) * (goal - start) >= 0.0);
            assert!(left.abs() <= way);
            way = left.abs();
        }
    }
}

#[test]
fn frequencies_stay_in_their_range() {
    let mut jc = JellyCursor::new();
    jc.set_enabled(true);
    for (i, (x, y)) in [(0, 0), (5, 3), (5, 4), (-700, 12), (-700, 900)].iter().enumerate() {
        jc.update(pixels(*x, *y, 8, 16), millis(7 * i as u64), exp, hypot);
        let state = jc.state().unwrap();
        assert!(state.omega.iter().all(|o| (20.0..=32.0).contains(&f(*o))));
        // Every report is aimed at.
        assert_eq!(
            state.target,
            rect_corners(rect_i32_to_f64(Rect { x: *x, y: *y, w: 8, h: 16 }))
        );
    }
}

#[test]
fn the_sides_of_a_rectangle_bound_its_corners() {
    let r = rect(-3.75, 1e5, 8.125, 0.0);
    let c = rect_corners(r);
    let b = bounds(&c);
    assert_eq!((f(b.min_x), f(b.max_x)), (-3.75, 4.375));
    assert_eq!((f(b.min_y), f(b.max_y)), (1e5, 1e5));
    let m = corners_center(&c);
    assert_eq!((f(m.x), f(m.y)), (0.3125, 1e5));
}

/// Whether `(1 + a) exp(-a)` is less than one by `2^-margin`, for `a = n / 2^40` below one half.
fn shrinks_by(n: u64, margin: u32) -> bool {
    let a = n as f64 / (1u64 << 40) as f64;
    let bits = f(exp(d(-a))).to_bits();
    // From one half up to one, a number is a multiple of 2^-53.
    assert!((0.5..1.0).contains(&f64::from_bits(bits)));
    let b = ((bits & 0xf_ffff_ffff_ffff) | 0x10_0000_0000_0000) as u128;
    ((1u128 << 40) + n as u128) * b <= (1u128 << 93) - (1u128 << (93 - margin))
}

#[test]
fn the_exponential_function_shrinks_every_swing() {
    for n in [1u64 << 14, (1 << 14) + 1, 3 << 14, 99_999, 1 << 18, (1 << 20) - 1] {
        assert!(shrinks_by(n, 60), "{n}");
    }
    for n in [1u64 << 20, (1 << 20) + 7, 1 << 25, 123_456_789, 1 << 35, 1 << 39] {
        assert!(shrinks_by(n, 42), "{n}");
    }
    for a in [0.0, 0.25, 0.5, 0.999, 1.0, 1.001, 2.0, 10.0, 700.0, 1e9] {
        let y = f(exp(d(-a)));
        assert!(y >= 0.0 && a * y <= 0.39);
    }
    for m in 0..1000 {
        assert!(f(exp(d(-(m as f64)))) <= (2.0f64).powi(-m));
    }
}

#[test]
fn a_caret_that_is_chased_around_stays_sound() {
    let places = [(0, 0), (4000, 0), (0, 4000), (4000, 4000), (17, 2000)];
    let mut jc = JellyCursor::new();
    jc.set_enabled(true);
    let mut now: u128 = 0;
    for n in 0..3000u64 {
        let (x, y) = places[(n * n % 7 % 5) as usize];
        jc.update(pixels(x, y, 8, 16), now, exp, hypot);
        now += 1_000 + 7_000_000 * (n % 5) as u128;
        jc.pre_paint(now, exp);
        let s = jc.state().unwrap();
        for i in 0..4 {
            assert!((20.0..=32.0).contains(&f(s.omega[i])));
            let (c, v) = (s.current[i], s.velocity[i]);
            for (p, u) in [(c.x, v[0]), (c.y, v[1])] {
                assert!(f(p).abs() <= 8.0 * 4016.0);
                assert!((f(u) + 26.0 * f(p)).abs() <= 208.0 * 4016.0);
            }
            if !s.moving {
                assert!(f(v[0]).abs() <= 0.5 && f(v[1]).abs() <= 0.5);
            }
        }
        assert!(s.moving || corners_equal(&s.current, &s.target));
    }
    now += 4_000_000_000;
    jc.pre_paint(now, exp);
    let s = jc.state().unwrap();
    assert!(!s.moving);
    assert!(corners_equal(&s.current, &s.target));
    assert_eq!(s.velocity, [[d(0.0); 2]; 4]);
}

#[test]
fn very_short_steps_keep_a_caret_sound() {
    let mut jc = JellyCursor::new();
    jc.set_enabled(true);
    jc.update(pixels(1000, 1000, 8, 16), 0, exp, hypot);
    jc.update(pixels(0, 0, 8, 16), 0, exp, hypot);
    for now in 1..2000u128 {
        jc.pre_paint(now, exp);
        for c in jc.state().unwrap().current {
            assert!(f(c.x).abs() <= 8.0 * 1016.1 && f(c.y).abs() <= 8.0 * 1016.1);
        }
    }
    assert!(jc.state().unwrap().moving);
}

#[test]
fn the_frame_rate_does_not_matter_to_stiff_or_slack_springs() {
    for (omega, dt) in [(1e-6, 1.0), (0.5, 3.0), (4096.0, 1.0 / 1024.0), (1e9, 1e-9)] {
        let run = |steps: &[f64]| {
            let mut position = d(3.5);
            let mut velocity = d(-0.25);
            for dt in steps {
                let (o, t) = (d(omega), d(*dt));
                let decay = exp(decay_exponent(o, t));
                step_critically_damped(&mut position, &mut velocity, d(1000.0), o, t, decay);
            }
            (f(position), f(velocity))
        };
        let (once, twice) = (run(&[2.0 * dt]), run(&[dt, dt]));
        assert!((once.0 - twice.0).abs() <= 1e-9 * 1000.0);
        assert!((once.1 - twice.1).abs() <= 1e-9 * 1000.0 * (1.0 + omega));
    }
}

#[test]
fn every_motion_ends_frame_by_frame() {
    // Frames of a millisecond, of a sixtieth of a second, of a quarter, and all sorts of them.
    let gaps: [&[u128]; 4] = [&[1], &[16, 17, 17], &[250], &[1, 40, 3, 700, 9, 199]];
    for gap in gaps {
        let mut jc = JellyCursor::new();
        jc.set_enabled(true);
        jc.update(pixels(0, 0, 8, 16), 0, exp, hypot);
        jc.update(pixels(8000, -8000, 9, 20), 0, exp, hypot);
        let mut now: u128 = 0;
        let mut frames = 0;
        // The coordinates are at most 2^13.
        while now < 27 * 200_000_000 {
            now += gap[frames % gap.len()] * 1_000_000;
            frames += 1;
            jc.pre_paint(now, exp);
        }
        let s = jc.state().unwrap();
        assert!(!s.moving);
        let goal = rect_corners(rect(8000.0, -8000.0, 9.0, 20.0));
        for i in 0..4 {
            assert_eq!(s.current[i].x.bits, goal[i].x.bits);
            assert_eq!(s.current[i].y.bits, goal[i].y.bits);
        }
    }
}

#[test]
fn a_caret_in_motion_shows_its_shape() {
    let mut jc = JellyCursor::new();
    jc.set_enabled(true);
    jc.update(pixels(10, 10, 8, 16), 0, exp, hypot);
    jc.update(pixels(90, 60, 8, 16), 0, exp, hypot);
    let mut seen = 0;
    for n in 1..8 {
        jc.pre_paint(millis(15 * n), exp);
        assert!(jc.is_drawable());
        let area = jc.area().unwrap();
        let mut data = vec![0x55u8; (4 * area.w * area.h) as usize];
        jc.paint(&mut data);
        let corners = jc.state().unwrap().current;
        for py in 0..area.h {
            for px in 0..area.w {
                let (x, y) = ((area.x + px) as f64, (area.y + py) as f64 + 0.5);
                // How far the point is inside of each side.
                let nearest = (0..4)
                    .map(|i| {
                        let (a, b) = (corners[i], corners[(i + 1) % 4]);
                        let (dx, dy) = (f(b.x) - f(a.x), f(b.y) - f(a.y));
                        (dx * (y - f(a.y)) - dy * (x - f(a.x))) / dx.hypot(dy)
                    })
                    .fold(f64::INFINITY, f64::min);
                let at = ((py * area.w + px) * 4) as usize;
                if nearest > 1e-6 {
                    assert_eq!(data[at..at + 4], DEFAULT_COLOR_SOLID);
                    seen += 1;
                } else if nearest < -1e-6 {
                    assert_eq!(data[at..at + 4], [0; 4]);
                }
            }
        }
    }
    assert!(seen > 500);
}

use glyph_raster::subdivider::{recursive_subdivide, Subdivider, SubdivisionError};
use glyph_raster::subdivision::{Interval, SubdivisionMethod, MAX_DEPTH, UNIT};

#[derive(Debug, Clone, Copy)]
struct Point {
    x: f32,
    y: f32,
}

#[derive(Debug, Clone, Copy)]
struct Curve {
    p0: Point,
    p1: Point,
    p2: Point,
}

fn parameter(steps: u32) -> f32 {
    steps as f32 / UNIT as f32
}

fn eval(c: &Curve, t: f32) -> Point {
    let s = 1.0 - t;
    Point {
        x: c.p0.x * s * s + 2.0 * c.p1.x * t * s + c.p2.x * t * t,
        y: c.p0.y * s * s + 2.0 * c.p1.y * t * s + c.p2.y * t * t,
    }
}

fn subsegment(c: &Curve, t0: f32, t1: f32) -> Curve {
    let (p0, p2) = (eval(c, t0), eval(c, t1));
    let dt = t1 - t0;
    let p1 = Point {
        x: p0.x + (c.p1.x - c.p0.x + t0 * (c.p2.x - 2.0 * c.p1.x + c.p0.x)) * dt,
        y: p0.y + (c.p1.y - c.p0.y + t0 * (c.p2.y - 2.0 * c.p1.y + c.p0.y)) * dt,
    };
    Curve { p0, p1, p2 }
}

fn deviation(c: &Curve) -> f32 {
    let (x1, y1) = (c.p1.x - c.p0.x, c.p1.y - c.p0.y);
    let (x2, y2) = (c.p2.x - c.p0.x, c.p2.y - c.p0.y);
    let t = (x1 * x2 + y1 * y2) / (x2 * x2 + y2 * y2);
    let u = glyph_raster::geometry::clamp(t, 0.0, 1.0);
    let (px, py) = (c.p0.x + x2 * u, c.p0.y + y2 * u);
    0.5 * f32::hypot(c.p1.x - px, c.p1.y - py)
}

fn flat_over(c: &Curve, tolerance: f32, range: Interval) -> bool {
    deviation(&subsegment(c, parameter(range.start), parameter(range.end))) <= tolerance
}

fn flatten(c: &Curve, tolerance: f32) -> Vec<u32> {
    recursive_subdivide(|range: Interval| flat_over(c, tolerance, range)).unwrap()
}

fn approximate_integral(x: f32) -> f32 {
    const D: f32 = 0.67;
    x / (1.0 - D + f32::powf(f32::powf(D, 4.0) + 0.25 * x * x, 0.25))
}

fn approximate_inverse_integral(x: f32) -> f32 {
    const B: f32 = 0.39;
    x * (1.0 - B + f32::sqrt(B * B - 0.25 * x * x))
}

fn parabola_parameters(c: &Curve, tolerance: f32) -> Vec<f32> {
    let ddx = 2.0 * c.p1.x - c.p0.x - c.p2.x;
    let ddy = 2.0 * c.p1.y - c.p0.y - c.p2.y;
    let u0 = (c.p1.x - c.p0.x) * ddx + (c.p1.y - c.p0.y) * ddy;
    let u2 = (c.p2.x - c.p1.x) * ddx + (c.p2.y - c.p1.y) * ddy;
    let cross = (c.p2.x - c.p0.x) * ddy - (c.p2.y - c.p0.y) * ddx;
    let (x0, x2) = (u0 / cross, u2 / cross);
    let scale = f32::abs(cross) / (f32::hypot(ddx, ddy) * f32::abs(x2 - x0));
    let (a0, a2) = (approximate_integral(x0), approximate_integral(x2));
    let n = f32::ceil(0.5 * f32::abs(a2 - a0) * f32::sqrt(scale / tolerance));
    let (v0, v2) = (approximate_inverse_integral(a0), approximate_inverse_integral(a2));
    let mut result = vec![0.0_f32];
    for i in 1..(n as i32) {
        let u = approximate_inverse_integral(a0 + ((a2 - a0) * (i as f32)) / n);
        result.push((u - v0) / (v2 - v0));
    }
    result.push(1.0);
    result
}

fn sample_curve() -> Curve {
    Curve {
        p0: Point { x: 100.0, y: 400.0 },
        p1: Point { x: 300.0, y: 400.0 },
        p2: Point { x: 500.0, y: 100.0 },
    }
}

#[test]
fn unit_is_two_to_the_depth() {
    assert_eq!(UNIT, 1u32 << MAX_DEPTH);
    assert_eq!(UNIT, 8_388_608);
}

#[test]
fn every_step_is_exact_in_single_precision() {
    assert_eq!(parameter(0), 0.0);
    assert_eq!(parameter(UNIT), 1.0);
    assert_eq!(parameter(UNIT / 2), 0.5);
    assert_eq!(parameter(1) * UNIT as f32, 1.0);
    assert_eq!(parameter(UNIT - 1) + parameter(1), 1.0);
}

#[test]
fn methods_are_labelled() {
    assert_eq!(SubdivisionMethod::DeCasteljau.label(), "recursive");
    assert_eq!(SubdivisionMethod::ParabolaApprox.label(), "smart");
}

#[test]
fn methods_compare_by_variant() {
    assert_eq!(SubdivisionMethod::DeCasteljau, SubdivisionMethod::DeCasteljau);
    assert_ne!(SubdivisionMethod::DeCasteljau, SubdivisionMethod::ParabolaApprox);
}

#[test]
fn whole_range_runs_from_zero_to_unit() {
    assert_eq!(Interval::whole(), Interval { start: 0, end: UNIT });
}

#[test]
fn halves_split_at_the_midpoint() {
    let (left, right) = Interval::whole().halves().unwrap();
    assert_eq!(left, Interval { start: 0, end: UNIT / 2 });
    assert_eq!(right, Interval { start: UNIT / 2, end: UNIT });
    let (a, b) = right.halves().unwrap();
    assert_eq!(a, Interval { start: UNIT / 2, end: 3 * (UNIT / 4) });
    assert_eq!(b, Interval { start: 3 * (UNIT / 4), end: UNIT });
}

#[test]
fn a_single_step_has_no_halves() {
    assert_eq!(Interval { start: 6, end: 7 }.halves(), None);
    assert_eq!(
        Interval { start: 6, end: 8 }.halves(),
        Some((Interval { start: 6, end: 7 }, Interval { start: 7, end: 8 }))
    );
}

#[test]
fn subdivider_starts_with_the_whole_range() {
    let s = Subdivider::new();
    assert!(!s.is_done());
    assert_eq!(s.current(), Some(Interval { start: 0, end: UNIT }));
    assert_eq!(s.into_parameters(), vec![0]);
}

#[test]
fn a_flat_answer_emits_the_end_of_the_range() {
    let mut s = Subdivider::new();
    assert_eq!(s.answer(true), Ok(()));
    assert!(s.is_done());
    assert_eq!(s.current(), None);
    assert_eq!(s.into_parameters(), vec![0, UNIT]);
}

#[test]
fn a_rejected_range_is_replaced_by_its_halves_left_first() {
    let mut s = Subdivider::new();
    assert_eq!(s.answer(false), Ok(()));
    assert_eq!(s.current(), Some(Interval { start: 0, end: UNIT / 2 }));
    assert_eq!(s.answer(true), Ok(()));
    assert_eq!(s.current(), Some(Interval { start: UNIT / 2, end: UNIT }));
    assert_eq!(s.answer(false), Ok(()));
    assert_eq!(s.current(), Some(Interval { start: UNIT / 2, end: 3 * (UNIT / 4) }));
    assert_eq!(s.answer(true), Ok(()));
    assert_eq!(s.current(), Some(Interval { start: 3 * (UNIT / 4), end: UNIT }));
    assert_eq!(s.answer(true), Ok(()));
    assert!(s.is_done());
    assert_eq!(s.into_parameters(), vec![0, UNIT / 2, 3 * (UNIT / 4), UNIT]);
}

#[test]
fn an_answer_after_the_end_is_refused() {
    let mut s = Subdivider::new();
    assert_eq!(s.answer(true), Ok(()));
    assert_eq!(s.answer(true), Err(SubdivisionError::Finished));
    assert_eq!(s.answer(false), Err(SubdivisionError::Finished));
    assert_eq!(s.into_parameters(), vec![0, UNIT]);
}

#[test]
fn a_single_step_cannot_be_rejected() {
    let mut s = Subdivider::new();
    for depth in 0..MAX_DEPTH {
        assert_eq!(s.current(), Some(Interval { start: 0, end: UNIT >> depth }));
        assert_eq!(s.answer(false), Ok(()));
    }
    assert_eq!(s.current(), Some(Interval { start: 0, end: 1 }));
    assert_eq!(s.answer(false), Err(SubdivisionError::TooFine));
    assert_eq!(s.current(), Some(Interval { start: 0, end: 1 }));
    assert_eq!(s.answer(true), Ok(()));
    assert_eq!(s.current(), Some(Interval { start: 1, end: 2 }));
    assert_eq!(s.into_parameters(), vec![0, 1]);
}

#[test]
fn bisection_with_every_range_flat_gives_two_parameters() {
    assert_eq!(recursive_subdivide(|_: Interval| true), Ok(vec![0, UNIT]));
}

#[test]
fn bisection_that_is_never_flat_gives_up() {
    assert_eq!(recursive_subdivide(|_: Interval| false), Err(SubdivisionError::TooFine));
}

#[test]
fn bisection_down_to_quarters() {
    let quarter = UNIT / 4;
    let r = recursive_subdivide(|range: Interval| range.end - range.start <= quarter);
    assert_eq!(r, Ok(vec![0, quarter, 2 * quarter, 3 * quarter, UNIT]));
}

#[test]
fn bisection_is_finer_where_the_judge_asks_for_it() {
    let eighth = UNIT / 8;
    let r = recursive_subdivide(|range: Interval| {
        if range.start < UNIT / 2 {
            range.end - range.start <= eighth
        } else {
            range.end - range.start <= 2 * eighth
        }
    });
    assert_eq!(
        r,
        Ok(vec![0, eighth, 2 * eighth, 3 * eighth, 4 * eighth, 6 * eighth, UNIT])
    );
}

#[test]
fn bisection_down_to_single_steps_near_zero_succeeds() {
    let r = recursive_subdivide(|range: Interval| range.start > 0 || range.end == 1).unwrap();
    assert_eq!(r.len(), MAX_DEPTH as usize + 2);
    assert_eq!(&r[..4], &[0, 1, 2, 4]);
    assert_eq!(r[r.len() - 1], UNIT);
}

#[test]
fn bisection_asks_about_each_range_once_and_in_order() {
    let asked = std::cell::RefCell::new(Vec::new());
    let r = recursive_subdivide(|range: Interval| {
        asked.borrow_mut().push((range.start, range.end));
        range.end - range.start <= UNIT / 2
    });
    assert_eq!(r, Ok(vec![0, UNIT / 2, UNIT]));
    assert_eq!(
        asked.into_inner(),
        vec![(0, UNIT), (0, UNIT / 2), (UNIT / 2, UNIT)]
    );
}

#[test]
fn a_curve_on_a_line_gives_exactly_two_parameters() {
    let straight = Curve {
        p0: Point { x: 0.0, y: 0.0 },
        p1: Point { x: 5.0, y: 5.0 },
        p2: Point { x: 10.0, y: 10.0 },
    };
    assert_eq!(deviation(&straight), 0.0);
    let steps = flatten(&straight, 1.0);
    assert_eq!(steps, vec![0, UNIT]);
    assert_eq!(parameter(steps[0]), 0.0);
    assert_eq!(parameter(steps[1]), 1.0);
}

#[test]
fn a_curve_without_length_is_reported() {
    let dot = Curve {
        p0: Point { x: 3.0, y: 3.0 },
        p1: Point { x: 3.0, y: 3.0 },
        p2: Point { x: 3.0, y: 3.0 },
    };
    let r = recursive_subdivide(|range: Interval| flat_over(&dot, 1.0, range));
    assert_eq!(r, Err(SubdivisionError::TooFine));
}

#[test]
fn sample_curve_at_tolerance_one() {
    let c = sample_curve();
    let steps = flatten(&c, 1.0);
    let s = UNIT / 16;
    assert_eq!(
        steps,
        vec![0, s, 2 * s, 3 * s, 4 * s, 5 * s, 6 * s, 8 * s, 10 * s, 12 * s, 14 * s, UNIT]
    );
    let first = eval(&c, parameter(steps[0]));
    let last = eval(&c, parameter(steps[steps.len() - 1]));
    assert_eq!((first.x, first.y), (100.0, 400.0));
    assert_eq!((last.x, last.y), (500.0, 100.0));
}

#[test]
fn sample_curve_by_both_methods() {
    let c = sample_curve();
    let by_bisection: Vec<f32> = flatten(&c, 1.0).iter().map(|s| parameter(*s)).collect();
    let by_parabola = parabola_parameters(&c, 1.0);
    assert_eq!(by_bisection.len() - 1, 11);
    assert_eq!(by_parabola.len() - 1, 8);
    for parameters in [&by_bisection, &by_parabola] {
        let first = eval(&c, parameters[0]);
        let last = eval(&c, parameters[parameters.len() - 1]);
        assert_eq!((first.x, first.y), (100.0, 400.0));
        assert_eq!((last.x, last.y), (500.0, 100.0));
        assert!(parameters.windows(2).all(|w| w[0] < w[1]));
    }
}

#[test]
fn parameters_start_at_zero_end_at_one_and_rise() {
    let c = sample_curve();
    for tolerance in [10.0_f32, 2.5, 1.0, 0.25, 0.01] {
        let steps = flatten(&c, tolerance);
        assert!(steps.len() >= 2);
        assert_eq!(steps[0], 0);
        assert_eq!(steps[steps.len() - 1], UNIT);
        assert!(steps.windows(2).all(|w| w[0] < w[1]));
    }
}

#[test]
fn every_emitted_segment_is_within_tolerance() {
    let c = sample_curve();
    for tolerance in [2.5_f32, 1.0, 0.25, 0.01] {
        let steps = flatten(&c, tolerance);
        for w in steps.windows(2) {
            let part = subsegment(&c, parameter(w[0]), parameter(w[1]));
            assert!(deviation(&part) <= tolerance);
        }
    }
}

#[test]
fn every_emitted_segment_is_a_dyadic_range() {
    let steps = flatten(&sample_curve(), 0.25);
    for w in steps.windows(2) {
        let width = w[1] - w[0];
        assert!(width.is_power_of_two());
        assert_eq!(w[0] % width, 0);
    }
}

#[test]
fn a_smaller_tolerance_never_gives_fewer_segments() {
    let c = sample_curve();
    let counts: Vec<usize> = [10.0_f32, 2.5, 1.0, 0.25, 0.01]
        .iter()
        .map(|tolerance| flatten(&c, *tolerance).len() - 1)
        .collect();
    assert!(counts.windows(2).all(|w| w[0] <= w[1]));
    assert_eq!(counts[1], 8);
    assert_eq!(counts[2], 11);
    assert_eq!(counts[3], 23);
}

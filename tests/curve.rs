use path_utils::{Curve, Line, PathCommand, Point, ONE};

fn pt(x: i32, y: i32) -> Point {
    Point::new(x * ONE, y * ONE)
}

fn curve(p0: Point, c: Point, p1: Point) -> Curve {
    Curve::new(&p0, &c, &p1)
}

fn max_x(c: &Curve) -> i32 {
    c.endpoints[0].x.max(c.control_point.x).max(c.endpoints[1].x)
}

fn min_x(c: &Curve) -> i32 {
    c.endpoints[0].x.min(c.control_point.x).min(c.endpoints[1].x)
}

#[test]
fn new_stores_points_in_order() {
    let c = curve(pt(1, 2), pt(3, 4), pt(5, 6));
    assert_eq!(c.endpoints, [pt(1, 2), pt(5, 6)]);
    assert_eq!(c.control_point, pt(3, 4));
}

#[test]
fn arch_sampled_at_half() {
    let c = curve(pt(0, 0), pt(5, 10), pt(10, 0));
    assert_eq!(c.sample(ONE / 2), pt(5, 5));
}

#[test]
fn arch_bisected() {
    let c = curve(pt(0, 0), pt(5, 10), pt(10, 0));
    let (a, b) = c.subdivide(ONE / 2);
    assert_eq!(a.endpoints, [pt(0, 0), pt(5, 5)]);
    assert_eq!(a.control_point, Point::new(5 * ONE / 2, 5 * ONE));
    assert_eq!(b.endpoints, [pt(5, 5), pt(10, 0)]);
    assert_eq!(b.control_point, Point::new(15 * ONE / 2, 5 * ONE));
}

#[test]
fn flat_curve_has_no_inflection() {
    let c = curve(pt(0, 0), pt(5, 0), pt(10, 0));
    assert_eq!(c.inflection_points(), (None, None));
}

#[test]
fn sample_at_ends_is_exact() {
    let c = curve(Point::new(-7, 123_456), Point::new(99_999, -3), Point::new(31_337, 42));
    assert_eq!(c.sample(0), c.endpoints[0]);
    assert_eq!(c.sample(ONE), c.endpoints[1]);
}

#[test]
fn subdivide_keeps_endpoints_and_joins() {
    let c = curve(Point::new(1_000, -2_000), Point::new(777_777, 300_001), Point::new(-50_000, 9));
    for t in [0, 1, ONE / 3, ONE / 2, 2 * ONE / 3, ONE - 1, ONE, -ONE / 4, 5 * ONE / 4] {
        let (a, b) = c.subdivide(t);
        assert_eq!(a.endpoints[0], c.endpoints[0]);
        assert_eq!(b.endpoints[1], c.endpoints[1]);
        assert_eq!(a.sample(ONE), b.sample(0));
        assert_eq!(b.sample(0), c.sample(t));
    }
}

#[test]
fn sample_extrapolates_outside_unit_range() {
    let c = curve(pt(0, 0), pt(5, 5), pt(10, 10));
    assert_eq!(c.sample(2 * ONE), pt(20, 20));
    assert_eq!(c.sample(-ONE), pt(-10, -10));
}

#[test]
fn lerp_interpolates_and_extrapolates() {
    assert_eq!(pt(0, 0).lerp(pt(10, 20), ONE / 4), Point::new(5 * ONE / 2, 5 * ONE));
    assert_eq!(pt(0, 0).lerp(pt(10, 0), 2 * ONE), pt(20, 0));
    assert_eq!(Point::new(0, 0).lerp(Point::new(-3, 3), ONE / 2), Point::new(-1, 1));
}

#[test]
fn solve_on_straight_curve() {
    let c = curve(pt(0, 0), pt(5, 5), pt(10, 10));
    assert_eq!(c.solve_t_for_x(5 * ONE / 2), ONE / 4);
    assert_eq!(c.solve_y_for_x(5 * ONE / 2), 5 * ONE / 2);
    assert_eq!(c.solve_t_for_x(0), 0);
    assert_eq!(c.solve_t_for_x(10 * ONE), ONE);
}

#[test]
fn solve_on_straight_curve_lands_just_below_x() {
    let c = curve(pt(0, 0), pt(5, 5), pt(10, 10));
    for x in [1, 7 * ONE + 12_345, 9 * ONE + 1, 10 * ONE - 1] {
        let p = c.sample(c.solve_t_for_x(x));
        assert!(p.x <= x);
        assert!((ONE as i64) * ((x - p.x) as i64) < 12 * (ONE as i64));
    }
}

#[test]
fn solve_on_bent_curve_lands_on_x() {
    let c = curve(pt(0, 0), pt(4, 0), pt(10, 10));
    for x in [ONE / 2, 3 * ONE, 5 * ONE, 7 * ONE + 12_345, 9 * ONE] {
        let t = c.solve_t_for_x(x);
        let p = c.sample(t);
        assert!((p.x - x).abs() <= 64, "x {} gave {}", x, p.x);
        assert_eq!(c.solve_y_for_x(x), p.y);
    }
}

#[test]
fn solve_clamps_outside_x_range() {
    let c = curve(pt(0, 0), pt(5, 5), pt(10, 10));
    assert_eq!(c.solve_t_for_x(-5 * ONE), 0);
    assert_eq!(c.solve_t_for_x(20 * ONE), ONE);
    let d = curve(pt(10, 0), pt(4, 3), pt(0, 10));
    assert_eq!(d.solve_t_for_x(-5 * ONE), ONE);
    assert_eq!(d.solve_t_for_x(20 * ONE), 0);
    for x in [-5 * ONE, 20 * ONE, i32::MIN, i32::MAX] {
        let t = d.solve_t_for_x(x);
        assert!(0 <= t && t <= ONE);
        let t = c.solve_t_for_x(x);
        assert!(0 <= t && t <= ONE);
    }
}

#[test]
fn solve_on_single_point_curve() {
    let c = curve(pt(3, 3), pt(3, 3), pt(3, 3));
    assert_eq!(c.solve_t_for_x(2 * ONE), ONE);
    assert_eq!(c.solve_t_for_x(3 * ONE), 0);
    assert_eq!(c.solve_t_for_x(4 * ONE), 0);
}

#[test]
fn solve_with_negative_discriminant_gives_zero() {
    let c = curve(pt(0, 0), pt(10, 0), pt(0, 0));
    assert_eq!(c.solve_t_for_x(6 * ONE), 0);
}

#[test]
fn subdivide_at_x_orders_increasing_curve() {
    let c = curve(pt(0, 0), pt(4, 8), pt(10, 10));
    let (left, right) = c.subdivide_at_x(4 * ONE);
    assert!(max_x(&left) <= min_x(&right));
    assert_eq!(left.endpoints[0], c.endpoints[0]);
    assert_eq!(right.endpoints[1], c.endpoints[1]);
    assert!((left.endpoints[1].x - 4 * ONE).abs() <= 64);
}

#[test]
fn subdivide_at_x_orders_decreasing_curve() {
    let c = curve(pt(10, 0), pt(5, 5), pt(0, 10));
    let (left, right) = c.subdivide_at_x(4 * ONE);
    assert!(max_x(&left) <= min_x(&right));
    assert_eq!(left.endpoints[0], right.endpoints[1]);
    assert_eq!(left.endpoints[1], c.endpoints[1]);
    assert_eq!(right.endpoints[0], c.endpoints[0]);
}

#[test]
fn subdivide_at_x_on_bent_decreasing_curve() {
    let c = curve(pt(10, 0), pt(4, 3), pt(0, 10));
    let (left, right) = c.subdivide_at_x(4 * ONE);
    assert!(max_x(&left) <= min_x(&right));
    assert_eq!(left.endpoints[0], right.endpoints[1]);
    assert_eq!(right.endpoints[0], c.endpoints[0]);
}

#[test]
fn straight_curve_off_center_has_no_inflection() {
    let c = curve(pt(0, 0), pt(2, 2), pt(10, 10));
    assert_eq!(c.inflection_points(), (None, None));
}

#[test]
fn turning_channel_reports_inflection() {
    let c = curve(pt(0, 0), pt(10, 10), pt(0, 20));
    assert_eq!(c.inflection_points(), (Some(ONE / 2), None));
    let d = curve(pt(0, 0), pt(3, 12), pt(4, 0));
    assert_eq!(d.inflection_points(), (None, Some(ONE / 2)));
}

#[test]
fn inflection_near_endpoint_is_not_reported() {
    let near_start = curve(Point::new(0, 0), Point::new(1, 0), Point::new(-65_534, 0));
    assert_eq!(near_start.inflection_points(), (None, None));
    let inside = curve(Point::new(0, 0), Point::new(2, 0), Point::new(-65_530, 0));
    assert_eq!(inside.inflection_points(), (Some(2), None));
}

#[test]
fn baseline_joins_endpoints() {
    let c = curve(pt(1, 2), pt(3, 4), pt(5, 6));
    let l = c.baseline();
    assert_eq!(l, Line::new(&pt(1, 2), &pt(5, 6)));
    assert_eq!(l.endpoints, [pt(1, 2), pt(5, 6)]);
}

#[test]
fn path_segment_carries_control_and_end() {
    let c = curve(pt(1, 2), pt(3, 4), pt(5, 6));
    assert_eq!(c.to_path_segment(), PathCommand::CurveTo(pt(3, 4), pt(5, 6)));
}

#[test]
fn decreasing_arch_split_at_x() {
    let c = curve(pt(10, 0), pt(5, 10), pt(0, 0));
    let (left, right) = c.subdivide_at_x(5 * ONE);
    assert_eq!(left.endpoints, [pt(5, 5), pt(0, 0)]);
    assert_eq!(left.control_point, Point::new(5 * ONE / 2, 5 * ONE));
    assert_eq!(right.endpoints, [pt(10, 0), pt(5, 5)]);
    assert_eq!(right.control_point, Point::new(15 * ONE / 2, 5 * ONE));
    assert_eq!(c.solve_y_for_x(5 * ONE), 5 * ONE);
}

#[test]
fn solve_on_bent_decreasing_curve() {
    let c = curve(pt(10, 0), pt(4, 3), pt(0, 10));
    let x = 9 * ONE / 2;
    assert_eq!(c.solve_t_for_x(x), ONE / 2);
    assert_eq!(c.sample(ONE / 2).x, x);
    for x in [ONE / 2, 3 * ONE, 5 * ONE, 7 * ONE + 12_345, 9 * ONE] {
        let p = c.sample(c.solve_t_for_x(x));
        assert!((p.x - x).abs() <= 64, "x {} gave {}", x, p.x);
    }
}

#[test]
fn decreasing_curve_split_point_lands_on_x() {
    let c = curve(pt(10, 0), pt(4, 3), pt(0, 10));
    for x in [ONE, 4 * ONE, 6 * ONE + 777] {
        let (left, right) = c.subdivide_at_x(x);
        assert_eq!(left.endpoints[0], right.endpoints[1]);
        assert!((left.endpoints[0].x - x).abs() <= 64, "x {} split at {}", x, left.endpoints[0].x);
    }
}

#[test]
fn solve_on_straight_decreasing_curve() {
    let c = curve(pt(10, 10), pt(5, 5), pt(0, 0));
    assert_eq!(c.solve_t_for_x(5 * ONE / 2), 3 * ONE / 4);
    assert_eq!(c.solve_y_for_x(5 * ONE / 2), 5 * ONE / 2);
    for x in [1, 7 * ONE + 12_345, 10 * ONE - 1] {
        let p = c.sample(c.solve_t_for_x(x));
        assert!(p.x >= x);
        assert!((ONE as i64) * ((p.x - x) as i64) < 12 * (ONE as i64));
    }
}

#[test]
fn fits_inside_and_outside_unit_range() {
    let c = curve(pt(0, 0), pt(5, 5), pt(10, 10));
    assert!(c.fits(0) && c.fits(ONE) && c.fits(2 * ONE) && c.fits(-ONE));
    assert!(!c.fits(i32::MAX));
    let wide = curve(pt(-30_000, 0), pt(0, 0), pt(30_000, 0));
    assert!(!wide.fits(2 * ONE));
}

#[test]
fn checked_lerp_reports_overflow() {
    assert_eq!(pt(0, 0).checked_lerp(pt(10, 0), 2 * ONE), Some(pt(20, 0)));
    assert_eq!(pt(0, 0).checked_lerp(pt(30_000, 0), 2 * ONE), None);
}

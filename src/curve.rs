//! Quadratic Bézier segments: evaluation, subdivision, root solving in x and
//! inflection detection, all exact over 16.16 fixed point.

use crate::path::{Line, PathCommand};
use crate::point::{
    div_trunc, lemma_lerp_coord_between, lemma_lerp_fits_in_range, lerp_coord, lerp_fits, lerp_point,
    Point, ONE,
};
use vstd::arithmetic::div_mod::{
    lemma_div_by_multiple, lemma_div_is_ordered, lemma_div_pos_is_pos, lemma_fundamental_div_mod,
};
use vstd::prelude::*;

verus! {

/// How far inside `(0, ONE)` a turning point must lie to be reported: one unit,
/// so that turning points that round onto an endpoint are not reported.
pub const INFLECTION_EPSILON: i32 = 1;

/// A quadratic Bézier segment: it starts at `endpoints[0]`, ends at
/// `endpoints[1]` and is pulled toward `control_point`. Any three points are a
/// curve.
#[derive(Clone, Copy, PartialEq, Eq, Debug)]
pub struct Curve {
    pub endpoints: [Point; 2],
    pub control_point: Point,
}

/// `r` is the square root of `n` rounded down.
pub open spec fn is_floor_sqrt(n: int, r: int) -> bool {
    0 <= r && r * r <= n && n < (r + 1) * (r + 1)
}

/// The square root of `n` rounded down, for `n >= 0`.
pub open spec fn floor_sqrt(n: int) -> int {
    choose|r: int| is_floor_sqrt(n, r)
}

/// The parameter `num / den`, in units of `1 / ONE` when `num` is already
/// scaled by `ONE`, rounded toward zero and clamped to `[0, ONE]`. A zero
/// denominator clamps to `ONE` for a positive numerator and to `0` otherwise.
pub open spec fn clamped_ratio(num: int, den: int) -> int {
    if den == 0 {
        if num > 0 {
            ONE as int
        } else {
            0
        }
    } else if num == 0 || (num > 0) != (den > 0) {
        0
    } else {
        let q = if num > 0 {
            num / den
        } else {
            (-num) / (-den)
        };
        if q > ONE {
            ONE as int
        } else {
            q
        }
    }
}

/// The parameter at which a single coordinate channel running from `e0`
/// through control `c` to `e1` turns, when it lies strictly between
/// `INFLECTION_EPSILON` and `ONE - INFLECTION_EPSILON`.
pub open spec fn inflection_t(e0: int, c: int, e1: int) -> Option<i32> {
    let num = e0 - c;
    let den = e0 - 2 * c + e1;
    if den == 0 {
        None
    } else {
        let t = if den > 0 {
            div_trunc(num * ONE, den)
        } else {
            div_trunc(-num * ONE, -den)
        };
        if INFLECTION_EPSILON < t < ONE - INFLECTION_EPSILON {
            Some(t as i32)
        } else {
            None
        }
    }
}

/// `c` lies between `a` and `b`, inclusive.
pub open spec fn between(a: int, c: int, b: int) -> bool {
    (a <= c && c <= b) || (b <= c && c <= a)
}

impl Curve {
    /// The curve has start `p0`, control point `c` and end `p1`.
    pub open spec fn has_points(self, p0: Point, c: Point, p1: Point) -> bool {
        self.endpoints[0] == p0 && self.control_point == c && self.endpoints[1] == p1
    }

    /// The interpolations that evaluating or splitting at `t` makes all fit.
    pub open spec fn fits_at(self, t: int) -> bool {
        let (p0, p1, p2) = (self.endpoints[0], self.control_point, self.endpoints[1]);
        lerp_fits(p0, p1, t) && lerp_fits(p1, p2, t) && lerp_fits(
            lerp_point(p0, p1, t),
            lerp_point(p1, p2, t),
            t,
        )
    }

    /// The point at parameter `t`, by one level of de Casteljau interpolation.
    pub open spec fn point_at(self, t: int) -> Point {
        let (p0, p1, p2) = (self.endpoints[0], self.control_point, self.endpoints[1]);
        lerp_point(lerp_point(p0, p1, t), lerp_point(p1, p2, t), t)
    }

    /// `a` and `b` are the halves of the curve split at `t`: `a` runs from the
    /// start to the point at `t`, `b` from there to the end.
    pub open spec fn splits_into(self, t: int, a: Curve, b: Curve) -> bool {
        let (p0, p1, p2) = (self.endpoints[0], self.control_point, self.endpoints[1]);
        let (ap1, bp1) = (lerp_point(p0, p1, t), lerp_point(p1, p2, t));
        let mid = lerp_point(ap1, bp1, t);
        a.has_points(p0, ap1, mid) && b.has_points(mid, bp1, p2)
    }

    /// The parameter at which the curve's x coordinate reaches `x`, by the
    /// stable form `2c / (-b - sgn(b) sqrt(b^2 - 4ac))` of the quadratic formula
    /// (the square root takes the sign of `b`, so the denominator never
    /// cancels) and clamped to `[0, ONE]`; `0` where the discriminant is
    /// negative.
    pub open spec fn t_for_x(self, x: int) -> int {
        let (x0, x1, x2) = (
            self.endpoints[0].x as int,
            self.control_point.x as int,
            self.endpoints[1].x as int,
        );
        let a = x0 - 2 * x1 + x2;
        let b = -2 * x0 + 2 * x1;
        let c = x0 - x;
        let disc = b * b - 4 * a * c;
        if disc < 0 {
            0
        } else {
            let s = floor_sqrt(disc);
            clamped_ratio(
                2 * c * ONE,
                if b >= 0 {
                    -b - s
                } else {
                    -b + s
                },
            )
        }
    }

    /// The smallest x among the curve's three points.
    pub open spec fn min_x(self) -> int {
        let (x0, x1, x2) = (self.endpoints[0].x, self.control_point.x, self.endpoints[1].x);
        if x0 <= x1 && x0 <= x2 {
            x0 as int
        } else if x1 <= x2 {
            x1 as int
        } else {
            x2 as int
        }
    }

    /// The largest x among the curve's three points.
    pub open spec fn max_x(self) -> int {
        let (x0, x1, x2) = (self.endpoints[0].x, self.control_point.x, self.endpoints[1].x);
        if x0 >= x1 && x0 >= x2 {
            x0 as int
        } else if x1 >= x2 {
            x1 as int
        } else {
            x2 as int
        }
    }

    /// The x coordinates of the three points run in one direction, which for a
    /// quadratic curve is exactly monotonicity of x along the curve.
    pub open spec fn is_x_monotonic(self) -> bool {
        between(self.endpoints[0].x as int, self.control_point.x as int, self.endpoints[1].x as int)
    }

    /// The control point lies midway between the endpoints in x, so that x
    /// runs linearly along the curve.
    pub open spec fn is_linear_in_x(self) -> bool {
        2 * self.control_point.x == self.endpoints[0].x + self.endpoints[1].x
    }

    /// The curve from `endpoint_0` through `control_point` to `endpoint_1`.
    pub fn new(endpoint_0: &Point, control_point: &Point, endpoint_1: &Point) -> (r: Curve)
        ensures
            r.has_points(*endpoint_0, *control_point, *endpoint_1),
    {
        Curve { endpoints: [*endpoint_0, *endpoint_1], control_point: *control_point }
    }

    /// The point at parameter `t` (in units of `1 / ONE`); values outside
    /// `[0, ONE]` extrapolate.
    pub fn sample(&self, t: i32) -> (r: Point)
        requires
            self.fits_at(t as int),
        ensures
            r == self.point_at(t as int),
    {
        let (p0, p1, p2) = (self.endpoints[0], self.control_point, self.endpoints[1]);
        let ap1 = p0.lerp(p1, t);
        let bp1 = p1.lerp(p2, t);
        ap1.lerp(bp1, t)
    }

    /// Whether the curve can be evaluated and split at `t` (always so inside
    /// `[0, ONE]`; outside it, extrapolation may leave the coordinate range).
    pub fn fits(&self, t: i32) -> (r: bool)
        ensures
            r == self.fits_at(t as int),
    {
        let (p0, p1, p2) = (self.endpoints[0], self.control_point, self.endpoints[1]);
        match (p0.checked_lerp(p1, t), p1.checked_lerp(p2, t)) {
            (Some(ap1), Some(bp1)) => ap1.checked_lerp(bp1, t).is_some(),
            _ => false,
        }
    }

    /// Splits the curve at `t` by one step of de Casteljau's algorithm.
    pub fn subdivide(&self, t: i32) -> (r: (Curve, Curve))
        requires
            self.fits_at(t as int),
        ensures
            self.splits_into(t as int, r.0, r.1),
    {
        let (p0, p1, p2) = (self.endpoints[0], self.control_point, self.endpoints[1]);
        let (ap1, bp1) = (p0.lerp(p1, t), p1.lerp(p2, t));
        let ap2bp0 = ap1.lerp(bp1, t);
        (Curve::new(&p0, &ap1, &ap2bp0), Curve::new(&ap2bp0, &bp1, &p2))
    }
}

/// A square root rounded down is unique.
proof fn lemma_floor_sqrt_unique(n: int, r: int)
    requires
        is_floor_sqrt(n, r),
    ensures
        floor_sqrt(n) == r,
{
    let s = floor_sqrt(n);
    assert(is_floor_sqrt(n, s));
    if s < r {
        assert((s + 1) * (s + 1) <= r * r) by (nonlinear_arith)
            requires
                0 <= s < r,
        ;
    } else if r < s {
        assert((r + 1) * (r + 1) <= s * s) by (nonlinear_arith)
            requires
                0 <= r < s,
        ;
    }
}

/// The square root of `n` rounded down, by bisection.
fn sqrt_floor(n: u128) -> (r: u128)
    requires
        n < 0x40_0000_0000_0000_0000,
    ensures
        is_floor_sqrt(n as int, r as int),
{
    let mut lo: u128 = 0;
    let mut hi: u128 = 0x8_0000_0000;
    assert(n < hi * hi) by (nonlinear_arith)
        requires
            hi == 0x8_0000_0000u128,
            n < 0x40_0000_0000_0000_0000,
    ;
    while hi - lo > 1
        invariant
            lo < hi <= 0x8_0000_0000,
            lo * lo <= n,
            n < hi * hi,
        decreases hi - lo,
    {
        let mid: u128 = lo + (hi - lo) / 2;
        assert(mid * mid <= 0x40_0000_0000_0000_0000) by (nonlinear_arith)
            requires
                mid <= 0x8_0000_0000u128,
        ;
        if mid * mid <= n {
            lo = mid;
        } else {
            hi = mid;
        }
    }
    lo
}

/// `|v|` for `v` well inside the range of `i128`.
fn abs_u128(v: i128) -> (r: u128)
    requires
        v > i128::MIN,
    ensures
        r as int == (if v >= 0 {
            v as int
        } else {
            -v
        }),
{
    if v >= 0 {
        v as u128
    } else {
        (-v) as u128
    }
}

/// `n / d` rounded toward zero, for `d > 0`.
fn div_toward_zero(n: i64, d: i64) -> (r: i64)
    requires
        d > 0,
        n > i64::MIN,
    ensures
        r == div_trunc(n as int, d as int),
{
    if n >= 0 {
        ((n as u64) / (d as u64)) as i64
    } else {
        -(((-n) as u64 / (d as u64)) as i64)
    }
}

/// The clamped parameter `num / den` of `clamped_ratio`.
fn clamp_ratio(num: i128, den: i128) -> (r: i32)
    requires
        num > i128::MIN,
        den > i128::MIN,
    ensures
        r as int == clamped_ratio(num as int, den as int),
        0 <= r <= ONE,
{
    if den == 0 {
        if num > 0 {
            ONE
        } else {
            0
        }
    } else if num == 0 || (num > 0) != (den > 0) {
        0
    } else {
        let q: u128 = abs_u128(num) / abs_u128(den);
        if q > 65536 {
            ONE
        } else {
            q as i32
        }
    }
}

impl Curve {
    /// The parameter at which the curve's x coordinate equals `x`, clamped to
    /// `[0, ONE]`. The curve is assumed monotonic in x; nothing checks that.
    /// Works on the exact integer quadratic `a t^2 + b t + c` with the form of
    /// the quadratic formula that stays stable when `a` is small, with the
    /// square root taking the sign of `b` so that curves running toward
    /// increasing and toward decreasing x both get the root inside the curve.
    pub fn solve_t_for_x(&self, x: i32) -> (r: i32)
        ensures
            0 <= r <= ONE,
            r == self.t_for_x(x as int),
            self.is_linear_in_x() && self.endpoints[0].x < self.endpoints[1].x && self.endpoints[0].x
                <= x <= self.endpoints[1].x ==> self.point_at(r as int).x <= x && ONE * (x
                - self.point_at(r as int).x) < (self.endpoints[1].x - self.endpoints[0].x) + 2 * ONE,
            self.is_linear_in_x() && self.endpoints[1].x < self.endpoints[0].x && self.endpoints[1].x
                <= x <= self.endpoints[0].x ==> x <= self.point_at(r as int).x && ONE * (
            self.point_at(r as int).x - x) < (self.endpoints[0].x - self.endpoints[1].x) + 2 * ONE,
    {
        proof {
            if self.is_linear_in_x() && self.endpoints[0].x < self.endpoints[1].x
                && self.endpoints[0].x <= x <= self.endpoints[1].x {
                lemma_solve_on_linear_curve_lands_on_x(*self, x as int);
            }
            if self.is_linear_in_x() && self.endpoints[1].x < self.endpoints[0].x
                && self.endpoints[1].x <= x <= self.endpoints[0].x {
                lemma_solve_on_linear_decreasing_curve_lands_on_x(*self, x as int);
            }
        }
        let p0x = self.endpoints[0].x as i128;
        let p1x = self.control_point.x as i128;
        let p2x = self.endpoints[1].x as i128;
        let x = x as i128;

        let a: i128 = p0x - 2 * p1x + p2x;
        let b: i128 = 2 * (p1x - p0x);
        let c: i128 = p0x - x;
        assert(0 <= b * b <= 0x4_0000_0000_0000_0000) by (nonlinear_arith)
            requires
                -0x2_0000_0000 <= b <= 0x2_0000_0000,
        ;
        assert(-0x2_0000_0000_0000_0000 <= a * c <= 0x2_0000_0000_0000_0000) by (nonlinear_arith)
            requires
                -0x2_0000_0000 <= a <= 0x2_0000_0000,
                -0x1_0000_0000 <= c <= 0x1_0000_0000,
        ;
        let bb: i128 = b * b;
        let ac: i128 = a * c;
        let disc: i128 = bb - 4 * ac;
        assert(disc == b * b - 4 * a * c) by (nonlinear_arith)
            requires
                bb == b * b,
                ac == a * c,
                disc == bb - 4 * ac,
        ;
        if disc < 0 {
            return 0;
        }
        let s = sqrt_floor(disc as u128);
        proof {
            lemma_floor_sqrt_unique(disc as int, s as int);
            assert(s * s <= 0x10_0000_0000_0000_0000 ==> s <= 0x4_0000_0000) by (nonlinear_arith);
        }
        let den: i128 = if b >= 0 {
            -b - (s as i128)
        } else {
            -b + (s as i128)
        };
        clamp_ratio(2 * c * 65536, den)
    }

    /// The y coordinate of the curve where its x coordinate equals `x`.
    pub fn solve_y_for_x(&self, x: i32) -> (r: i32)
        ensures
            r == self.point_at(self.t_for_x(x as int)).y,
    {
        let t = self.solve_t_for_x(x);
        proof {
            lemma_fits_in_range(*self, t as int);
        }
        self.sample(t).y
    }

    /// Splits the curve where its x coordinate equals `x`, the part of lower x
    /// first: the halves are swapped when the curve runs toward lower x.
    pub fn subdivide_at_x(&self, x: i32) -> (r: (Curve, Curve))
        ensures
            self.endpoints[0].x <= self.endpoints[1].x ==> self.splits_into(
                self.t_for_x(x as int),
                r.0,
                r.1,
            ),
            self.endpoints[0].x > self.endpoints[1].x ==> self.splits_into(
                self.t_for_x(x as int),
                r.1,
                r.0,
            ),
    {
        let t = self.solve_t_for_x(x);
        proof {
            lemma_fits_in_range(*self, t as int);
        }
        let (prev_part, next_part) = self.subdivide(t);
        if self.endpoints[0].x <= self.endpoints[1].x {
            (prev_part, next_part)
        } else {
            (next_part, prev_part)
        }
    }

    /// The curve as a path step from the current position: its control point
    /// and its end.
    pub fn to_path_segment(&self) -> (r: PathCommand)
        ensures
            r == PathCommand::CurveTo(self.control_point, self.endpoints[1]),
    {
        PathCommand::CurveTo(self.control_point, self.endpoints[1])
    }

    /// The parameters at which the x and the y coordinate of the curve turn,
    /// each only when it lies well inside the curve.
    pub fn inflection_points(&self) -> (r: (Option<i32>, Option<i32>))
        ensures
            r.0 == inflection_t(
                self.endpoints[0].x as int,
                self.control_point.x as int,
                self.endpoints[1].x as int,
            ),
            r.1 == inflection_t(
                self.endpoints[0].y as int,
                self.control_point.y as int,
                self.endpoints[1].y as int,
            ),
    {
        let inflection_point_x = Curve::inflection_point_x(
            self.endpoints[0].x,
            self.control_point.x,
            self.endpoints[1].x,
        );
        let inflection_point_y = Curve::inflection_point_x(
            self.endpoints[0].y,
            self.control_point.y,
            self.endpoints[1].y,
        );
        (inflection_point_x, inflection_point_y)
    }

    /// The straight segment between the curve's endpoints.
    pub fn baseline(&self) -> (r: Line)
        ensures
            r.endpoints[0] == self.endpoints[0],
            r.endpoints[1] == self.endpoints[1],
    {
        Line::new(&self.endpoints[0], &self.endpoints[1])
    }

    /// The turning parameter of one coordinate channel, see `inflection_t`.
    fn inflection_point_x(endpoint_x_0: i32, control_point_x: i32, endpoint_x_1: i32) -> (r:
        Option<i32>)
        ensures
            r == inflection_t(endpoint_x_0 as int, control_point_x as int, endpoint_x_1 as int),
    {
        let num: i64 = endpoint_x_0 as i64 - control_point_x as i64;
        let denom: i64 = endpoint_x_0 as i64 - 2 * control_point_x as i64 + endpoint_x_1 as i64;
        if denom == 0 {
            return None;
        }
        let t: i64 = if denom > 0 {
            div_toward_zero(num * 65536, denom)
        } else {
            div_toward_zero(-num * 65536, -denom)
        };
        if (INFLECTION_EPSILON as i64) < t && t < (ONE - INFLECTION_EPSILON) as i64 {
            Some(t as i32)
        } else {
            None
        }
    }
}

/// Inside `[0, ONE]` a curve can be evaluated and split without overflow.
pub proof fn lemma_fits_in_range(c: Curve, t: int)
    requires
        0 <= t <= ONE,
    ensures
        c.fits_at(t),
{
    let (p0, p1, p2) = (c.endpoints[0], c.control_point, c.endpoints[1]);
    lemma_lerp_fits_in_range(p0, p1, t);
    lemma_lerp_fits_in_range(p1, p2, t);
    lemma_lerp_fits_in_range(lerp_point(p0, p1, t), lerp_point(p1, p2, t), t);
}

/// Interpolation returns its first point at `0` and its second at `ONE`.
proof fn lemma_lerp_point_ends(p: Point, q: Point)
    ensures
        lerp_point(p, q, 0) == p,
        lerp_point(p, q, ONE as int) == q,
{
    lemma_lerp_coord_between(p.x as int, q.x as int, 0);
    lemma_lerp_coord_between(p.y as int, q.y as int, 0);
}

/// The clamped root lies in `[0, ONE]`.
proof fn lemma_t_for_x_in_range(c: Curve, x: int)
    ensures
        0 <= c.t_for_x(x) <= ONE,
{
    let (x0, x1, x2) = (c.endpoints[0].x as int, c.control_point.x as int, c.endpoints[1].x as int);
    let a = x0 - 2 * x1 + x2;
    let b = -2 * x0 + 2 * x1;
    let cc = x0 - x;
    let disc = b * b - 4 * a * cc;
    if disc >= 0 {
        let num = 2 * cc * ONE;
        let den = -b - floor_sqrt(disc);
        if den != 0 && num != 0 && (num > 0) == (den > 0) {
            if num > 0 {
                lemma_div_pos_is_pos(num, den);
            } else {
                lemma_div_pos_is_pos(-num, -den);
            }
        }
    }
}

/// A curve evaluated at `0` is its start, and at `ONE` its end, exactly.
pub proof fn lemma_sample_at_ends(c: Curve)
    ensures
        c.fits_at(0),
        c.fits_at(ONE as int),
        c.point_at(0) == c.endpoints[0],
        c.point_at(ONE as int) == c.endpoints[1],
{
    let (p0, p1, p2) = (c.endpoints[0], c.control_point, c.endpoints[1]);
    lemma_fits_in_range(c, 0);
    lemma_fits_in_range(c, ONE as int);
    lemma_lerp_point_ends(p0, p1);
    lemma_lerp_point_ends(p1, p2);
}

/// Splitting a curve at any parameter keeps its start as the start of the
/// first half and its end as the end of the second, and the halves meet, at
/// the point of the curve at that parameter.
pub proof fn lemma_subdivide_keeps_endpoints(c: Curve, t: int, a: Curve, b: Curve)
    requires
        c.fits_at(t),
        c.splits_into(t, a, b),
    ensures
        a.endpoints[0] == c.endpoints[0],
        b.endpoints[1] == c.endpoints[1],
        a.point_at(ONE as int) == b.point_at(0),
        b.point_at(0) == c.point_at(t),
{
    lemma_sample_at_ends(a);
    lemma_sample_at_ends(b);
}

/// On a curve monotonic in x, splitting at an x puts every point of the first
/// result at or left of every point of the second, whichever way the curve
/// runs.
pub proof fn lemma_subdivide_at_x_ordered(c: Curve, x: int, left: Curve, right: Curve)
    requires
        c.is_x_monotonic(),
        c.endpoints[0].x <= c.endpoints[1].x ==> c.splits_into(c.t_for_x(x), left, right),
        c.endpoints[0].x > c.endpoints[1].x ==> c.splits_into(c.t_for_x(x), right, left),
    ensures
        left.max_x() <= right.min_x(),
{
    let t = c.t_for_x(x);
    lemma_t_for_x_in_range(c, x);
    let (p0, p1, p2) = (c.endpoints[0], c.control_point, c.endpoints[1]);
    let (ap1, bp1) = (lerp_point(p0, p1, t), lerp_point(p1, p2, t));
    lemma_lerp_coord_between(p0.x as int, p1.x as int, t);
    lemma_lerp_coord_between(p1.x as int, p2.x as int, t);
    lemma_lerp_coord_between(ap1.x as int, bp1.x as int, t);
}

/// A coordinate channel whose control value lies between its end values never
/// turns inside the curve.
pub proof fn lemma_monotonic_channel_has_no_inflection(e0: int, c: int, e1: int)
    requires
        between(e0, c, e1),
    ensures
        inflection_t(e0, c, e1) is None,
{
    let one = ONE as int;
    let num = e0 - c;
    let den = e0 - 2 * c + e1;
    if den > 0 {
        if num <= 0 {
            assert(num * one <= 0) by (nonlinear_arith)
                requires
                    num <= 0,
                    one > 0,
            ;
            lemma_div_pos_is_pos(-(num * one), den);
        } else {
            assert(num * one >= den * one) by (nonlinear_arith)
                requires
                    num >= den,
                    one > 0,
            ;
            lemma_div_is_ordered(den * one, num * one, den);
            lemma_div_by_multiple(one, den);
            assert(den * one == one * den) by (nonlinear_arith);
        }
    } else if den < 0 {
        if num >= 0 {
            assert(-num * one <= 0) by (nonlinear_arith)
                requires
                    num >= 0,
                    one > 0,
            ;
            lemma_div_pos_is_pos(-(-num * one), -den);
        } else {
            assert(-num * one >= (-den) * one) by (nonlinear_arith)
                requires
                    -num >= -den,
                    one > 0,
            ;
            lemma_div_is_ordered((-den) * one, -num * one, -den);
            lemma_div_by_multiple(one, -den);
            assert((-den) * one == one * (-den)) by (nonlinear_arith);
        }
    }
}

/// A curve whose control point lies between its endpoints in both
/// coordinates (a straight curve drawn along its chord) reports no turning
/// point in either channel.
pub proof fn lemma_straight_curve_has_no_inflection(c: Curve)
    requires
        c.is_x_monotonic(),
        between(c.endpoints[0].y as int, c.control_point.y as int, c.endpoints[1].y as int),
    ensures
        inflection_t(
            c.endpoints[0].x as int,
            c.control_point.x as int,
            c.endpoints[1].x as int,
        ) is None,
        inflection_t(
            c.endpoints[0].y as int,
            c.control_point.y as int,
            c.endpoints[1].y as int,
        ) is None,
{
    lemma_monotonic_channel_has_no_inflection(
        c.endpoints[0].x as int,
        c.control_point.x as int,
        c.endpoints[1].x as int,
    );
    lemma_monotonic_channel_has_no_inflection(
        c.endpoints[0].y as int,
        c.control_point.y as int,
        c.endpoints[1].y as int,
    );
}

/// On a curve whose x runs linearly toward increasing x (its control point lies
/// midway between its endpoints in x), solving for an `x` within the curve
/// lands on a point whose x is at most `x` and short of it by less than
/// `(span + 2 * ONE) / ONE`, where `span` is the curve's width: the parameter's
/// resolution across the width, plus the rounding of evaluation.
pub proof fn lemma_solve_on_linear_curve_lands_on_x(c: Curve, x: int)
    requires
        c.endpoints[0].x < c.endpoints[1].x,
        c.is_linear_in_x(),
        c.endpoints[0].x <= x <= c.endpoints[1].x,
    ensures
        0 <= c.t_for_x(x) <= ONE,
        c.fits_at(c.t_for_x(x)),
        c.point_at(c.t_for_x(x)).x <= x,
        ONE * (x - c.point_at(c.t_for_x(x)).x) < (c.endpoints[1].x - c.endpoints[0].x) + 2 * ONE,
{
    let one = ONE as int;
    let (x0, x1, x2) = (c.endpoints[0].x as int, c.control_point.x as int, c.endpoints[1].x as int);
    let h = x1 - x0;
    let b = x2 - x0;
    let d = x - x0;
    assert(b == 2 * h);
    let t = c.t_for_x(x);
    lemma_t_for_x_in_range(c, x);
    lemma_fits_in_range(c, t);
    assert(is_floor_sqrt(b * b, b)) by (nonlinear_arith)
        requires
            b > 0,
    ;
    lemma_floor_sqrt_unique(b * b, b);
    assert((-2 * x0 + 2 * x1) * (-2 * x0 + 2 * x1) - 4 * (x0 - 2 * x1 + x2) * (x0 - x) == b * b)
        by (nonlinear_arith)
        requires
            b == 2 * h,
            h == x1 - x0,
            b == x2 - x0,
    ;
    assert(2 * (x0 - x) * one == -(2 * d * one)) by (nonlinear_arith)
        requires
            d == x - x0,
    ;
    // The parameter is `(d * ONE) / b`, rounded down.
    let q = (2 * d * one) / (2 * b);
    if d > 0 {
        assert(2 * d * one > 0) by (nonlinear_arith)
            requires
                d > 0,
                one > 0,
        ;
        assert(-(-(2 * d * one)) == 2 * d * one);
    }
    lemma_fundamental_div_mod(2 * d * one, 2 * b);
    let r = (2 * d * one) % (2 * b);
    assert(b * q <= d * one < b * q + b && q <= one && 0 <= q) by (nonlinear_arith)
        requires
            2 * d * one == (2 * b) * q + r,
            0 <= r < 2 * b,
            0 <= d <= b,
            one > 0,
    ;
    assert(t == q);
    // Each level of interpolation advances by the same `(h * q) / ONE`.
    assert(h * q >= 0) by (nonlinear_arith)
        requires
            h > 0,
            q >= 0,
    ;
    assert((x2 - x1) * q == h * q);
    let m = (h * q) / one;
    lemma_div_pos_is_pos(h * q, one);
    lemma_lerp_coord_between(x0, x1, q);
    lemma_lerp_coord_between(x1, x2, q);
    let ax = lerp_coord(x0, x1, q);
    let bx = lerp_coord(x1, x2, q);
    assert(ax == x0 + m);
    assert(bx == x1 + m);
    assert((bx - ax) * q == h * q);
    lemma_lerp_coord_between(ax, bx, q);
    assert(c.point_at(t).x == x0 + 2 * m);
    lemma_fundamental_div_mod(h * q, one);
    let rm = (h * q) % one;
    assert(2 * m <= d && one * (d - 2 * m) < b + 2 * one) by (nonlinear_arith)
        requires
            h * q == one * m + rm,
            0 <= rm < one,
            b == 2 * h,
            b * q <= d * one < b * q + b,
            one > 0,
    ;
}

/// On a curve whose x runs linearly toward decreasing x, solving for an `x`
/// within the curve lands on a point whose x is at least `x` and beyond it by
/// less than `(span + 2 * ONE) / ONE`, where `span` is the curve's width.
pub proof fn lemma_solve_on_linear_decreasing_curve_lands_on_x(c: Curve, x: int)
    requires
        c.endpoints[1].x < c.endpoints[0].x,
        c.is_linear_in_x(),
        c.endpoints[1].x <= x <= c.endpoints[0].x,
    ensures
        0 <= c.t_for_x(x) <= ONE,
        c.fits_at(c.t_for_x(x)),
        x <= c.point_at(c.t_for_x(x)).x,
        ONE * (c.point_at(c.t_for_x(x)).x - x) < (c.endpoints[0].x - c.endpoints[1].x) + 2 * ONE,
{
    let one = ONE as int;
    let (x0, x1, x2) = (c.endpoints[0].x as int, c.control_point.x as int, c.endpoints[1].x as int);
    let g = x0 - x1;
    let b = x0 - x2;
    let d = x0 - x;
    assert(b == 2 * g);
    let t = c.t_for_x(x);
    lemma_t_for_x_in_range(c, x);
    lemma_fits_in_range(c, t);
    assert(is_floor_sqrt(b * b, b)) by (nonlinear_arith)
        requires
            b > 0,
    ;
    lemma_floor_sqrt_unique(b * b, b);
    assert((-2 * x0 + 2 * x1) * (-2 * x0 + 2 * x1) - 4 * (x0 - 2 * x1 + x2) * (x0 - x) == b * b)
        by (nonlinear_arith)
        requires
            b == 2 * g,
            g == x0 - x1,
            b == x0 - x2,
    ;
    assert(2 * (x0 - x) * one == 2 * d * one);
    // The parameter is `(d * ONE) / b`, rounded down.
    let q = (2 * d * one) / (2 * b);
    if d > 0 {
        assert(2 * d * one > 0) by (nonlinear_arith)
            requires
                d > 0,
                one > 0,
        ;
    }
    lemma_fundamental_div_mod(2 * d * one, 2 * b);
    let r = (2 * d * one) % (2 * b);
    assert(b * q <= d * one < b * q + b && q <= one && 0 <= q) by (nonlinear_arith)
        requires
            2 * d * one == (2 * b) * q + r,
            0 <= r < 2 * b,
            0 <= d <= b,
            one > 0,
    ;
    assert(t == q);
    // Each level of interpolation moves back by the same `(g * q) / ONE`.
    assert(g * q >= 0) by (nonlinear_arith)
        requires
            g > 0,
            q >= 0,
    ;
    assert((x1 - x0) * q == -(g * q)) by (nonlinear_arith)
        requires
            g == x0 - x1,
    ;
    assert((x2 - x1) * q == -(g * q)) by (nonlinear_arith)
        requires
            g == x0 - x1,
            b == 2 * g,
            b == x0 - x2,
    ;
    let m = (g * q) / one;
    lemma_div_pos_is_pos(g * q, one);
    assert(div_trunc(-(g * q), one) == -m) by {
        if g * q == 0 {
            assert(0int / one == 0);
        }
    }
    lemma_lerp_coord_between(x0, x1, q);
    lemma_lerp_coord_between(x1, x2, q);
    let ax = lerp_coord(x0, x1, q);
    let bx = lerp_coord(x1, x2, q);
    assert(ax == x0 - m);
    assert(bx == x1 - m);
    assert((bx - ax) * q == -(g * q)) by (nonlinear_arith)
        requires
            bx - ax == x1 - x0,
            g == x0 - x1,
    ;
    lemma_lerp_coord_between(ax, bx, q);
    assert(c.point_at(t).x == x0 - 2 * m);
    lemma_fundamental_div_mod(g * q, one);
    let rm = (g * q) % one;
    assert(2 * m <= d && one * (d - 2 * m) < b + 2 * one) by (nonlinear_arith)
        requires
            g * q == one * m + rm,
            0 <= rm < one,
            b == 2 * g,
            b * q <= d * one < b * q + b,
            one > 0,
    ;
}

} // verus!

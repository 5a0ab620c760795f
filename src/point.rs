//! 16.16 fixed-point points and the interpolation step that the curve
//! operations are built from.

use vstd::arithmetic::div_mod::{lemma_div_by_multiple, lemma_div_is_ordered, lemma_div_pos_is_pos};
use vstd::prelude::*;

verus! {

/// The value 1.0 in 16.16 fixed point: coordinates and curve parameters are
/// integers counting units of `1 / ONE`.
pub const ONE: i32 = 65536;

/// `v` is representable as an `i32`.
pub open spec fn fits_i32(v: int) -> bool {
    i32::MIN <= v <= i32::MAX
}

/// The quotient `n / d`, rounded toward zero.
pub open spec fn div_trunc(n: int, d: int) -> int
    recommends
        d > 0,
{
    if n >= 0 {
        n / d
    } else {
        -((-n) / d)
    }
}

/// The coordinate a fraction `t / ONE` of the way from `a` to `b`, rounded
/// toward `a`. Parameters outside `[0, ONE]` extrapolate.
pub open spec fn lerp_coord(a: int, b: int, t: int) -> int {
    a + div_trunc((b - a) * t, ONE as int)
}

/// A point in 16.16 fixed point.
#[derive(Clone, Copy, PartialEq, Eq, Structural, Debug)]
pub struct Point {
    pub x: i32,
    pub y: i32,
}

/// Both coordinates of the interpolation from `p` to `q` at `t` fit an `i32`.
pub open spec fn lerp_fits(p: Point, q: Point, t: int) -> bool {
    fits_i32(lerp_coord(p.x as int, q.x as int, t)) && fits_i32(
        lerp_coord(p.y as int, q.y as int, t),
    )
}

/// The point a fraction `t / ONE` of the way from `p` to `q`.
pub open spec fn lerp_point(p: Point, q: Point, t: int) -> Point {
    Point {
        x: lerp_coord(p.x as int, q.x as int, t) as i32,
        y: lerp_coord(p.y as int, q.y as int, t) as i32,
    }
}

/// For `t` in `[0, ONE]` interpolation stays between its two ends; at the ends
/// of that range it returns them exactly.
pub proof fn lemma_lerp_coord_between(a: int, b: int, t: int)
    requires
        0 <= t <= ONE,
    ensures
        a <= b ==> a <= lerp_coord(a, b, t) <= b,
        b <= a ==> b <= lerp_coord(a, b, t) <= a,
        lerp_coord(a, b, 0) == a,
        lerp_coord(a, b, ONE as int) == b,
{
    let one = ONE as int;
    let d = b - a;
    if d >= 0 {
        assert(0 <= d * t <= d * one) by (nonlinear_arith)
            requires
                0 <= d,
                0 <= t <= one,
        ;
        lemma_div_pos_is_pos(d * t, one);
        lemma_div_is_ordered(d * t, d * one, one);
        lemma_div_by_multiple(d, one);
        assert(a <= lerp_coord(a, b, t) <= b);
    } else {
        let e = -d;
        assert(0 <= e * t <= e * one) by (nonlinear_arith)
            requires
                0 <= e,
                0 <= t <= one,
        ;
        assert(-(d * t) == e * t) by (nonlinear_arith)
            requires
                e == -d,
        ;
        lemma_div_pos_is_pos(e * t, one);
        lemma_div_is_ordered(e * t, e * one, one);
        lemma_div_by_multiple(e, one);
        assert(b <= lerp_coord(a, b, t) <= a);
    }
    assert(d * 0 == 0);
    assert(0int / one == 0);
    lemma_div_by_multiple(if d >= 0 { d } else { -d }, one);
    assert(d * one == one * d) by (nonlinear_arith);
    assert((-d) * one == -(d * one)) by (nonlinear_arith);
}

/// Interpolation of each point inside `[0, ONE]` always fits.
pub proof fn lemma_lerp_fits_in_range(p: Point, q: Point, t: int)
    requires
        0 <= t <= ONE,
    ensures
        lerp_fits(p, q, t),
{
    lemma_lerp_coord_between(p.x as int, q.x as int, t);
    lemma_lerp_coord_between(p.y as int, q.y as int, t);
}

/// One coordinate of the interpolation from `a` to `b` at `t`, before it is
/// narrowed to an `i32`.
fn lerp_wide(a: i32, b: i32, t: i32) -> (r: i128)
    ensures
        r == lerp_coord(a as int, b as int, t as int),
{
    let diff: i128 = b as i128 - a as i128;
    assert(-0x1_0000_0000_0000_0000 <= diff * t <= 0x1_0000_0000_0000_0000) by (nonlinear_arith)
        requires
            -0x1_0000_0000 <= diff <= 0x1_0000_0000,
            -0x8000_0000 <= t <= 0x8000_0000,
    ;
    let prod: i128 = diff * (t as i128);
    let q: i128 = if prod >= 0 {
        ((prod as u128) / 65536u128) as i128
    } else {
        -((((-prod) as u128) / 65536u128) as i128)
    };
    a as i128 + q
}

/// `v` narrowed to an `i32`, where it fits.
fn narrow(v: i128) -> (r: Option<i32>)
    ensures
        r == (if fits_i32(v as int) {
            Some(v as i32)
        } else {
            None::<i32>
        }),
{
    if i32::MIN as i128 <= v && v <= i32::MAX as i128 {
        Some(v as i32)
    } else {
        None
    }
}

impl Point {
    /// The point `(x, y)`.
    pub fn new(x: i32, y: i32) -> (r: Point)
        ensures
            r == (Point { x, y }),
    {
        Point { x, y }
    }

    /// The point a fraction `t / ONE` of the way from `self` to `other`: `self`
    /// at `0`, `other` at `ONE`, extrapolated beyond them.
    pub fn lerp(&self, other: Point, t: i32) -> (r: Point)
        requires
            lerp_fits(*self, other, t as int),
        ensures
            r == lerp_point(*self, other, t as int),
    {
        Point { x: lerp_wide(self.x, other.x, t) as i32, y: lerp_wide(self.y, other.y, t) as i32 }
    }

    /// The interpolation of `lerp`, or `None` where a coordinate of it does
    /// not fit an `i32`.
    pub fn checked_lerp(&self, other: Point, t: i32) -> (r: Option<Point>)
        ensures
            r == (if lerp_fits(*self, other, t as int) {
                Some(lerp_point(*self, other, t as int))
            } else {
                None::<Point>
            }),
    {
        match (narrow(lerp_wide(self.x, other.x, t)), narrow(lerp_wide(self.y, other.y, t))) {
            (Some(x), Some(y)) => Some(Point { x, y }),
            _ => None,
        }
    }
}

} // verus!

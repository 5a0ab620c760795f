//! The straight-line primitive and the path command that curves are exported to.

use crate::point::Point;
use vstd::prelude::*;

verus! {

/// A straight segment between two points.
#[derive(Clone, Copy, PartialEq, Eq, Debug)]
pub struct Line {
    pub endpoints: [Point; 2],
}

impl Line {
    /// The segment from `endpoint_0` to `endpoint_1`.
    pub fn new(endpoint_0: &Point, endpoint_1: &Point) -> (r: Line)
        ensures
            r.endpoints[0] == *endpoint_0,
            r.endpoints[1] == *endpoint_1,
    {
        Line { endpoints: [*endpoint_0, *endpoint_1] }
    }
}

/// One step of a path. A drawing position is implied by the previous step.
#[derive(Clone, Copy, PartialEq, Eq, Structural, Debug)]
pub enum PathCommand {
    /// Starts a new subpath at the point.
    MoveTo(Point),
    /// A straight segment to the point.
    LineTo(Point),
    /// A quadratic curve: its control point, then its end point.
    CurveTo(Point, Point),
    /// Closes the current subpath.
    ClosePath,
}

} // verus!

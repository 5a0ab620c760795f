//! Quadratic Bézier curve segments for vector-path processing, over 16.16
//! fixed-point coordinates so that every operation is exact integer arithmetic.

pub mod curve;
pub mod path;
pub mod point;

pub use curve::Curve;
pub use path::{Line, PathCommand};
pub use point::{Point, ONE};

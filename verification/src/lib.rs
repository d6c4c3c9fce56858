//! A two-dimensional computational-geometry kernel over exact rational
//! coordinates: points, implicit lines, bounded segments, circles and simple
//! polygons, with half-plane clipping, affine reflection and circle inversion.
//!
//! Coordinates are rationals with bounded numerator and denominator; all
//! predicates (side-of-line, segment containment, strip membership) are
//! decided exactly, and every transform either returns an exact result or
//! reports that the result left the representable range.

pub mod adapters;
pub mod circle;
pub mod point;
pub mod polygon;
pub mod rat;
pub mod segments;
pub mod utils;

pub use circle::Circle;
pub use point::Point;
pub use polygon::Polygon;
pub use rat::Rat;
pub use segments::{Line, LineSegment};

//! Circles: a centre and a non-negative radius.

use vstd::prelude::*;

verus! {

use crate::point::Point;
use crate::rat::Rat;

/// A circle with exact centre and radius. A negative radius is a caller
/// error and is excluded at construction.
#[derive(Clone, Copy, Debug, PartialEq, Eq, Structural)]
pub struct Circle {
    pub center: Point,
    pub radius: Rat,
}

impl Circle {
    /// Centre well formed, radius well formed and non-negative.
    pub open spec fn wf(self) -> bool {
        &&& self.center.wf()
        &&& self.radius.wf()
        &&& self.radius.num >= 0
    }

    /// Build a circle; the radius must not be negative.
    pub fn new(center: Point, radius: Rat) -> (r: Circle)
        requires
            center.wf(),
            radius.wf(),
            radius.num >= 0,
        ensures
            r.wf(),
            r.center == center,
            r.radius == radius,
    {
        Circle { center, radius }
    }

    /// The centre.
    pub fn center(&self) -> (r: Point)
        requires
            self.wf(),
        ensures
            r == self.center,
            r.wf(),
    {
        self.center
    }

    /// The radius.
    pub fn radius(&self) -> (r: Rat)
        requires
            self.wf(),
        ensures
            r == self.radius,
            r.wf(),
            r.num >= 0,
    {
        self.radius
    }
}

} // verus!

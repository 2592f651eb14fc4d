//! Points and directions.
use crate::single::Single;
use vstd::prelude::*;

verus! {

/// A point or a size in the plane.
#[derive(Clone, Copy, PartialEq, Eq, Structural, Debug)]
pub struct Vec2 {
    pub x: Single,
    pub y: Single,
}

/// A point or a direction in space.
#[derive(Clone, Copy, PartialEq, Eq, Structural, Debug)]
pub struct Vec3 {
    pub x: Single,
    pub y: Single,
    pub z: Single,
}

impl Vec2 {
    /// The vector with the given components.
    pub fn new(x: Single, y: Single) -> (r: Vec2)
        ensures
            r == (Vec2 { x, y }),
    {
        Vec2 { x, y }
    }
}

impl Vec3 {
    /// The component along an axis.
    pub open spec fn along(self, axis: int) -> Single {
        if axis == 0 {
            self.x
        } else if axis == 1 {
            self.y
        } else {
            self.z
        }
    }

    /// The vector with the given components.
    pub fn new(x: Single, y: Single, z: Single) -> (r: Vec3)
        ensures
            r == (Vec3 { x, y, z }),
    {
        Vec3 { x, y, z }
    }
}

} // verus!

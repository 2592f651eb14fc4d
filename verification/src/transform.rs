//! Where things are in space, and how they are turned and scaled.
use crate::ray::ONE;
use crate::single::{Single, ZERO};
use crate::vector::Vec3;
use vstd::prelude::*;

verus! {

/// A rotation, as a quaternion.
#[derive(Clone, Copy, PartialEq, Eq, Structural, Debug)]
pub struct Quat {
    pub x: Single,
    pub y: Single,
    pub z: Single,
    pub w: Single,
}

/// A pose: a scaling, a rotation and a translation, one after the other.
#[derive(Clone, Copy, PartialEq, Eq, Structural, Debug)]
pub struct Transform {
    pub translation: Vec3,
    pub rotation: Quat,
    pub scale: Vec3,
}

impl Transform {
    /// The pose that leaves everything in its place.
    pub open spec fn identity() -> Transform {
        let zero = Single { bits: ZERO };
        let one = Single { bits: ONE };
        Transform {
            translation: Vec3 { x: zero, y: zero, z: zero },
            rotation: Quat { x: zero, y: zero, z: zero, w: one },
            scale: Vec3 { x: one, y: one, z: one },
        }
    }

    /// The pose that leaves everything in its place.
    pub fn new() -> (r: Transform)
        ensures
            r == Transform::identity(),
    {
        let zero = Single::from_bits(ZERO);
        let one = Single::from_bits(ONE);
        Transform {
            translation: Vec3::new(zero, zero, zero),
            rotation: Quat { x: zero, y: zero, z: zero, w: one },
            scale: Vec3::new(one, one, one),
        }
    }
}

} // verus!

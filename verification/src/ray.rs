//! A ray: where it starts and which way it goes.

use vstd::prelude::*;
use crate::vector3::{Point3, Vector3};

verus! {

#[derive(Clone, Copy, Debug, PartialEq, Eq, Structural)]
pub struct Ray {
    pub orig: Point3,
    pub dir: Vector3,
}

impl Ray {
    pub fn new(origin: Point3, direction: Vector3) -> (r: Ray)
        ensures
            r.orig == origin,
            r.dir == direction,
    {
        Ray { orig: origin, dir: direction }
    }

    pub fn origin(&self) -> (p: Point3)
        ensures
            p == self.orig,
    {
        self.orig
    }

    /// The direction, which need not have unit length.
    pub fn direction(&self) -> (v: Vector3)
        ensures
            v == self.dir,
    {
        self.dir
    }
}

} // verus!

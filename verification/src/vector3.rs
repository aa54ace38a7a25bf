//! Three scalars: a direction, a position or a colour.

use vstd::prelude::*;
use crate::scalar::{Scalar, ONE_BITS};

verus! {

/// The pattern of the threshold below which a component counts as zero:
/// ten to the power of minus eight.
pub const NEAR_ZERO_BITS: u64 = 0x3e45_798e_e230_8c3a;

#[derive(Clone, Copy, Debug, PartialEq, Eq, Structural)]
pub struct Vector3 {
    pub x: Scalar,
    pub y: Scalar,
    pub z: Scalar,
}

pub type Point3 = Vector3;

/// The vector whose components have the three patterns.
pub open spec fn vector_of(x: u64, y: u64, z: u64) -> Vector3 {
    Vector3 { x: Scalar { bits: x }, y: Scalar { bits: y }, z: Scalar { bits: z } }
}

impl Vector3 {
    /// Whether every component is smaller in magnitude than the threshold.
    pub open spec fn spec_near_zero(self) -> bool {
        let s = Scalar { bits: NEAR_ZERO_BITS };
        self.x.spec_abs().spec_lt(s) && self.y.spec_abs().spec_lt(s) && self.z.spec_abs().spec_lt(s)
    }

    /// The vector with every component negated.
    pub open spec fn spec_neg(self) -> Vector3 {
        Vector3 { x: self.x.spec_neg(), y: self.y.spec_neg(), z: self.z.spec_neg() }
    }

    pub fn new(e0: Scalar, e1: Scalar, e2: Scalar) -> (v: Vector3)
        ensures
            v.x == e0,
            v.y == e1,
            v.z == e2,
    {
        Vector3 { x: e0, y: e1, z: e2 }
    }

    /// The zero vector.
    pub fn default() -> (v: Vector3)
        ensures
            v.x.bits == 0,
            v.y.bits == 0,
            v.z.bits == 0,
    {
        Vector3 { x: Scalar::zero(), y: Scalar::zero(), z: Scalar::zero() }
    }

    pub fn x(&self) -> (r: Scalar)
        ensures
            r == self.x,
    {
        self.x
    }

    pub fn y(&self) -> (r: Scalar)
        ensures
            r == self.y,
    {
        self.y
    }

    pub fn z(&self) -> (r: Scalar)
        ensures
            r == self.z,
    {
        self.z
    }

    pub fn near_zero(&self) -> (r: bool)
        ensures
            r == self.spec_near_zero(),
    {
        let s = Scalar::from_bits(NEAR_ZERO_BITS);
        self.x.abs().lt(s) && self.y.abs().lt(s) && self.z.abs().lt(s)
    }

    pub fn neg(self) -> (r: Vector3)
        ensures
            r == self.spec_neg(),
    {
        Vector3 { x: self.x.neg(), y: self.y.neg(), z: self.z.neg() }
    }
}

/// One round of rejection sampling for a point inside the unit sphere: the
/// candidate drawn from the cube around it is kept if its squared length,
/// `length_squared`, is less than one.
pub fn random_in_unit_sphere(candidate: Vector3, length_squared: Scalar) -> (r: Option<Vector3>)
    ensures
        r == if length_squared.spec_lt(Scalar { bits: ONE_BITS }) {
            Some(candidate)
        } else {
            None
        },
{
    if length_squared.lt(Scalar::one()) {
        Some(candidate)
    } else {
        None
    }
}

/// Turns a vector on the unit sphere into the hemisphere of a normal:
/// `facing` is its dot product with the normal, and it is kept where that is
/// positive and negated elsewhere.
pub fn random_on_hemisphere(on_unit_sphere: Vector3, facing: Scalar) -> (r: Vector3)
    ensures
        r == if (Scalar { bits: 0 }).spec_lt(facing) {
            on_unit_sphere
        } else {
            on_unit_sphere.spec_neg()
        },
{
    if facing.gt(Scalar::zero()) {
        on_unit_sphere
    } else {
        on_unit_sphere.neg()
    }
}

} // verus!

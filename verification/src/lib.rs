//! The exact core of a Monte-Carlo ray tracer.
//!
//! A ray tracer computes in floating point, and it decides: which root of a
//! quadratic is the hit, which hit is the nearest, which subtree of the
//! bounding volume hierarchy a ray can skip, when a path ends and in what,
//! which channel value an intensity gets, what a scene's description means.
//! This library holds the decisions. Every real number comes in as its
//! binary64 bit pattern, a [`scalar::Scalar`]; the library orders such
//! numbers, negates them and picks among them, all of which is exact, and
//! leaves the arithmetic that rounds to its caller. Where arithmetic has to happen in
//! the middle of a decision, the caller hands it in as a closure, and the
//! contract says what comes out for whatever the closure returns.

pub mod aabb;
pub mod bvh;
pub mod camera;
pub mod colour;
pub mod cylinder;
pub mod hittable;
pub mod hittable_list;
pub mod interval;
pub mod material;
pub mod quad;
pub mod ray;
pub mod scalar;
pub mod scene;
pub mod sphere;
pub mod vector3;

//! Spheres: which root of the intersection quadratic is the hit, and the
//! record of it.

use vstd::prelude::*;
use crate::aabb::Aabb;
use crate::hittable::{consistent, tells_surface, HitRecord, Probe, Surface};
use crate::interval::Interval;
use crate::scalar::Scalar;
use crate::vector3::Point3;

verus! {

#[derive(Clone, Copy, Debug, PartialEq, Eq, Structural)]
pub struct Sphere {
    pub centre: Point3,
    pub radius: Scalar,
    /// The material, as an index into the scene's material table.
    pub mat: usize,
}

impl Sphere {
    /// The accepted root: none where the discriminant is negative; else the
    /// nearer root if `ray_t` surrounds it; else the farther one if `ray_t`
    /// surrounds that; else none.
    pub open spec fn accepted_root(
        discriminant: Scalar,
        near: Scalar,
        far: Scalar,
        ray_t: Interval,
    ) -> Option<Scalar> {
        if discriminant.spec_lt(Scalar { bits: 0 }) {
            None
        } else if ray_t.spec_surrounds(near) {
            Some(near)
        } else if ray_t.spec_surrounds(far) {
            Some(far)
        } else {
            None
        }
    }

    pub fn new(centre: Point3, radius: Scalar, mat: usize) -> (s: Sphere)
        ensures
            s.centre == centre,
            s.radius == radius,
            s.mat == mat,
    {
        Sphere { centre, radius, mat }
    }

    /// The sphere's bounding box. `low` and `high` are the centre minus and
    /// plus the radius on every axis.
    pub fn bounding_box(&self, low: Point3, high: Point3) -> (r: Aabb)
        ensures
            r == Aabb::spanning(low, high),
    {
        Aabb::from_points(low, high)
    }

    /// The record of the hit, if there is one: at the accepted root, with
    /// what `surfaces` gives for it.
    pub open spec fn hit_record(
        self,
        discriminant: Scalar,
        near: Scalar,
        far: Scalar,
        ray_t: Interval,
        surfaces: spec_fn(Scalar) -> Surface,
    ) -> Option<HitRecord> {
        match Sphere::accepted_root(discriminant, near, far, ray_t) {
            Some(t) => Some(HitRecord::at(t, surfaces(t), self.mat)),
            None => None,
        }
    }

    /// Decides whether a ray hits the sphere within `ray_t`, and makes the
    /// record of the hit.
    ///
    /// For a ray `o + t d` and `oc = o - centre` the caller solves
    /// `a t^2 + 2 b t + c = 0` with `a = d.d`, `b = oc.d` and
    /// `c = oc.oc - radius^2`: `discriminant = b^2 - a c`,
    /// `near = (-b - sqrt(discriminant)) / a` and
    /// `far = (-b + sqrt(discriminant)) / a`. `surface` is called for the
    /// accepted root, if there is one, and computes the point there, the
    /// outward normal `(p - centre) / radius` and the surface coordinates.
    pub fn hit<S>(
        &self,
        discriminant: Scalar,
        near: Scalar,
        far: Scalar,
        ray_t: Interval,
        surface: S,
    ) -> (r: Option<HitRecord>) where S: Fn(Scalar) -> Surface
        requires
            forall|t: Scalar| call_requires(surface, (t,)),
        ensures
            r is Some <==> Sphere::accepted_root(discriminant, near, far, ray_t) is Some,
            r is Some ==> Some(r.unwrap().t) == Sphere::accepted_root(discriminant, near, far, ray_t)
                && exists|at: Surface|
                call_ensures(surface, (r.unwrap().t,), at) && r.unwrap() == HitRecord::at(
                    r.unwrap().t,
                    at,
                    self.mat,
                ),
            forall|surfaces: spec_fn(Scalar) -> Surface| #[trigger]
                tells_surface(surface, surfaces) ==> r == self.hit_record(
                    discriminant,
                    near,
                    far,
                    ray_t,
                    surfaces,
                ),
    {
        match Sphere::nearest_root(discriminant, near, far, ray_t) {
            Some(t) => {
                let at = surface(t);
                Some(HitRecord::new(t, &at, self.mat))
            },
            None => None,
        }
    }

    /// The ray parameter at which a ray hits the sphere within `ray_t`:
    /// the accepted root of the quadratic that `hit` describes.
    pub fn nearest_root(discriminant: Scalar, near: Scalar, far: Scalar, ray_t: Interval) -> (r:
        Option<Scalar>)
        ensures
            r == Sphere::accepted_root(discriminant, near, far, ray_t),
    {
        if discriminant.lt(Scalar::zero()) {
            return None;
        }
        let mut root = near;
        if !ray_t.surrounds(root) {
            root = far;
            if !ray_t.surrounds(root) {
                return None;
            }
        }
        Some(root)
    }
}

/// An accepted root lies strictly inside the interval, and where the roots
/// are in order it is the smallest root that does. No root is accepted only
/// where the discriminant is negative or the interval surrounds neither.
pub proof fn lemma_sphere_root_is_nearest(
    discriminant: Scalar,
    near: Scalar,
    far: Scalar,
    ray_t: Interval,
)
    ensures
        match Sphere::accepted_root(discriminant, near, far, ray_t) {
            Some(t) => {
                &&& ray_t.spec_surrounds(t)
                &&& t == near || t == far
                &&& near.spec_le(far) && ray_t.spec_surrounds(near) ==> t == near
            },
            None => discriminant.spec_lt(Scalar { bits: 0 }) || (!ray_t.spec_surrounds(near)
                && !ray_t.spec_surrounds(far)),
        },
{
}

/// A sphere answers one ray consistently as the interval's end moves in:
/// the root accepted within a shorter interval is the root accepted within
/// the whole one, and the root accepted within the whole interval is
/// accepted within every shorter one that reaches beyond it. The roots are
/// taken to be in order where both are numbers.
pub proof fn lemma_sphere_root_is_consistent(
    discriminant: Scalar,
    near: Scalar,
    far: Scalar,
    ray_t: Interval,
    c: Scalar,
)
    requires
        near.is_nan() || far.is_nan() || near.spec_le(far),
        c.spec_le(ray_t.max),
    ensures
        ({
            let shorter = Sphere::accepted_root(
                discriminant,
                near,
                far,
                Interval { min: ray_t.min, max: c },
            );
            let whole = Sphere::accepted_root(discriminant, near, far, ray_t);
            &&& shorter is Some ==> shorter.unwrap().spec_le(c) && whole == shorter
            &&& whole is Some && whole.unwrap().spec_lt(c) ==> shorter == whole
        }),
{
}

/// A member that answers as a sphere does answers consistently.
pub proof fn lemma_sphere_is_consistent(
    sphere: Sphere,
    discriminant: Scalar,
    near: Scalar,
    far: Scalar,
    surfaces: spec_fn(Scalar) -> Surface,
    probe: Probe,
    member: int,
    ray_t: Interval,
)
    requires
        near.is_nan() || far.is_nan() || near.spec_le(far),
        forall|within: Interval| #[trigger]
            probe(member, within) == sphere.hit_record(discriminant, near, far, within, surfaces),
    ensures
        consistent(probe, member, ray_t),
{
    assert forall|c: Scalar| !c.is_nan() && c.spec_le(ray_t.max) implies ({
        let shorter = #[trigger] probe(member, Interval { min: ray_t.min, max: c });
        let whole = probe(member, ray_t);
        &&& shorter is Some ==> shorter.unwrap().t.spec_le(c) && whole == shorter
        &&& whole is Some && whole.unwrap().t.spec_lt(c) ==> shorter == whole
    }) by {
        lemma_sphere_root_is_consistent(discriminant, near, far, ray_t, c);
    }
}

} // verus!

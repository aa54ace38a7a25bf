//! Open cylinders about the vertical axis: which root of the lateral
//! quadratic is the hit. The two end discs are not part of the surface.

use vstd::prelude::*;
use crate::aabb::Aabb;
use crate::hittable::{consistent, tells_surface, HitRecord, Probe, Surface};
use crate::interval::Interval;
use crate::scalar::{Scalar, ONE_BITS};
use crate::vector3::{Point3, Vector3};

verus! {

#[derive(Clone, Copy, Debug, PartialEq, Eq, Structural)]
pub struct Cylinder {
    pub center: Point3,
    pub radius: Scalar,
    pub height: Scalar,
    /// The material, as an index into the scene's material table.
    pub m: usize,
}

impl Cylinder {
    /// Whether a root is a hit on the finite surface: strictly inside
    /// `ray_t`, at a height strictly between the two ends.
    pub open spec fn on_surface(root: Scalar, rise: Scalar, half_height: Scalar, ray_t: Interval) -> bool {
        &&& root.spec_lt(ray_t.max)
        &&& ray_t.min.spec_lt(root)
        &&& half_height.spec_neg().spec_lt(rise)
        &&& rise.spec_lt(half_height)
    }

    /// The accepted root: none unless the discriminant is positive; else of
    /// the roots on the surface the first, unless the second is on the
    /// surface too and smaller.
    pub open spec fn accepted_root(
        discriminant: Scalar,
        first: Scalar,
        first_rise: Scalar,
        second: Scalar,
        second_rise: Scalar,
        half_height: Scalar,
        ray_t: Interval,
    ) -> Option<Scalar> {
        if !(Scalar { bits: 0 }).spec_lt(discriminant) {
            None
        } else if Cylinder::on_surface(first, first_rise, half_height, ray_t) {
            if Cylinder::on_surface(second, second_rise, half_height, ray_t) && second.spec_lt(first) {
                Some(second)
            } else {
                Some(first)
            }
        } else if Cylinder::on_surface(second, second_rise, half_height, ray_t) {
            Some(second)
        } else {
            None
        }
    }

    /// The normal of an end disc for a point at `distance` above the centre:
    /// up, down, or the zero vector at the centre's own height.
    pub open spec fn cap_normal(distance: Scalar) -> Vector3 {
        let zero = Scalar { bits: 0 };
        let one = Scalar { bits: ONE_BITS };
        if zero.spec_lt(distance) {
            Vector3 { x: zero, y: one, z: zero }
        } else if distance.spec_lt(zero) {
            Vector3 { x: zero, y: one.spec_neg(), z: zero }
        } else {
            Vector3 { x: zero, y: zero, z: zero }
        }
    }

    pub fn new(center: Point3, radius: Scalar, height: Scalar, m: usize) -> (c: Cylinder)
        ensures
            c.center == center,
            c.radius == radius,
            c.height == height,
            c.m == m,
    {
        Cylinder { center, radius, height, m }
    }

    fn is_on_surface(root: Scalar, rise: Scalar, half_height: Scalar, ray_t: Interval) -> (r: bool)
        ensures
            r == Cylinder::on_surface(root, rise, half_height, ray_t),
    {
        root.lt(ray_t.max) && root.gt(ray_t.min) && rise.gt(half_height.neg()) && rise.lt(
            half_height,
        )
    }

    /// The cylinder's bounding box. `low` and `high` are the centre minus
    /// and plus the radius along x and z and half the height along y.
    pub fn bounding_box(&self, low: Point3, high: Point3) -> (r: Aabb)
        ensures
            r == Aabb::spanning(low, high),
    {
        Aabb::from_points(low, high)
    }

    /// The record of the hit, if there is one: at the accepted root, with
    /// what `surfaces` gives for it.
    pub open spec fn hit_record(
        self,
        discriminant: Scalar,
        first: Scalar,
        first_rise: Scalar,
        second: Scalar,
        second_rise: Scalar,
        half_height: Scalar,
        ray_t: Interval,
        surfaces: spec_fn(Scalar) -> Surface,
    ) -> Option<HitRecord> {
        match Cylinder::accepted_root(
            discriminant,
            first,
            first_rise,
            second,
            second_rise,
            half_height,
            ray_t,
        ) {
            Some(t) => Some(HitRecord::at(t, surfaces(t), self.m)),
            None => None,
        }
    }

    /// Decides whether a ray hits the lateral surface within `ray_t`, and
    /// makes the record of the hit.
    ///
    /// The caller removes the vertical component from the ray and solves the
    /// quadratic that is left: `first` and `second` are its roots with the
    /// minus and the plus sign before the square root of `discriminant`.
    /// `first_rise` and `second_rise` are the heights of the two points above
    /// the cylinder's centre, `half_height` is half its height. `surface` is
    /// called for the accepted root, if there is one, and computes the point
    /// there, the outward normal and the surface coordinates.
    pub fn hit<S>(
        &self,
        discriminant: Scalar,
        first: Scalar,
        first_rise: Scalar,
        second: Scalar,
        second_rise: Scalar,
        half_height: Scalar,
        ray_t: Interval,
        surface: S,
    ) -> (r: Option<HitRecord>) where S: Fn(Scalar) -> Surface
        requires
            forall|t: Scalar| call_requires(surface, (t,)),
        ensures
            r is Some <==> Cylinder::accepted_root(
                discriminant,
                first,
                first_rise,
                second,
                second_rise,
                half_height,
                ray_t,
            ) is Some,
            r is Some ==> Some(r.unwrap().t) == Cylinder::accepted_root(
                discriminant,
                first,
                first_rise,
                second,
                second_rise,
                half_height,
                ray_t,
            ) && exists|at: Surface|
                call_ensures(surface, (r.unwrap().t,), at) && r.unwrap() == HitRecord::at(
                    r.unwrap().t,
                    at,
                    self.m,
                ),
            forall|surfaces: spec_fn(Scalar) -> Surface| #[trigger]
                tells_surface(surface, surfaces) ==> r == self.hit_record(
                    discriminant,
                    first,
                    first_rise,
                    second,
                    second_rise,
                    half_height,
                    ray_t,
                    surfaces,
                ),
    {
        match Cylinder::nearest_root(
            discriminant,
            first,
            first_rise,
            second,
            second_rise,
            half_height,
            ray_t,
        ) {
            Some(t) => {
                let at = surface(t);
                Some(HitRecord::new(t, &at, self.m))
            },
            None => None,
        }
    }

    /// The ray parameter at which a ray hits the lateral surface within
    /// `ray_t`: the accepted root of the quadratic that `hit` describes.
    pub fn nearest_root(
        discriminant: Scalar,
        first: Scalar,
        first_rise: Scalar,
        second: Scalar,
        second_rise: Scalar,
        half_height: Scalar,
        ray_t: Interval,
    ) -> (r: Option<Scalar>)
        ensures
            r == Cylinder::accepted_root(
                discriminant,
                first,
                first_rise,
                second,
                second_rise,
                half_height,
                ray_t,
            ),
    {
        if !discriminant.gt(Scalar::zero()) {
            return None;
        }
        let mut hit: Option<Scalar> = None;
        let mut closest_so_far = ray_t.max;
        if Cylinder::is_on_surface(first, first_rise, half_height, ray_t) && first.lt(
            closest_so_far,
        ) {
            closest_so_far = first;
            hit = Some(first);
        }
        if Cylinder::is_on_surface(second, second_rise, half_height, ray_t) && second.lt(
            closest_so_far,
        ) {
            hit = Some(second);
        }
        hit
    }

    pub fn calculate_outward_normal(distance: Scalar) -> (n: Vector3)
        ensures
            n == Cylinder::cap_normal(distance),
    {
        if distance.gt(Scalar::zero()) {
            Vector3::new(Scalar::zero(), Scalar::one(), Scalar::zero())
        } else if distance.lt(Scalar::zero()) {
            Vector3::new(Scalar::zero(), Scalar::one().neg(), Scalar::zero())
        } else {
            Vector3::new(Scalar::zero(), Scalar::zero(), Scalar::zero())
        }
    }
}

/// An accepted root is on the finite surface, and no root on the surface is
/// smaller. None is accepted only where no root is on the surface or the
/// discriminant is not positive.
pub proof fn lemma_cylinder_root_is_nearest(
    discriminant: Scalar,
    first: Scalar,
    first_rise: Scalar,
    second: Scalar,
    second_rise: Scalar,
    half_height: Scalar,
    ray_t: Interval,
)
    ensures
        match Cylinder::accepted_root(
            discriminant,
            first,
            first_rise,
            second,
            second_rise,
            half_height,
            ray_t,
        ) {
            Some(t) => {
                &&& ray_t.spec_surrounds(t)
                &&& (t == first && Cylinder::on_surface(first, first_rise, half_height, ray_t)) || (t
                    == second && Cylinder::on_surface(second, second_rise, half_height, ray_t))
                &&& Cylinder::on_surface(first, first_rise, half_height, ray_t) ==> t.spec_le(first)
                &&& Cylinder::on_surface(second, second_rise, half_height, ray_t) ==> t.spec_le(
                    second,
                )
            },
            None => !(Scalar { bits: 0 }).spec_lt(discriminant) || (!Cylinder::on_surface(
                first,
                first_rise,
                half_height,
                ray_t,
            ) && !Cylinder::on_surface(second, second_rise, half_height, ray_t)),
        },
{
}

/// A cylinder answers one ray consistently as the interval's end moves in.
pub proof fn lemma_cylinder_root_is_consistent(
    discriminant: Scalar,
    first: Scalar,
    first_rise: Scalar,
    second: Scalar,
    second_rise: Scalar,
    half_height: Scalar,
    ray_t: Interval,
    c: Scalar,
)
    requires
        c.spec_le(ray_t.max),
    ensures
        ({
            let shorter = Cylinder::accepted_root(
                discriminant,
                first,
                first_rise,
                second,
                second_rise,
                half_height,
                Interval { min: ray_t.min, max: c },
            );
            let whole = Cylinder::accepted_root(
                discriminant,
                first,
                first_rise,
                second,
                second_rise,
                half_height,
                ray_t,
            );
            &&& shorter is Some ==> shorter.unwrap().spec_le(c) && whole == shorter
            &&& whole is Some && whole.unwrap().spec_lt(c) ==> shorter == whole
        }),
{
}

/// A member that answers as a cylinder does answers consistently.
pub proof fn lemma_cylinder_is_consistent(
    cylinder: Cylinder,
    discriminant: Scalar,
    first: Scalar,
    first_rise: Scalar,
    second: Scalar,
    second_rise: Scalar,
    half_height: Scalar,
    surfaces: spec_fn(Scalar) -> Surface,
    probe: Probe,
    member: int,
    ray_t: Interval,
)
    requires
        forall|within: Interval| #[trigger]
            probe(member, within) == cylinder.hit_record(
                discriminant,
                first,
                first_rise,
                second,
                second_rise,
                half_height,
                within,
                surfaces,
            ),
    ensures
        consistent(probe, member, ray_t),
{
    assert forall|c: Scalar| !c.is_nan() && c.spec_le(ray_t.max) implies ({
        let shorter = #[trigger] probe(member, Interval { min: ray_t.min, max: c });
        let whole = probe(member, ray_t);
        &&& shorter is Some ==> shorter.unwrap().t.spec_le(c) && whole == shorter
        &&& whole is Some && whole.unwrap().t.spec_lt(c) ==> shorter == whole
    }) by {
        lemma_cylinder_root_is_consistent(
            discriminant,
            first,
            first_rise,
            second,
            second_rise,
            half_height,
            ray_t,
            c,
        );
    }
}

} // verus!

//! Parallelograms in a plane, and the box made of six of them.

use vstd::prelude::*;
use crate::aabb::Aabb;
use crate::hittable::{consistent, HitRecord, Probe};
use crate::interval::Interval;
use crate::scalar::{Scalar, ONE_BITS};
use crate::vector3::{Point3, Vector3, NEAR_ZERO_BITS};

verus! {

/// The parallelogram with the corner `q` and the edges `u` and `v`.
#[derive(Clone, Copy, Debug, PartialEq, Eq, Structural)]
pub struct Plane {
    pub q: Point3,
    pub u: Vector3,
    pub v: Vector3,
    /// The material, as an index into the scene's material table.
    pub mat: usize,
}

impl Plane {
    /// Whether plane coordinates lie in the unit square, edges included:
    /// both are numbers from zero to one.
    pub open spec fn interior(a: Scalar, b: Scalar) -> bool {
        let zero = Scalar { bits: 0 };
        let one = Scalar { bits: ONE_BITS };
        zero.spec_le(a) && a.spec_le(one) && zero.spec_le(b) && b.spec_le(one)
    }

    /// Whether a ray runs too nearly parallel to the plane to meet it.
    pub open spec fn parallel(denom: Scalar) -> bool {
        denom.spec_abs().spec_lt(Scalar { bits: NEAR_ZERO_BITS })
    }

    /// The record of the hit, if there is one: the ray is not parallel,
    /// `ray_t` contains `t`, and the plane coordinates are interior.
    pub open spec fn hit_record(
        self,
        denom: Scalar,
        t: Scalar,
        intersection: Point3,
        alpha: Scalar,
        beta: Scalar,
        normal: Vector3,
        ray_t: Interval,
        rec: HitRecord,
    ) -> Option<HitRecord> {
        if Plane::parallel(denom) || !ray_t.spec_contains(t) || !Plane::interior(alpha, beta) {
            None
        } else {
            Some(
                HitRecord { t: t, p: intersection, mat: self.mat, u: alpha, v: beta, ..rec }.faced(
                    denom,
                    normal,
                ),
            )
        }
    }

    pub fn new(q: Point3, u: Vector3, v: Vector3, m: usize) -> (p: Plane)
        ensures
            p.q == q,
            p.u == u,
            p.v == v,
            p.mat == m,
    {
        Plane { q, u, v, mat: m }
    }

    /// The parallelogram's bounding box: the box around its four corners,
    /// with no side narrower than the least thickness. `qu`, `qv` and `quv`
    /// are the corners `q + u`, `q + v` and `q + u + v`; `sizes` holds the
    /// sizes of the three sides of the box around the corners, and `widened`
    /// that box with every side moved out by half the least thickness at
    /// both ends.
    pub fn bounding_box(
        &self,
        qu: Point3,
        qv: Point3,
        quv: Point3,
        sizes: Vector3,
        widened: &Aabb,
    ) -> (r: Aabb)
        ensures
            r.x == Aabb::padded_side(self.around(qu, qv, quv).x, sizes.x, widened.x),
            r.y == Aabb::padded_side(self.around(qu, qv, quv).y, sizes.y, widened.y),
            r.z == Aabb::padded_side(self.around(qu, qv, quv).z, sizes.z, widened.z),
    {
        Aabb::from_corners(self.q, qu, qv, quv).pad(sizes, widened)
    }

    /// The box around the four corners.
    pub open spec fn around(self, qu: Point3, qv: Point3, quv: Point3) -> Aabb {
        Aabb::union(Aabb::spanning(self.q, quv), Aabb::spanning(qu, qv))
    }

    /// Given a hit point in plane coordinates, returns false if it is
    /// outside the parallelogram; otherwise stores the coordinates as the
    /// record's surface coordinates and returns true.
    pub fn is_interior(a: Scalar, b: Scalar, rec: &mut HitRecord) -> (r: bool)
        ensures
            r == Plane::interior(a, b),
            r ==> *final(rec) == (HitRecord { u: a, v: b, ..*old(rec) }),
            !r ==> *final(rec) == *old(rec),
    {
        let zero = Scalar::zero();
        let one = Scalar::one();
        if !(zero.le(a) && a.le(one) && zero.le(b) && b.le(one)) {
            return false;
        }
        rec.u = a;
        rec.v = b;
        true
    }

    /// Decides whether a ray hits the parallelogram within `ray_t`, and
    /// fills in the record if it does.
    ///
    /// With the plane's unit normal `n = normalize(u x v)`, its offset
    /// `d = n.q` and `w = (u x v) / ((u x v).(u x v))`, the caller computes
    /// for a ray `o + t dir`: `denom = n.dir`, `t = (d - n.o) / denom`,
    /// `intersection = o + t dir`, and with `h = intersection - q` the plane
    /// coordinates `alpha = w.(h x v)` and `beta = w.(u x h)`.
    pub fn hit(
        &self,
        denom: Scalar,
        t: Scalar,
        intersection: Point3,
        alpha: Scalar,
        beta: Scalar,
        normal: &Vector3,
        ray_t: Interval,
        rec: &mut HitRecord,
    ) -> (r: bool)
        ensures
            r == self.hit_record(denom, t, intersection, alpha, beta, *normal, ray_t, *old(rec))
                is Some,
            r ==> Some(*final(rec)) == self.hit_record(
                denom,
                t,
                intersection,
                alpha,
                beta,
                *normal,
                ray_t,
                *old(rec),
            ),
            !r ==> *final(rec) == *old(rec),
    {
        if denom.abs().lt(Scalar::from_bits(NEAR_ZERO_BITS)) {
            return false;
        }
        if !ray_t.contains(t) {
            return false;
        }
        if !Plane::is_interior(alpha, beta, rec) {
            return false;
        }
        rec.t = t;
        rec.p = intersection;
        rec.mat = self.mat;
        rec.set_face_normal(denom, normal);
        true
    }
}

/// The six sides of the box with the opposite corners `a` and `b`, in the
/// order front, right, back, left, top, bottom. `extent` holds the box's
/// three side lengths.
pub open spec fn cuboid_sides(a: Point3, b: Point3, extent: Vector3, mat: usize) -> Seq<Plane> {
    let zero = Scalar { bits: 0 };
    let min = Vector3 { x: a.x.spec_min(b.x), y: a.y.spec_min(b.y), z: a.z.spec_min(b.z) };
    let max = Vector3 { x: a.x.spec_max(b.x), y: a.y.spec_max(b.y), z: a.z.spec_max(b.z) };
    let dx = Vector3 { x: extent.x, y: zero, z: zero };
    let dy = Vector3 { x: zero, y: extent.y, z: zero };
    let dz = Vector3 { x: zero, y: zero, z: extent.z };
    seq![
        Plane { q: Vector3 { x: min.x, y: min.y, z: max.z }, u: dx, v: dy, mat: mat },
        Plane { q: Vector3 { x: max.x, y: min.y, z: max.z }, u: dz.spec_neg(), v: dy, mat: mat },
        Plane { q: Vector3 { x: max.x, y: min.y, z: min.z }, u: dx.spec_neg(), v: dy, mat: mat },
        Plane { q: Vector3 { x: min.x, y: min.y, z: min.z }, u: dz, v: dy, mat: mat },
        Plane { q: Vector3 { x: min.x, y: max.y, z: max.z }, u: dx, v: dz.spec_neg(), mat: mat },
        Plane { q: Vector3 { x: min.x, y: min.y, z: min.z }, u: dx, v: dz, mat: mat },
    ]
}

/// The box that contains the two opposite corners `a` and `b`, as its six
/// sides, all of one material. `extent` is the difference of the two
/// corners, component by component, without its sign.
pub fn cuboid(a: Point3, b: Point3, extent: Vector3, mat: usize) -> (sides: Vec<Plane>)
    ensures
        sides@ == cuboid_sides(a, b, extent, mat),
{
    let zero = Scalar::zero();
    let min = Point3::new(a.x.min(b.x), a.y.min(b.y), a.z.min(b.z));
    let max = Point3::new(a.x.max(b.x), a.y.max(b.y), a.z.max(b.z));
    let dx = Vector3::new(extent.x, zero, zero);
    let dy = Vector3::new(zero, extent.y, zero);
    let dz = Vector3::new(zero, zero, extent.z);
    let mut sides: Vec<Plane> = Vec::new();
    sides.push(Plane::new(Point3::new(min.x, min.y, max.z), dx, dy, mat));
    sides.push(Plane::new(Point3::new(max.x, min.y, max.z), dz.neg(), dy, mat));
    sides.push(Plane::new(Point3::new(max.x, min.y, min.z), dx.neg(), dy, mat));
    sides.push(Plane::new(Point3::new(min.x, min.y, min.z), dz, dy, mat));
    sides.push(Plane::new(Point3::new(min.x, max.y, max.z), dx, dz.neg(), mat));
    sides.push(Plane::new(Point3::new(min.x, min.y, min.z), dx, dz, mat));
    assert(sides@ =~= cuboid_sides(a, b, extent, mat));
    sides
}

/// A hit on a parallelogram lies within the interval, its surface
/// coordinates are interior, and its face flag says whether the ray runs
/// against the normal.
pub proof fn lemma_plane_hit_is_inside(
    plane: Plane,
    denom: Scalar,
    t: Scalar,
    intersection: Point3,
    alpha: Scalar,
    beta: Scalar,
    normal: Vector3,
    ray_t: Interval,
    rec: HitRecord,
)
    ensures
        match plane.hit_record(denom, t, intersection, alpha, beta, normal, ray_t, rec) {
            Some(hit) => {
                &&& ray_t.spec_contains(hit.t)
                &&& Plane::interior(hit.u, hit.v)
                &&& hit.front_face <==> denom.spec_lt(Scalar { bits: 0 })
                &&& hit.normal == if hit.front_face {
                    normal
                } else {
                    normal.spec_neg()
                }
            },
            None => true,
        },
{
}

/// A parallelogram answers one ray consistently as the interval's end
/// moves in.
pub proof fn lemma_plane_hit_is_consistent(
    plane: Plane,
    denom: Scalar,
    t: Scalar,
    intersection: Point3,
    alpha: Scalar,
    beta: Scalar,
    normal: Vector3,
    ray_t: Interval,
    rec: HitRecord,
    c: Scalar,
)
    requires
        c.spec_le(ray_t.max),
    ensures
        ({
            let shorter = plane.hit_record(
                denom,
                t,
                intersection,
                alpha,
                beta,
                normal,
                Interval { min: ray_t.min, max: c },
                rec,
            );
            let whole = plane.hit_record(denom, t, intersection, alpha, beta, normal, ray_t, rec);
            &&& shorter is Some ==> shorter.unwrap().t.spec_le(c) && whole == shorter
            &&& whole is Some && whole.unwrap().t.spec_lt(c) ==> shorter == whole
        }),
{
}

/// A member that answers as a parallelogram does answers consistently.
pub proof fn lemma_plane_is_consistent(
    plane: Plane,
    denom: Scalar,
    t: Scalar,
    intersection: Point3,
    alpha: Scalar,
    beta: Scalar,
    normal: Vector3,
    rec: HitRecord,
    probe: Probe,
    member: int,
    ray_t: Interval,
)
    requires
        forall|within: Interval| #[trigger]
            probe(member, within) == plane.hit_record(
                denom,
                t,
                intersection,
                alpha,
                beta,
                normal,
                within,
                rec,
            ),
    ensures
        consistent(probe, member, ray_t),
{
    assert forall|c: Scalar| !c.is_nan() && c.spec_le(ray_t.max) implies ({
        let shorter = #[trigger] probe(member, Interval { min: ray_t.min, max: c });
        let whole = probe(member, ray_t);
        &&& shorter is Some ==> shorter.unwrap().t.spec_le(c) && whole == shorter
        &&& whole is Some && whole.unwrap().t.spec_lt(c) ==> shorter == whole
    }) by {
        lemma_plane_hit_is_consistent(plane, denom, t, intersection, alpha, beta, normal, ray_t, rec, c);
    }
}

} // verus!

//! The record of a hit, and the search for the nearest hit along a ray.

use vstd::prelude::*;
use crate::interval::Interval;
use crate::scalar::Scalar;
use crate::vector3::{Point3, Vector3};

verus! {

/// What is computed at the place where a ray meets a surface, once the
/// ray's parameter there is known.
#[derive(Clone, Copy, Debug, PartialEq, Eq, Structural)]
pub struct Surface {
    /// The point on the ray at the parameter.
    pub p: Point3,
    /// The surface's unit normal there, pointing out of the object.
    pub outward_normal: Vector3,
    /// The dot product of the ray's direction with the outward normal.
    pub facing: Scalar,
    /// The surface's coordinates of the point.
    pub u: Scalar,
    pub v: Scalar,
}

/// Whether `surfaces` says what `surface` returns.
pub open spec fn tells_surface<F: Fn(Scalar) -> Surface>(
    surface: F,
    surfaces: spec_fn(Scalar) -> Surface,
) -> bool {
    forall|t: Scalar, at: Surface| call_ensures(surface, (t,), at) ==> at == surfaces(t)
}

/// What is known of the place where a ray met a surface.
#[derive(Clone, Copy, Debug, PartialEq, Eq, Structural)]
pub struct HitRecord {
    /// The point that was hit.
    pub p: Point3,
    /// The unit normal at that point, turned against the incoming ray.
    pub normal: Vector3,
    /// The surface's material, as an index into the scene's material table.
    pub mat: usize,
    /// The ray parameter of the hit.
    pub t: Scalar,
    pub u: Scalar,
    pub v: Scalar,
    /// Whether the ray came from outside the surface.
    pub front_face: bool,
}

impl HitRecord {
    /// The record with `front_face` and `normal` set for a ray whose
    /// direction has the dot product `facing` with `outward_normal`.
    pub open spec fn faced(self, facing: Scalar, outward_normal: Vector3) -> HitRecord {
        let front = facing.spec_lt(Scalar { bits: 0 });
        HitRecord {
            front_face: front,
            normal: if front {
                outward_normal
            } else {
                outward_normal.spec_neg()
            },
            ..self
        }
    }

    /// The record of a hit at the parameter `t` on a surface of the material
    /// `mat`: the face flag and the stored normal are set as
    /// `set_face_normal` sets them.
    pub open spec fn at(t: Scalar, surface: Surface, mat: usize) -> HitRecord {
        HitRecord {
            p: surface.p,
            normal: surface.outward_normal,
            mat: mat,
            t: t,
            u: surface.u,
            v: surface.v,
            front_face: false,
        }.faced(surface.facing, surface.outward_normal)
    }

    /// The record of a hit at the parameter `t` on a surface of the material
    /// `mat`.
    pub fn new(t: Scalar, surface: &Surface, mat: usize) -> (rec: HitRecord)
        ensures
            rec == HitRecord::at(t, *surface, mat),
    {
        let mut rec = HitRecord {
            p: surface.p,
            normal: surface.outward_normal,
            mat,
            t,
            u: surface.u,
            v: surface.v,
            front_face: false,
        };
        rec.set_face_normal(surface.facing, &surface.outward_normal);
        rec
    }

    /// A record at the origin with parameter zero, facing nowhere, of the
    /// first material.
    pub fn default() -> (r: HitRecord)
        ensures
            r.p == (Vector3 { x: Scalar { bits: 0 }, y: Scalar { bits: 0 }, z: Scalar { bits: 0 } }),
            r.normal == r.p,
            r.mat == 0,
            r.t.bits == 0,
            r.u.bits == 0,
            r.v.bits == 0,
            !r.front_face,
    {
        HitRecord {
            p: Vector3::default(),
            normal: Vector3::default(),
            mat: 0,
            t: Scalar::zero(),
            u: Scalar::zero(),
            v: Scalar::zero(),
            front_face: false,
        }
    }

    /// Sets the face flag and the stored normal. `facing` is the dot product
    /// of the ray's direction with `outward_normal`, which is taken to have
    /// unit length. The hit is on the front face exactly when `facing` is
    /// negative; the stored normal is the outward one there and its
    /// negation elsewhere, so that it always points against the ray.
    pub fn set_face_normal(&mut self, facing: Scalar, outward_normal: &Vector3)
        ensures
            *final(self) == old(self).faced(facing, *outward_normal),
            final(self).front_face <==> facing.spec_lt(Scalar { bits: 0 }),
    {
        self.front_face = facing.lt(Scalar::zero());
        self.normal = if self.front_face { *outward_normal } else { outward_normal.neg() };
    }
}

/// The stored normal never points along the ray. Negating a normal negates
/// the number that it makes with the ray's direction; so where the outward
/// normal makes `facing`, the stored one makes `facing` on the front and its
/// negation on the back, and that is never above zero.
pub proof fn lemma_stored_normal_opposes_ray(rec: HitRecord, facing: Scalar, outward_normal: Vector3)
    requires
        !facing.is_nan(),
    ensures
        ({
            let stored = rec.faced(facing, outward_normal);
            let made = if stored.front_face {
                facing
            } else {
                facing.spec_neg()
            };
            &&& made.spec_le(Scalar { bits: 0 })
            &&& stored.normal == if stored.front_face {
                outward_normal
            } else {
                outward_normal.spec_neg()
            }
            &&& stored.front_face <==> facing.spec_lt(Scalar { bits: 0 })
        }),
{
}

/// A hit and the member of the scene that it is on.
#[derive(Clone, Copy, Debug, PartialEq, Eq, Structural)]
pub struct Found {
    pub member: usize,
    pub rec: HitRecord,
}

/// The nearest hit found so far along one ray, and how far the search still
/// reaches.
#[derive(Clone, Copy, Debug, PartialEq, Eq, Structural)]
pub struct Closest {
    /// The upper bound for the hits still to be looked for: the parameter of
    /// the best hit, or the ray interval's end while there is none.
    pub closest_so_far: Scalar,
    /// The best hit and the member that it is on.
    pub best: Option<Found>,
}

/// What each member of a scene answers when one fixed ray is tried against
/// it within an interval.
pub type Probe = spec_fn(int, Interval) -> Option<HitRecord>;

impl Closest {
    /// The search before any member was tried.
    pub open spec fn fresh(t_max: Scalar) -> Closest {
        Closest { closest_so_far: t_max, best: None }
    }

    /// The search after `member` answered `outcome`: a hit takes the place
    /// of the best one and shortens the reach to its parameter.
    pub open spec fn absorbed(self, member: usize, outcome: Option<HitRecord>) -> Closest {
        match outcome {
            Some(rec) => Closest { closest_so_far: rec.t, best: Some(Found { member, rec }) },
            None => self,
        }
    }

    /// The interval within which the next member is tried.
    pub open spec fn reach(self, t_min: Scalar) -> Interval {
        Interval { min: t_min, max: self.closest_so_far }
    }

    /// Whether the search has found, among the members in `tried`, a hit that
    /// none of them beats: its parameter is the smallest of all the hits
    /// that those members have within the whole interval.
    pub open spec fn nearest_over(self, probe: Probe, tried: Set<int>, ray_t: Interval) -> bool {
        &&& !self.closest_so_far.is_nan()
        &&& self.closest_so_far.spec_le(ray_t.max)
        &&& match self.best {
            None => {
                &&& self.closest_so_far == ray_t.max
                &&& forall|i: int| tried.contains(i) ==> probe(i, ray_t) is None
            },
            Some(found) => {
                &&& tried.contains(found.member as int)
                &&& probe(found.member as int, ray_t) == Some(found.rec)
                &&& self.closest_so_far == found.rec.t
                &&& forall|i: int|
                    tried.contains(i) && probe(i, ray_t) is Some ==> found.rec.t.spec_le(
                        (#[trigger] probe(i, ray_t)).unwrap().t,
                    )
            },
        }
    }

    pub fn new(t_max: Scalar) -> (c: Closest)
        ensures
            c == Closest::fresh(t_max),
    {
        Closest { closest_so_far: t_max, best: None }
    }

    pub fn absorb(&mut self, member: usize, outcome: Option<HitRecord>)
        ensures
            *final(self) == old(self).absorbed(member, outcome),
    {
        match outcome {
            Some(rec) => {
                self.closest_so_far = rec.t;
                self.best = Some(Found { member, rec });
            },
            None => {},
        }
    }
}

/// Whether a member answers one ray consistently as the interval's end
/// moves in: what it reports within a shorter interval lies within that
/// interval and is its hit within the whole one, and its hit within the
/// whole interval is reported within every shorter one that reaches
/// beyond it.
pub open spec fn consistent(probe: Probe, member: int, ray_t: Interval) -> bool {
    forall|c: Scalar|
        !c.is_nan() && c.spec_le(ray_t.max) ==> {
            let shorter = #[trigger] probe(member, Interval { min: ray_t.min, max: c });
            let whole = probe(member, ray_t);
            &&& shorter is Some ==> shorter.unwrap().t.spec_le(c) && whole == shorter
            &&& whole is Some && whole.unwrap().t.spec_lt(c) ==> shorter == whole
        }
}

/// Trying one more consistent member keeps the search's hit the nearest.
pub proof fn lemma_absorb_keeps_nearest(
    acc: Closest,
    probe: Probe,
    tried: Set<int>,
    ray_t: Interval,
    member: usize,
)
    requires
        acc.nearest_over(probe, tried, ray_t),
        consistent(probe, member as int, ray_t),
    ensures
        acc.absorbed(member, probe(member as int, acc.reach(ray_t.min))).nearest_over(
            probe,
            tried.insert(member as int),
            ray_t,
        ),
{
    let c = acc.closest_so_far;
    let shorter = probe(member as int, Interval { min: ray_t.min, max: c });
    let whole = probe(member as int, ray_t);
    assert(shorter is Some ==> shorter.unwrap().t.spec_le(c) && whole == shorter);
    assert(whole is Some && whole.unwrap().t.spec_lt(c) ==> shorter == whole);
    match shorter {
        Some(rec) => {
            assert forall|i: int|
                tried.insert(member as int).contains(i) && probe(i, ray_t) is Some implies rec.t.spec_le(
                (#[trigger] probe(i, ray_t)).unwrap().t,
            ) by {
                if i != member as int {
                    assert(tried.contains(i));
                }
            }
        },
        None => {
            if whole is Some {
                let far = Interval { min: ray_t.min, max: ray_t.max };
                assert(probe(member as int, far) is Some ==> probe(member as int, far).unwrap().t.spec_le(
                    ray_t.max,
                ));
                assert(far == ray_t);
                assert(!whole.unwrap().t.is_nan());
            }
        },
    }
}

/// Whether no two of the members in `tried` are hit at one distance within
/// the whole interval.
pub open spec fn no_ties(probe: Probe, tried: Set<int>, ray_t: Interval) -> bool {
    forall|i: int, j: int|
        #![trigger tried.contains(i), tried.contains(j)]
        tried.contains(i) && tried.contains(j) && i != j && probe(i, ray_t) is Some && probe(
            j,
            ray_t,
        ) is Some ==> probe(i, ray_t).unwrap().t.rank() != probe(j, ray_t).unwrap().t.rank()
}

/// Two searches that each hold the nearest hit over the same members agree
/// on whether there is a hit and on how far away it is, and on the member
/// too where no other member has a hit at that distance.
pub proof fn lemma_nearest_is_unique(
    a: Closest,
    b: Closest,
    probe: Probe,
    tried: Set<int>,
    ray_t: Interval,
)
    requires
        a.nearest_over(probe, tried, ray_t),
        b.nearest_over(probe, tried, ray_t),
    ensures
        a.best is Some <==> b.best is Some,
        a.closest_so_far.rank() == b.closest_so_far.rank(),
        a.best is Some && no_ties(probe, tried, ray_t) ==> a.best == b.best,
{
    match (a.best, b.best) {
        (Some(fa), Some(fb)) => {
            assert(fa.rec.t.spec_le(probe(fb.member as int, ray_t).unwrap().t));
            assert(fb.rec.t.spec_le(probe(fa.member as int, ray_t).unwrap().t));
        },
        (Some(fa), None) => {
            assert(probe(fa.member as int, ray_t) is None);
        },
        (None, Some(fb)) => {
            assert(probe(fb.member as int, ray_t) is None);
        },
        (None, None) => {},
    }
}

} // verus!

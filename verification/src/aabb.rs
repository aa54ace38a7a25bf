//! Axis-aligned bounding boxes and the slab test against a ray.

use vstd::prelude::*;
use crate::interval::Interval;
use crate::scalar::Scalar;
use crate::vector3::{Point3, Vector3};

verus! {

#[derive(Clone, Copy, Debug, PartialEq, Eq, Structural)]
pub struct Aabb {
    pub x: Interval,
    pub y: Interval,
    pub z: Interval,
}

/// The pattern of the least thickness of a padded box: the binary64 value
/// nearest to one ten-thousandth.
pub const THINNEST_BITS: u64 = 0x3f1a_36e2_eb1c_432d;

/// Where a ray crosses the two planes that bound a box along one axis.
///
/// For a box side `[lo, hi]`, a ray origin `o` and a direction component `d`
/// the caller computes `inv_d = 1 / d`, `t0 = (lo - o) * inv_d` and
/// `t1 = (hi - o) * inv_d`.
#[derive(Clone, Copy, Debug, PartialEq, Eq, Structural)]
pub struct Slab {
    pub t0: Scalar,
    pub t1: Scalar,
    pub inv_d: Scalar,
}

impl Slab {
    /// The parameter at which the ray enters the slab: `t1` where the ray
    /// runs against the axis, else `t0`.
    pub open spec fn near(self) -> Scalar {
        if self.inv_d.spec_lt(Scalar { bits: 0 }) {
            self.t1
        } else {
            self.t0
        }
    }

    /// The parameter at which the ray leaves the slab.
    pub open spec fn far(self) -> Scalar {
        if self.inv_d.spec_lt(Scalar { bits: 0 }) {
            self.t0
        } else {
            self.t1
        }
    }

    /// `ray_t` cut down to the part inside the slab. A bound moves only to a
    /// crossing that lies strictly inside it, so a NaN crossing moves nothing.
    pub open spec fn narrow(self, ray_t: Interval) -> Interval {
        Interval {
            min: if ray_t.min.spec_lt(self.near()) {
                self.near()
            } else {
                ray_t.min
            },
            max: if self.far().spec_lt(ray_t.max) {
                self.far()
            } else {
                ray_t.max
            },
        }
    }

    pub fn new(t0: Scalar, t1: Scalar, inv_d: Scalar) -> (s: Slab)
        ensures
            s.t0 == t0,
            s.t1 == t1,
            s.inv_d == inv_d,
    {
        Slab { t0, t1, inv_d }
    }

    fn cut(&self, ray_t: Interval) -> (r: Interval)
        ensures
            r == self.narrow(ray_t),
    {
        let against = self.inv_d.lt(Scalar::zero());
        let near = if against { self.t1 } else { self.t0 };
        let far = if against { self.t0 } else { self.t1 };
        Interval {
            min: if near.gt(ray_t.min) { near } else { ray_t.min },
            max: if far.lt(ray_t.max) { far } else { ray_t.max },
        }
    }
}

impl Aabb {
    /// The box made of the three intervals that `a` and `b` span.
    pub open spec fn spanning(a: Point3, b: Point3) -> Aabb {
        Aabb {
            x: Interval { min: a.x.spec_min(b.x), max: a.x.spec_max(b.x) },
            y: Interval { min: a.y.spec_min(b.y), max: a.y.spec_max(b.y) },
            z: Interval { min: a.z.spec_min(b.z), max: a.z.spec_max(b.z) },
        }
    }

    /// The box of the three hulls, axis by axis.
    pub open spec fn union(a: Aabb, b: Aabb) -> Aabb {
        Aabb {
            x: Interval::hull(a.x, b.x),
            y: Interval::hull(a.y, b.y),
            z: Interval::hull(a.z, b.z),
        }
    }

    /// The box without extent.
    pub open spec fn spec_default() -> Aabb {
        Aabb { x: Interval::spec_empty(), y: Interval::spec_empty(), z: Interval::spec_empty() }
    }

    /// Whether `p` lies inside the box on all three axes.
    pub open spec fn spec_contains(self, p: Point3) -> bool {
        self.x.spec_contains(p.x) && self.y.spec_contains(p.y) && self.z.spec_contains(p.z)
    }

    /// Whether some stretch of `ray_t` is left after all three slabs have cut
    /// it: an interval whose upper bound is not above its lower bound, or is
    /// not comparable with it, is spent.
    pub open spec fn slabs_meet(x: Slab, y: Slab, z: Slab, ray_t: Interval) -> bool {
        let cut_x = x.narrow(ray_t);
        let cut_y = y.narrow(cut_x);
        let cut_z = z.narrow(cut_y);
        !cut_x.max.spec_le(cut_x.min) && !cut_y.max.spec_le(cut_y.min) && !cut_z.max.spec_le(
            cut_z.min,
        )
    }

    /// One side of a padded box: the side itself where its size is at least
    /// the least thickness, else the widened side. A size that is no number
    /// counts as too thin.
    pub open spec fn padded_side(side: Interval, size: Scalar, widened: Interval) -> Interval {
        if (Scalar { bits: THINNEST_BITS }).spec_le(size) {
            side
        } else {
            widened
        }
    }

    /// The box with no side narrower than the least thickness. `sizes` holds
    /// the sizes of the box's three sides, and `widened` the box with every
    /// side moved out by half the least thickness at both ends.
    pub fn pad(&self, sizes: Vector3, widened: &Aabb) -> (r: Aabb)
        ensures
            r.x == Aabb::padded_side(self.x, sizes.x, widened.x),
            r.y == Aabb::padded_side(self.y, sizes.y, widened.y),
            r.z == Aabb::padded_side(self.z, sizes.z, widened.z),
    {
        let delta = Scalar::from_bits(THINNEST_BITS);
        let new_x = if sizes.x.ge(delta) { self.x } else { widened.x };
        let new_y = if sizes.y.ge(delta) { self.y } else { widened.y };
        let new_z = if sizes.z.ge(delta) { self.z } else { widened.z };
        Aabb::new(new_x, new_y, new_z)
    }

    /// The box without extent: the unit of `from_boxes`.
    pub fn default() -> (r: Aabb)
        ensures
            r == Aabb::spec_default(),
    {
        Aabb { x: Interval::empty(), y: Interval::empty(), z: Interval::empty() }
    }

    pub fn new(ix: Interval, iy: Interval, iz: Interval) -> (r: Aabb)
        ensures
            r.x == ix,
            r.y == iy,
            r.z == iz,
    {
        Aabb { x: ix, y: iy, z: iz }
    }

    /// The box with `a` and `b` as two opposite corners, in either order.
    pub fn from_points(a: Point3, b: Point3) -> (r: Aabb)
        ensures
            r == Aabb::spanning(a, b),
    {
        let x = Interval::new(a.x.min(b.x), a.x.max(b.x));
        let y = Interval::new(a.y.min(b.y), a.y.max(b.y));
        let z = Interval::new(a.z.min(b.z), a.z.max(b.z));
        Aabb { x, y, z }
    }

    /// The box around the four corners of a parallelogram: `a` and `d` are
    /// one pair of opposite corners, `b` and `c` the other.
    pub fn from_corners(a: Point3, b: Point3, c: Point3, d: Point3) -> (r: Aabb)
        ensures
            r == Aabb::union(Aabb::spanning(a, d), Aabb::spanning(b, c)),
    {
        Aabb::from_boxes(Aabb::from_points(a, d), Aabb::from_points(b, c))
    }

    pub fn from_boxes(box0: Aabb, box1: Aabb) -> (r: Aabb)
        ensures
            r == Aabb::union(box0, box1),
    {
        let x = Interval::from_intervals(box0.x, box1.x);
        let y = Interval::from_intervals(box0.y, box1.y);
        let z = Interval::from_intervals(box0.z, box1.z);
        Aabb { x, y, z }
    }

    /// The interval of one axis: 1 is y, 2 is z, anything else x.
    pub fn axis(&self, n: u8) -> (r: Interval)
        ensures
            r == if n == 1 { self.y } else if n == 2 { self.z } else { self.x },
    {
        if n == 1 {
            return self.y;
        }
        if n == 2 {
            return self.z;
        }
        self.x
    }

    /// The slab test: whether a ray whose crossings with the box's three
    /// slabs are `x`, `y` and `z` runs through the box somewhere within
    /// `ray_t`.
    pub fn hit(x: Slab, y: Slab, z: Slab, ray_t: Interval) -> (r: bool)
        ensures
            r == Aabb::slabs_meet(x, y, z, ray_t),
    {
        let cut_x = x.cut(ray_t);
        if cut_x.max.le(cut_x.min) {
            return false;
        }
        let cut_y = y.cut(cut_x);
        if cut_y.max.le(cut_y.min) {
            return false;
        }
        let cut_z = z.cut(cut_y);
        if cut_z.max.le(cut_z.min) {
            return false;
        }
        true
    }
}

/// Slab-test correctness over numbers: the test passes exactly when the
/// latest entry among the three slabs and the interval's start comes
/// strictly before the earliest exit among the three slabs and the
/// interval's end, that is when one stretch of parameters lies inside all
/// three slabs and the interval at once.
pub proof fn lemma_slabs_meet_iff_common_stretch(x: Slab, y: Slab, z: Slab, ray_t: Interval)
    requires
        !ray_t.min.is_nan(),
        !ray_t.max.is_nan(),
        !x.near().is_nan() && !x.far().is_nan(),
        !y.near().is_nan() && !y.far().is_nan(),
        !z.near().is_nan() && !z.far().is_nan(),
    ensures
        Aabb::slabs_meet(x, y, z, ray_t) <==> ray_t.min.spec_max(x.near()).spec_max(
            y.near(),
        ).spec_max(z.near()).spec_lt(
            ray_t.max.spec_min(x.far()).spec_min(y.far()).spec_min(z.far()),
        ),
{
}

/// A crossing that is no number, as for a ray that runs inside a bounding
/// plane and parallel to it, cuts nothing away.
pub proof fn lemma_nan_slab_cuts_nothing(s: Slab, ray_t: Interval)
    requires
        s.t0.is_nan(),
        s.t1.is_nan(),
    ensures
        s.narrow(ray_t) == ray_t,
{
}

/// The two corners lie in the box that they span.
pub proof fn lemma_corners_in_box(a: Point3, b: Point3)
    requires
        !a.x.is_nan() && !a.y.is_nan() && !a.z.is_nan(),
        !b.x.is_nan() && !b.y.is_nan() && !b.z.is_nan(),
    ensures
        Aabb::spanning(a, b).spec_contains(a),
        Aabb::spanning(a, b).spec_contains(b),
        Aabb::spanning(a, b).well_formed(),
{
}

/// The box that two corners span holds every point whose coordinates lie,
/// axis by axis, between the corners' coordinates.
pub proof fn lemma_box_holds_between(a: Point3, b: Point3, p: Point3)
    requires
        a.x.spec_le(p.x) && p.x.spec_le(b.x),
        a.y.spec_le(p.y) && p.y.spec_le(b.y),
        a.z.spec_le(p.z) && p.z.spec_le(b.z),
    ensures
        Aabb::spanning(a, b).spec_contains(p),
        Aabb::spanning(b, a).spec_contains(p),
{
}

/// All four corners lie in the box around them, and so does every point
/// whose coordinates lie, axis by axis, between the least and the greatest
/// of the corners' coordinates: every point of the parallelogram.
pub proof fn lemma_four_corners_in_box(a: Point3, b: Point3, c: Point3, d: Point3, p: Point3)
    requires
        !a.x.is_nan() && !a.y.is_nan() && !a.z.is_nan(),
        !b.x.is_nan() && !b.y.is_nan() && !b.z.is_nan(),
        !c.x.is_nan() && !c.y.is_nan() && !c.z.is_nan(),
        !d.x.is_nan() && !d.y.is_nan() && !d.z.is_nan(),
    ensures
        ({
            let r = Aabb::union(Aabb::spanning(a, d), Aabb::spanning(b, c));
            &&& r.well_formed()
            &&& r.spec_contains(a) && r.spec_contains(b) && r.spec_contains(c) && r.spec_contains(d)
            &&& between(p.x, a.x, b.x, c.x, d.x) && between(p.y, a.y, b.y, c.y, d.y) && between(
                p.z,
                a.z,
                b.z,
                c.z,
                d.z,
            ) ==> r.spec_contains(p)
        }),
{
}

/// Whether a number lies between the least and the greatest of four: it is
/// at least one of them and at most one of them.
pub open spec fn between(x: Scalar, a: Scalar, b: Scalar, c: Scalar, d: Scalar) -> bool {
    &&& a.spec_le(x) || b.spec_le(x) || c.spec_le(x) || d.spec_le(x)
    &&& x.spec_le(a) || x.spec_le(b) || x.spec_le(c) || x.spec_le(d)
}

/// A padded box holds what the box held, if the widened box does: padding
/// loses no point.
pub proof fn lemma_padding_keeps_points(b: Aabb, sizes: Vector3, widened: Aabb, p: Point3)
    requires
        b.spec_contains(p),
        widened.spec_contains(p),
    ensures
        (Aabb {
            x: Aabb::padded_side(b.x, sizes.x, widened.x),
            y: Aabb::padded_side(b.y, sizes.y, widened.y),
            z: Aabb::padded_side(b.z, sizes.z, widened.z),
        }).spec_contains(p),
{
}

/// The box that two corners span holds the same points whichever corner
/// is named first.
pub proof fn lemma_corner_order_is_immaterial(a: Point3, b: Point3, p: Point3)
    ensures
        Aabb::spanning(a, b).spec_contains(p) == Aabb::spanning(b, a).spec_contains(p),
{
}

/// The union of two boxes whose bounds are numbers is such a box, and holds
/// what either of them holds. The box without extent holds nothing.
pub proof fn lemma_union_contains(box0: Aabb, box1: Aabb, p: Point3)
    requires
        box0.well_formed(),
        box1.well_formed(),
    ensures
        Aabb::union(box0, box1).well_formed(),
        box0.spec_contains(p) || box1.spec_contains(p) ==> Aabb::union(box0, box1).spec_contains(p),
        Aabb::spec_default().well_formed(),
        !Aabb::spec_default().spec_contains(p),
{
}

impl Aabb {
    /// No bound is a NaN.
    pub open spec fn well_formed(self) -> bool {
        &&& !self.x.min.is_nan() && !self.x.max.is_nan()
        &&& !self.y.min.is_nan() && !self.y.max.is_nan()
        &&& !self.z.min.is_nan() && !self.z.max.is_nan()
    }
}

} // verus!

//! A list of objects, its bounding box, and the search for the nearest hit
//! among its members.

use vstd::prelude::*;
use crate::aabb::{lemma_union_contains, Aabb};
use crate::hittable::{
    consistent, lemma_absorb_keeps_nearest, lemma_nearest_is_unique, no_ties, Closest, Found,
    HitRecord, Probe,
};
use crate::interval::Interval;
use crate::scalar::Scalar;
use crate::vector3::Point3;

verus! {

/// Objects in the order in which they were added, each with its bounding
/// box, and the union of the boxes of all that were ever added.
pub struct HittableList<T> {
    pub objects: Vec<T>,
    pub boxes: Vec<Aabb>,
    pub bbox: Aabb,
}

/// The union of a sequence of boxes, starting from the box without extent.
pub open spec fn union_all(boxes: Seq<Aabb>) -> Aabb
    decreases boxes.len(),
{
    if boxes.len() == 0 {
        Aabb::spec_default()
    } else {
        Aabb::union(union_all(boxes.drop_last()), boxes.last())
    }
}

impl<T> HittableList<T> {
    /// Every object has its box.
    pub open spec fn well_formed(self) -> bool {
        self.objects.len() == self.boxes.len()
    }

    /// The list's box is the union of its members' boxes.
    pub open spec fn tight(self) -> bool {
        self.bbox == union_all(self.boxes@)
    }

    pub fn new() -> (list: HittableList<T>)
        ensures
            list.well_formed(),
            list.tight(),
            list.objects.len() == 0,
    {
        HittableList { objects: Vec::new(), boxes: Vec::new(), bbox: Aabb::default() }
    }

    /// The list of one object with the bounding box `bbox`.
    pub fn from(object: T, bbox: Aabb) -> (list: HittableList<T>)
        ensures
            list.well_formed(),
            list.tight(),
            list.objects@ == seq![object],
            list.boxes@ == seq![bbox],
            list.bbox == Aabb::union(Aabb::spec_default(), bbox),
    {
        let mut list = HittableList::new();
        list.add(object, bbox);
        list
    }

    /// Removes the objects. The bounding box stays as it is.
    pub fn clear(&mut self)
        ensures
            final(self).well_formed(),
            final(self).objects.len() == 0,
            final(self).bbox == old(self).bbox,
    {
        self.objects.clear();
        self.boxes.clear();
    }

    /// Appends an object whose bounding box is `bbox`, and widens the
    /// list's box by it.
    pub fn add(&mut self, object: T, bbox: Aabb)
        ensures
            old(self).well_formed() ==> final(self).well_formed(),
            final(self).objects@ == old(self).objects@.push(object),
            final(self).boxes@ == old(self).boxes@.push(bbox),
            final(self).bbox == Aabb::union(old(self).bbox, bbox),
            old(self).tight() ==> final(self).tight(),
    {
        self.bbox = Aabb::from_boxes(self.bbox, bbox);
        self.objects.push(object);
        self.boxes.push(bbox);
        assert(self.boxes@.drop_last() == old(self).boxes@);
    }

    pub fn bounding_box(&self) -> (b: Aabb)
        ensures
            b == self.bbox,
    {
        self.bbox
    }

    pub fn len(&self) -> (n: usize)
        ensures
            n == self.objects.len(),
    {
        self.objects.len()
    }

    pub fn get(&self, index: usize) -> (object: &T)
        requires
            index < self.objects.len(),
        ensures
            *object == self.objects[index as int],
    {
        &self.objects[index]
    }

    /// Starts the search for the nearest hit of one ray among the members,
    /// within `ray_t`.
    pub fn hit(&self, ray_t: Interval) -> (scan: ListScan)
        ensures
            scan == ListScan::begun(self.objects.len(), ray_t),
    {
        ListScan { len: self.objects.len(), next: 0, t_min: ray_t.min, acc: Closest::new(ray_t.max) }
    }
}

/// The search for the nearest hit among the members of a list, one member
/// at a time in the list's order. The caller tries the ray against the
/// member that `probe` names, within the interval that it names, and
/// reports what came of it to `record`; when `probe` names no member,
/// `finish` has the result.
#[derive(Clone, Copy, Debug, PartialEq, Eq, Structural)]
pub struct ListScan {
    pub len: usize,
    pub next: usize,
    pub t_min: Scalar,
    pub acc: Closest,
}

impl ListScan {
    pub open spec fn begun(len: usize, ray_t: Interval) -> ListScan {
        ListScan { len, next: 0, t_min: ray_t.min, acc: Closest::fresh(ray_t.max) }
    }

    pub open spec fn done(self) -> bool {
        self.next >= self.len
    }

    /// The search after the member in turn answered `outcome`. When all
    /// members were tried, nothing is in turn and nothing changes.
    pub open spec fn recorded(self, outcome: Option<HitRecord>) -> ListScan {
        if self.done() {
            self
        } else {
            ListScan {
                next: (self.next + 1) as usize,
                acc: self.acc.absorbed(self.next, outcome),
                ..self
            }
        }
    }

    /// Where the search ends when every member answers as `probe` says.
    pub open spec fn run(self, probe: Probe) -> Closest
        decreases self.len - self.next,
    {
        if self.next >= self.len {
            self.acc
        } else {
            self.recorded(probe(self.next as int, self.acc.reach(self.t_min))).run(probe)
        }
    }

    /// The member to try next and the interval to try it within, or none
    /// when all were tried. The interval ends at the nearest hit so far, so
    /// a later member can only improve on it.
    pub fn probe(&self) -> (r: Option<(usize, Interval)>)
        ensures
            r == if self.done() {
                None
            } else {
                Some((self.next, self.acc.reach(self.t_min)))
            },
    {
        if self.next >= self.len {
            None
        } else {
            Some((self.next, Interval::new(self.t_min, self.acc.closest_so_far)))
        }
    }

    /// Takes what came of trying the member in turn.
    pub fn record(&mut self, outcome: Option<HitRecord>)
        ensures
            *final(self) == old(self).recorded(outcome),
    {
        if self.next < self.len {
            self.acc.absorb(self.next, outcome);
            self.next = self.next + 1;
        }
    }

    /// The nearest hit among the members tried so far and the member it is
    /// on, or none.
    pub fn finish(&self) -> (r: Option<Found>)
        ensures
            r == self.acc.best,
    {
        self.acc.best
    }
}

/// Whether `answers` says what `probe` returns: whatever the closure may
/// return for a member and an interval is what `answers` gives for them.
pub open spec fn tells<F: Fn(usize, Interval) -> Option<HitRecord>>(probe: F, answers: Probe) -> bool {
    forall|member: usize, within: Interval, out: Option<HitRecord>|
        call_ensures(probe, (member, within), out) ==> out == answers(member as int, within)
}

/// Whether a found hit is what `probe` returned for its member within some
/// interval.
pub open spec fn came_of<F: Fn(usize, Interval) -> Option<HitRecord>>(probe: F, found: Found) -> bool {
    exists|within: Interval| call_ensures(probe, (found.member, within), Some(found.rec))
}

impl<T> HittableList<T> {
    /// The nearest hit of one ray among the members, within `ray_t`, and the
    /// member that it is on. `probe` tries the ray against a member within an
    /// interval; it is called once for each member, in the list's order,
    /// with an interval that ends at the nearest hit so far.
    pub fn closest<F>(&self, ray_t: Interval, probe: F) -> (r: Option<Found>) where
        F: Fn(usize, Interval) -> Option<HitRecord>,

        requires
            forall|member: usize, within: Interval|
                member < self.objects.len() ==> call_requires(probe, (member, within)),
        ensures
            forall|answers: Probe| #[trigger]
                tells(probe, answers) ==> r == ListScan::begun(self.objects.len(), ray_t).run(
                    answers,
                ).best,
            r is Some ==> r.unwrap().member < self.objects.len() && came_of(probe, r.unwrap()),
    {
        let mut scan = self.hit(ray_t);
        while scan.next < scan.len
            invariant
                scan.len == self.objects.len(),
                scan.next <= scan.len,
                scan.acc.best is Some ==> scan.acc.best.unwrap().member < self.objects.len()
                    && came_of(probe, scan.acc.best.unwrap()),
                forall|member: usize, within: Interval|
                    member < self.objects.len() ==> call_requires(probe, (member, within)),
                forall|answers: Probe| #[trigger]
                    tells(probe, answers) ==> scan.run(answers) == ListScan::begun(
                        self.objects.len(),
                        ray_t,
                    ).run(answers),
            decreases scan.len - scan.next,
        {
            let ghost before = scan;
            let within = Interval::new(scan.t_min, scan.acc.closest_so_far);
            let out = probe(scan.next, within);
            scan.record(out);
            proof {
                if out is Some {
                    let found = scan.acc.best.unwrap();
                    assert(out == Some(found.rec));
                    assert(call_ensures(probe, (found.member, within), Some(found.rec)));
                }
                assert forall|answers: Probe| #[trigger] tells(probe, answers) implies scan.run(answers)
                    == ListScan::begun(self.objects.len(), ray_t).run(answers) by {
                    assert(out == answers(before.next as int, within));
                    assert(before.run(answers) == scan.run(answers));
                }
            }
        }
        scan.finish()
    }
}

/// The union of boxes holds every point that one of them holds.
pub proof fn lemma_union_all_bounds(boxes: Seq<Aabb>, i: int, p: Point3)
    requires
        forall|k: int| 0 <= k < boxes.len() ==> (#[trigger] boxes[k]).well_formed(),
        0 <= i < boxes.len() ==> boxes[i].spec_contains(p),
    ensures
        union_all(boxes).well_formed(),
        0 <= i < boxes.len() ==> union_all(boxes).spec_contains(p),
    decreases boxes.len(),
{
    if boxes.len() == 0 {
        lemma_union_contains(Aabb::spec_default(), Aabb::spec_default(), p);
    } else {
        let before = boxes.drop_last();
        lemma_union_all_bounds(before, i, p);
        lemma_union_contains(union_all(before), boxes.last(), p);
    }
}

/// The members `0 .. n`.
pub open spec fn members(n: int) -> Set<int> {
    Set::new(|i: int| 0 <= i < n)
}

/// A search that has the nearest hit among the members before the one in
/// turn ends with the nearest among all of them, if the members from there on
/// answer consistently.
proof fn lemma_scan_keeps_nearest(scan: ListScan, probe: Probe, ray_t: Interval)
    requires
        scan.next <= scan.len,
        scan.t_min == ray_t.min,
        scan.acc.nearest_over(probe, members(scan.next as int), ray_t),
        forall|i: int| scan.next <= i < scan.len ==> consistent(probe, i, ray_t),
    ensures
        scan.run(probe).nearest_over(probe, members(scan.len as int), ray_t),
    decreases scan.len - scan.next,
{
    if scan.next < scan.len {
        lemma_absorb_keeps_nearest(scan.acc, probe, members(scan.next as int), ray_t, scan.next);
        assert(members(scan.next as int).insert(scan.next as int) =~= members(scan.next + 1));
        lemma_scan_keeps_nearest(
            scan.recorded(probe(scan.next as int, scan.acc.reach(scan.t_min))),
            probe,
            ray_t,
        );
    }
}

/// The search through a list returns the nearest hit along the ray: where
/// every member answers consistently, the result is a hit of one member
/// within the whole interval, no member has a nearer one, and there is no
/// result only where no member is hit.
pub proof fn lemma_list_hit_is_nearest(len: usize, probe: Probe, ray_t: Interval)
    requires
        !ray_t.max.is_nan(),
        forall|i: int| 0 <= i < len ==> consistent(probe, i, ray_t),
    ensures
        ListScan::begun(len, ray_t).run(probe).nearest_over(probe, members(len as int), ray_t),
{
    lemma_scan_keeps_nearest(ListScan::begun(len, ray_t), probe, ray_t);
}

/// The nearest hit does not depend on the order of the members. Where a
/// second list holds the members of a first one in another order, `place`
/// giving for each member of the second its place in the first and `back`
/// for each member of the first its place in the second, the two searches
/// find a hit or neither does, and both find it at the same
/// distance; they find it on the same member, with the same record, where
/// no two members are hit at one distance.
pub proof fn lemma_list_order_is_immaterial(
    len: usize,
    first: Probe,
    second: Probe,
    place: spec_fn(int) -> int,
    back: spec_fn(int) -> int,
    ray_t: Interval,
)
    requires
        !ray_t.max.is_nan(),
        forall|i: int| 0 <= i < len ==> consistent(first, i, ray_t),
        forall|i: int| 0 <= i < len ==> 0 <= #[trigger] place(i) < len,
        forall|j: int| 0 <= j < len ==> 0 <= #[trigger] back(j) < len && place(back(j)) == j,
        forall|i: int, within: Interval|
            0 <= i < len ==> #[trigger] second(i, within) == first(place(i), within),
    ensures
        ({
            let a = ListScan::begun(len, ray_t).run(first);
            let b = ListScan::begun(len, ray_t).run(second);
            &&& a.best is Some <==> b.best is Some
            &&& a.closest_so_far.rank() == b.closest_so_far.rank()
            &&& a.best is Some && no_ties(first, members(len as int), ray_t) ==> {
                &&& a.best.unwrap().rec == b.best.unwrap().rec
                &&& a.best.unwrap().member == place(b.best.unwrap().member as int)
            }
        }),
{
    let a = ListScan::begun(len, ray_t).run(first);
    let b = ListScan::begun(len, ray_t).run(second);
    let all = members(len as int);
    assert forall|i: int| 0 <= i < len implies consistent(second, i, ray_t) by {
        assert(consistent(first, place(i), ray_t));
        assert forall|c: Scalar| !c.is_nan() && c.spec_le(ray_t.max) implies ({
            let shorter = #[trigger] second(i, Interval { min: ray_t.min, max: c });
            let whole = second(i, ray_t);
            &&& shorter is Some ==> shorter.unwrap().t.spec_le(c) && whole == shorter
            &&& whole is Some && whole.unwrap().t.spec_lt(c) ==> shorter == whole
        }) by {
            let within = Interval { min: ray_t.min, max: c };
            assert(second(i, within) == first(place(i), within));
            assert(second(i, ray_t) == first(place(i), ray_t));
        }
    }
    lemma_list_hit_is_nearest(len, first, ray_t);
    lemma_list_hit_is_nearest(len, second, ray_t);
    // the second search, told in the places of the first list
    let moved = Closest {
        closest_so_far: b.closest_so_far,
        best: match b.best {
            Some(found) => Some(Found { member: place(found.member as int) as usize, rec: found.rec }),
            None => None,
        },
    };
    assert(moved.nearest_over(first, all, ray_t)) by {
        match b.best {
            Some(found) => {
                assert(all.contains(found.member as int));
                assert(second(found.member as int, ray_t) == first(place(found.member as int), ray_t));
                assert(all.contains(place(found.member as int)));
                assert forall|j: int| all.contains(j) && first(j, ray_t) is Some implies found.rec.t.spec_le(
                    (#[trigger] first(j, ray_t)).unwrap().t,
                ) by {
                    let i = back(j);
                    assert(all.contains(i));
                    assert(second(i, ray_t) == first(j, ray_t));
                }
            },
            None => {
                assert forall|j: int| all.contains(j) implies first(j, ray_t) is None by {
                    let i = back(j);
                    assert(all.contains(i));
                    assert(second(i, ray_t) == first(j, ray_t));
                }
            },
        }
    }
    lemma_nearest_is_unique(a, moved, first, all, ray_t);
}

} // verus!

//! A bounding volume hierarchy over the members of a scene: a binary tree
//! whose every node bounds what lies below it, so that a ray that misses a
//! node's box need not be tried against anything beneath.

use vstd::prelude::*;
use crate::aabb::{lemma_union_contains, Aabb};
use crate::hittable::{
    consistent, lemma_absorb_keeps_nearest, lemma_nearest_is_unique, no_ties, Closest, Found,
    HitRecord, Probe,
};
use crate::hittable_list::{
    came_of, lemma_list_hit_is_nearest, members, tells, HittableList, ListScan,
};
use crate::interval::Interval;
use crate::scalar::Scalar;
use crate::vector3::Point3;

verus! {

/// What hangs below a node: a member of the scene, by its index, or another
/// node, by its index in the tree.
#[derive(Clone, Copy, Debug, PartialEq, Eq, Structural)]
pub enum BvhChild {
    Member(usize),
    Node(usize),
}

/// A node always has two children; over a single member both are that
/// member.
#[derive(Clone, Copy, Debug, PartialEq, Eq, Structural)]
pub struct BvhNode {
    pub left: BvhChild,
    pub right: BvhChild,
    /// The union of the children's boxes.
    pub bbox: Aabb,
    /// The axis along which the node's members were put in order: 0 is x,
    /// 1 is y, 2 is z.
    pub axis: u8,
    /// How many members the node was built over.
    pub count: usize,
}

/// The tree, as its nodes with every node after those below it and the root
/// last, and the members' bounding boxes.
pub struct Bvh {
    pub nodes: Vec<BvhNode>,
    pub boxes: Vec<Aabb>,
}

/// The place of a box along an axis: the rank of its lower bound there.
pub open spec fn sort_key(b: Aabb, axis: u8) -> int {
    if axis == 1 {
        b.y.min.rank()
    } else if axis == 2 {
        b.z.min.rank()
    } else {
        b.x.min.rank()
    }
}

/// The axis for a draw: the draw's remainder by three.
pub open spec fn axis_of(draw: u32) -> u8 {
    (draw % 3) as u8
}

/// The members below a node.
pub open spec fn node_members(nodes: Seq<BvhNode>, j: int) -> Set<int>
    decreases j,
{
    if 0 <= j < nodes.len() {
        let left = match nodes[j].left {
            BvhChild::Member(p) => set![p as int],
            BvhChild::Node(k) => if k < j {
                node_members(nodes, k as int)
            } else {
                Set::empty()
            },
        };
        let right = match nodes[j].right {
            BvhChild::Member(p) => set![p as int],
            BvhChild::Node(k) => if k < j {
                node_members(nodes, k as int)
            } else {
                Set::empty()
            },
        };
        left.union(right)
    } else {
        Set::empty()
    }
}

/// The members below a child.
pub open spec fn child_members(nodes: Seq<BvhNode>, c: BvhChild) -> Set<int> {
    match c {
        BvhChild::Member(p) => set![p as int],
        BvhChild::Node(k) => node_members(nodes, k as int),
    }
}

/// The box of a child.
pub open spec fn child_box(nodes: Seq<BvhNode>, boxes: Seq<Aabb>, c: BvhChild) -> Aabb {
    match c {
        BvhChild::Member(p) => boxes[p as int],
        BvhChild::Node(k) => nodes[k as int].bbox,
    }
}

/// Whether a child of node `j` is a member of the scene or an earlier node.
pub open spec fn child_ok(c: BvhChild, j: int, len: int) -> bool {
    match c {
        BvhChild::Member(p) => p < len,
        BvhChild::Node(k) => k < j,
    }
}

/// Whether node `j` has the shape that its count asks for: over one member
/// both children are that member; over two the children are the two; over
/// more they are nodes, the left one over half the members, rounded down,
/// and the right one over the rest.
pub open spec fn shaped(nodes: Seq<BvhNode>, j: int) -> bool {
    let node = nodes[j];
    match (node.left, node.right) {
        (BvhChild::Member(p), BvhChild::Member(q)) => (node.count == 1 && p == q) || (node.count
            == 2 && p != q),
        (BvhChild::Node(l), BvhChild::Node(r)) => {
            &&& node.count >= 3
            &&& l < j && r < j
            &&& nodes[l as int].count == node.count / 2
            &&& nodes[r as int].count == node.count - node.count / 2
        },
        _ => false,
    }
}

/// Whether node `j` is as a node must be: its children exist and are of the
/// shape that its count asks for, its box is the union of theirs, and along
/// its axis no member on the left lies after one on the right.
pub open spec fn node_ok(nodes: Seq<BvhNode>, boxes: Seq<Aabb>, j: int) -> bool {
    let node = nodes[j];
    &&& child_ok(node.left, j, boxes.len() as int)
    &&& child_ok(node.right, j, boxes.len() as int)
    &&& shaped(nodes, j)
    &&& node.axis < 3
    &&& node.bbox == Aabb::union(
        child_box(nodes, boxes, node.left),
        child_box(nodes, boxes, node.right),
    )
    &&& forall|p: int, q: int|
        child_members(nodes, node.left).contains(p) && child_members(nodes, node.right).contains(q)
            ==> sort_key(#[trigger] boxes[p], node.axis) <= sort_key(#[trigger] boxes[q], node.axis)
}

/// The draw with the number `k`: the draws are used in turn and start over
/// when they run out; without any, every draw is zero.
pub open spec fn draw_for(draws: Seq<u32>, k: int) -> u32 {
    if draws.len() == 0 {
        0
    } else {
        draws[k % (draws.len() as int)]
    }
}

/// The first of the nodes that make up the subtree of node `j`: the nodes
/// of a subtree stand together, those of the left child first and the
/// subtree's root last.
pub open spec fn first_below(nodes: Seq<BvhNode>, j: int) -> int
    decreases j,
{
    if 0 <= j < nodes.len() {
        match nodes[j].left {
            BvhChild::Node(l) => if l < j {
                first_below(nodes, l as int)
            } else {
                j
            },
            BvhChild::Member(_) => j,
        }
    } else {
        j
    }
}

/// Whether node `j` took its axis from the draw whose number is the place
/// of the first node of its subtree.
pub open spec fn drawn(nodes: Seq<BvhNode>, draws: Seq<u32>, j: int) -> bool {
    nodes[j].axis == axis_of(draw_for(draws, first_below(nodes, j)))
}

/// Whether no member stands at two places of `order` from `start` up to
/// `end`.
spec fn distinct(order: Seq<usize>, start: int, end: int) -> bool {
    forall|a: int, b: int| start <= a < b < end ==> order[a] != order[b]
}

/// Whether `p` stands in `order` at a place from `start` up to `end`.
spec fn in_span(order: Seq<usize>, start: int, end: int, p: int) -> bool {
    exists|k: int| start <= k < end && #[trigger] order[k] == p
}

impl Bvh {
    /// The children of every node are members of the scene or earlier
    /// nodes.
    pub open spec fn structured(self) -> bool {
        forall|j: int|
            0 <= j < self.nodes.len() ==> child_ok(
                (#[trigger] self.nodes[j]).left,
                j,
                self.boxes.len() as int,
            ) && child_ok(self.nodes[j].right, j, self.boxes.len() as int)
    }

    /// Every node is as a node must be, and the root, which is the last
    /// node, is built over all members of the scene and has every one of
    /// them below it. A scene without members has a tree without nodes.
    pub open spec fn well_formed(self) -> bool {
        &&& forall|j: int| 0 <= j < self.nodes.len() ==> node_ok(self.nodes@, self.boxes@, j)
        &&& self.nodes.len() == 0 <==> self.boxes.len() == 0
        &&& self.nodes.len() > 0 ==> node_members(self.nodes@, self.nodes.len() - 1) == members(
            self.boxes.len() as int,
        )
        &&& self.nodes.len() > 0 ==> self.nodes[self.nodes.len() - 1].count == self.boxes.len()
    }
}

/// What lies below a node does not change when nodes are added after it.
proof fn lemma_members_stable(a: Seq<BvhNode>, b: Seq<BvhNode>, j: int)
    requires
        a.len() <= b.len(),
        forall|i: int| 0 <= i < a.len() ==> a[i] == b[i],
        0 <= j < a.len(),
    ensures
        node_members(a, j) == node_members(b, j),
    decreases j,
{
    match a[j].left {
        BvhChild::Node(k) => {
            if k < j {
                lemma_members_stable(a, b, k as int);
            }
        },
        _ => {},
    }
    match a[j].right {
        BvhChild::Node(k) => {
            if k < j {
                lemma_members_stable(a, b, k as int);
            }
        },
        _ => {},
    }
}

/// Where a subtree starts does not change when nodes are added after it.
proof fn lemma_first_stable(a: Seq<BvhNode>, b: Seq<BvhNode>, j: int)
    requires
        a.len() <= b.len(),
        forall|i: int| 0 <= i < a.len() ==> a[i] == b[i],
        0 <= j < a.len(),
    ensures
        first_below(a, j) == first_below(b, j),
    decreases j,
{
    match a[j].left {
        BvhChild::Node(l) => {
            if l < j {
                lemma_first_stable(a, b, l as int);
            }
        },
        _ => {},
    }
}

/// A node that is as it must be stays so when nodes are added after it.
proof fn lemma_node_ok_stable(a: Seq<BvhNode>, b: Seq<BvhNode>, boxes: Seq<Aabb>, j: int)
    requires
        a.len() <= b.len(),
        forall|i: int| 0 <= i < a.len() ==> a[i] == b[i],
        0 <= j < a.len(),
        node_ok(a, boxes, j),
    ensures
        node_ok(b, boxes, j),
{
    match a[j].left {
        BvhChild::Node(k) => {
            lemma_members_stable(a, b, k as int);
        },
        _ => {},
    }
    match a[j].right {
        BvhChild::Node(k) => {
            lemma_members_stable(a, b, k as int);
        },
        _ => {},
    }
}

/// The key of the member that stands at place `k` of `order`.
spec fn key_at(order: Seq<usize>, boxes: Seq<Aabb>, axis: u8, k: int) -> int {
    sort_key(boxes[order[k] as int], axis)
}

/// Exchanging two places of a span leaves in the span what was in it.
proof fn lemma_swap_keeps_span(a: Seq<usize>, b: Seq<usize>, start: int, end: int, i: int, j: int)
    requires
        0 <= start <= i < end <= a.len(),
        start <= j < end,
        b == a.update(i, a[j]).update(j, a[i]),
    ensures
        forall|p: int| in_span(b, start, end, p) <==> in_span(a, start, end, p),
{
    assert forall|p: int| in_span(b, start, end, p) <==> in_span(a, start, end, p) by {
        if in_span(a, start, end, p) {
            let k = choose|k: int| start <= k < end && #[trigger] a[k] == p;
            if k == i {
                assert(b[j] == p);
            } else if k == j {
                assert(b[i] == p);
            } else {
                assert(b[k] == p);
            }
        }
        if in_span(b, start, end, p) {
            let k = choose|k: int| start <= k < end && #[trigger] b[k] == p;
            if k == i {
                assert(a[j] == p);
            } else if k == j {
                assert(a[i] == p);
            } else {
                assert(a[k] == p);
            }
        }
    }
}

/// The axis for a draw.
pub fn split_axis(draw: u32) -> (axis: u8)
    ensures
        axis == axis_of(draw),
        axis < 3,
{
    (draw % 3) as u8
}

fn key_below(boxes: &Vec<Aabb>, a: usize, b: usize, axis: u8) -> (r: bool)
    requires
        a < boxes.len(),
        b < boxes.len(),
    ensures
        r == (sort_key(boxes[a as int], axis) < sort_key(boxes[b as int], axis)),
{
    boxes[a].axis(axis).min.ranks_below(boxes[b].axis(axis).min)
}

/// Puts the places `start .. end` of `order` in the order of their members'
/// keys along `axis`.
fn sort_span(order: &mut Vec<usize>, boxes: &Vec<Aabb>, axis: u8, start: usize, end: usize)
    requires
        start <= end <= old(order).len(),
        forall|k: int| 0 <= k < old(order).len() ==> old(order)[k] < boxes.len(),
        distinct(old(order)@, start as int, end as int),
    ensures
        final(order).len() == old(order).len(),
        forall|k: int|
            0 <= k < old(order).len() && !(start <= k < end) ==> final(order)[k] == old(order)[k],
        forall|k: int| 0 <= k < final(order).len() ==> final(order)[k] < boxes.len(),
        distinct(final(order)@, start as int, end as int),
        forall|p: int|
            in_span(final(order)@, start as int, end as int, p) <==> in_span(
                old(order)@,
                start as int,
                end as int,
                p,
            ),
        forall|a: int, b: int|
            start <= a <= b < end ==> key_at(final(order)@, boxes@, axis, a) <= key_at(
                final(order)@,
                boxes@,
                axis,
                b,
            ),
{
    let ghost before = order@;
    let mut i: usize = start;
    while i < end
        invariant
            start <= i <= end <= order.len(),
            order.len() == before.len(),
            forall|k: int| 0 <= k < order.len() ==> order[k] < boxes.len(),
            forall|k: int| 0 <= k < order.len() && !(start <= k < end) ==> order[k] == before[k],
            distinct(order@, start as int, end as int),
            forall|p: int|
                in_span(order@, start as int, end as int, p) <==> in_span(
                    before,
                    start as int,
                    end as int,
                    p,
                ),
            forall|a: int, b: int|
                start <= a <= b < i ==> key_at(order@, boxes@, axis, a) <= key_at(
                    order@,
                    boxes@,
                    axis,
                    b,
                ),
        decreases end - i,
    {
        let mut j: usize = i;
        let mut moving = true;
        while moving && j > start
            invariant
                start <= j <= i < end <= order.len(),
                order.len() == before.len(),
                forall|k: int| 0 <= k < order.len() ==> order[k] < boxes.len(),
                forall|k: int|
                    0 <= k < order.len() && !(start <= k < end) ==> order[k] == before[k],
                distinct(order@, start as int, end as int),
                forall|p: int|
                    in_span(order@, start as int, end as int, p) <==> in_span(
                        before,
                        start as int,
                        end as int,
                        p,
                    ),
                forall|a: int, b: int|
                    start <= a <= b <= i && a != j && b != j ==> key_at(order@, boxes@, axis, a)
                        <= key_at(order@, boxes@, axis, b),
                forall|b: int|
                    j < b <= i ==> key_at(order@, boxes@, axis, j as int) <= #[trigger] key_at(
                        order@,
                        boxes@,
                        axis,
                        b,
                    ),
                !moving && j > start ==> key_at(order@, boxes@, axis, j - 1) <= key_at(
                    order@,
                    boxes@,
                    axis,
                    j as int,
                ),
            decreases j + (if moving { 1int } else { 0int }),
        {
            let upper = order[j];
            let lower = order[j - 1];
            if key_below(boxes, upper, lower, axis) {
                let ghost prior = order@;
                order[j] = lower;
                order[j - 1] = upper;
                proof {
                    assert(order@ == prior.update(j as int, prior[j - 1]).update(j - 1, prior[j as int]));
                    lemma_swap_keeps_span(prior, order@, start as int, end as int, j as int, j - 1);
                    assert(distinct(order@, start as int, end as int)) by {
                        assert forall|a: int, b: int| start <= a < b < end implies order@[a]
                            != order@[b] by {
                            let from_a = if a == j { j - 1 } else if a == j - 1 { j as int } else { a };
                            let from_b = if b == j { j - 1 } else if b == j - 1 { j as int } else { b };
                            assert(order@[a] == prior[from_a] && order@[b] == prior[from_b]);
                            assert(from_a != from_b);
                            if from_a < from_b {
                                assert(prior[from_a] != prior[from_b]);
                            } else {
                                assert(prior[from_b] != prior[from_a]);
                            }
                        }
                    }
                    assert forall|a: int, b: int|
                        start <= a <= b <= i && a != j - 1 && b != j - 1 implies key_at(
                        order@,
                        boxes@,
                        axis,
                        a,
                    ) <= key_at(order@, boxes@, axis, b) by {
                        if b == j {
                            if a != j {
                                assert(key_at(prior, boxes@, axis, a) <= key_at(prior, boxes@, axis, j - 1));
                            }
                        } else if a == j {
                            assert(key_at(prior, boxes@, axis, j - 1) <= key_at(prior, boxes@, axis, b));
                        } else {
                            assert(key_at(prior, boxes@, axis, a) <= key_at(prior, boxes@, axis, b));
                        }
                    }
                    assert forall|b: int| j - 1 < b <= i implies key_at(order@, boxes@, axis, j - 1)
                        <= #[trigger] key_at(order@, boxes@, axis, b) by {
                        if b > j {
                            assert(key_at(prior, boxes@, axis, j as int) <= key_at(prior, boxes@, axis, b));
                        }
                    }
                }
                j = j - 1;
            } else {
                moving = false;
            }
        }
        proof {
            assert forall|a: int, b: int| start <= a <= b < i + 1 implies key_at(order@, boxes@, axis, a)
                <= key_at(order@, boxes@, axis, b) by {
                if a == j && b != j {
                } else if b == j && a != j {
                    assert(key_at(order@, boxes@, axis, a) <= key_at(order@, boxes@, axis, j - 1));
                }
            }
        }
        i = i + 1;
    }
}

fn draw_at(draws: &Vec<u32>, k: usize) -> (d: u32)
    ensures
        d == draw_for(draws@, k as int),
{
    if draws.len() == 0 {
        0
    } else {
        draws[k % draws.len()]
    }
}

fn box_of(nodes: &Vec<BvhNode>, boxes: &Vec<Aabb>, c: BvhChild) -> (b: Aabb)
    requires
        match c {
            BvhChild::Member(p) => p < boxes.len(),
            BvhChild::Node(k) => k < nodes.len(),
        },
    ensures
        b == child_box(nodes@, boxes@, c),
{
    match c {
        BvhChild::Member(p) => boxes[p],
        BvhChild::Node(k) => nodes[k].bbox,
    }
}

/// Builds the subtree over the members at the places `start .. end` of
/// `order` and returns its root, the last node added.
fn build_span(
    nodes: &mut Vec<BvhNode>,
    order: &mut Vec<usize>,
    boxes: &Vec<Aabb>,
    draws: &Vec<u32>,
    start: usize,
    end: usize,
) -> (root: usize)
    requires
        start < end <= old(order).len(),
        forall|k: int| 0 <= k < old(order).len() ==> old(order)[k] < boxes.len(),
        distinct(old(order)@, start as int, end as int),
        forall|j: int| 0 <= j < old(nodes).len() ==> node_ok(old(nodes)@, boxes@, j),
        forall|j: int| 0 <= j < old(nodes).len() ==> drawn(old(nodes)@, draws@, j),
    ensures
        forall|j: int| 0 <= j < final(nodes).len() ==> drawn(final(nodes)@, draws@, j),
        first_below(final(nodes)@, final(nodes).len() - 1) == old(nodes).len(),
        final(order).len() == old(order).len(),
        distinct(final(order)@, start as int, end as int),
        final(nodes)[final(nodes).len() - 1].count == end - start,
        forall|k: int|
            0 <= k < old(order).len() && !(start <= k < end) ==> final(order)[k] == old(order)[k],
        forall|k: int| 0 <= k < final(order).len() ==> final(order)[k] < boxes.len(),
        forall|p: int|
            in_span(final(order)@, start as int, end as int, p) <==> in_span(
                old(order)@,
                start as int,
                end as int,
                p,
            ),
        final(nodes).len() > old(nodes).len(),
        forall|j: int| 0 <= j < old(nodes).len() ==> final(nodes)[j] == old(nodes)[j],
        root == final(nodes).len() - 1,
        forall|j: int| 0 <= j < final(nodes).len() ==> node_ok(final(nodes)@, boxes@, j),
        forall|p: int|
            node_members(final(nodes)@, root as int).contains(p) <==> in_span(
                old(order)@,
                start as int,
                end as int,
                p,
            ),
    decreases end - start,
{
    let ghost nodes0 = nodes@;
    let ghost order0 = order@;
    let axis = split_axis(draw_at(draws, nodes.len()));
    let span = end - start;
    let left: BvhChild;
    let right: BvhChild;
    let ghost sorted = order@;
    let ghost mid_g: int = start as int;
    let ghost nodes1_g = nodes@;
    if span == 1 {
        left = BvhChild::Member(order[start]);
        right = BvhChild::Member(order[start]);
    } else if span == 2 {
        let a = order[start];
        let b = order[start + 1];
        if key_below(boxes, a, b, axis) {
            left = BvhChild::Member(a);
            right = BvhChild::Member(b);
        } else {
            left = BvhChild::Member(b);
            right = BvhChild::Member(a);
        }
    } else {
        sort_span(order, boxes, axis, start, end);
        proof {
            sorted = order@;
        }
        let mid = start + span / 2;
        proof {
            mid_g = mid as int;
        }
        let l = build_span(nodes, order, boxes, draws, start, mid);
        let ghost nodes1 = nodes@;
        let ghost order1 = order@;
        proof {
            nodes1_g = nodes@;
        }
        let r = build_span(nodes, order, boxes, draws, mid, end);
        left = BvhChild::Node(l);
        right = BvhChild::Node(r);
        proof {
            lemma_members_stable(nodes1, nodes@, l as int);
            assert forall|p: int| in_span(sorted, mid as int, end as int, p) <==> in_span(
                order1,
                mid as int,
                end as int,
                p,
            ) by {
                lemma_same_span(sorted, order1, mid as int, end as int, p);
            }
            assert forall|p: int| in_span(order@, start as int, mid as int, p) <==> in_span(
                order1,
                start as int,
                mid as int,
                p,
            ) by {
                lemma_same_span(order@, order1, start as int, mid as int, p);
            }
            assert forall|p: int| in_span(order@, start as int, end as int, p) <==> in_span(
                sorted,
                start as int,
                end as int,
                p,
            ) by {
                lemma_span_splits(order@, start as int, mid as int, end as int, p);
                lemma_span_splits(sorted, start as int, mid as int, end as int, p);
            }
            assert forall|a: int, b: int| start <= a < b < end implies order@[a] != order@[b] by {
                if a < mid && mid <= b {
                    let x = order@[a] as int;
                    let y = order@[b] as int;
                    assert(in_span(order@, start as int, mid as int, x));
                    assert(in_span(order1, start as int, mid as int, x));
                    assert(in_span(order@, mid as int, end as int, y));
                    assert(in_span(order1, mid as int, end as int, y));
                    assert(in_span(sorted, mid as int, end as int, y));
                    let ka = choose|k: int| start <= k < mid && #[trigger] sorted[k] == x;
                    let kb = choose|k: int| mid <= k < end && #[trigger] sorted[k] == y;
                    assert(sorted[ka] != sorted[kb]);
                }
            }
        }
    }
    let bbox = Aabb::from_boxes(box_of(nodes, boxes, left), box_of(nodes, boxes, right));
    let ghost nodes2 = nodes@;
    nodes.push(BvhNode { left, right, bbox, axis, count: span });
    let root = nodes.len() - 1;
    proof {
        let last = root as int;
        assert forall|j: int| 0 <= j < nodes2.len() implies node_ok(nodes@, boxes@, j) by {
            lemma_node_ok_stable(nodes2, nodes@, boxes@, j);
        }
        assert forall|j: int| 0 <= j < nodes2.len() implies drawn(nodes@, draws@, j) by {
            assert(drawn(nodes2, draws@, j));
            lemma_first_stable(nodes2, nodes@, j);
        }
        match left {
            BvhChild::Node(l) => {
                lemma_first_stable(nodes1_g, nodes2, l as int);
                lemma_first_stable(nodes2, nodes@, l as int);
            },
            _ => {},
        }
        assert(first_below(nodes@, last) == nodes0.len());
        match left {
            BvhChild::Node(k) => {
                lemma_members_stable(nodes2, nodes@, k as int);
            },
            _ => {},
        }
        match right {
            BvhChild::Node(k) => {
                lemma_members_stable(nodes2, nodes@, k as int);
            },
            _ => {},
        }
        assert forall|p: int| node_members(nodes@, last).contains(p) <==> in_span(
            order0,
            start as int,
            end as int,
            p,
        ) by {
            if span == 1 {
                if in_span(order0, start as int, end as int, p) {
                    let k = choose|k: int| start <= k < end && #[trigger] order0[k] == p;
                    assert(k == start);
                }
            } else if span == 2 {
                if in_span(order0, start as int, end as int, p) {
                    let k = choose|k: int| start <= k < end && #[trigger] order0[k] == p;
                    assert(k == start || k == start + 1);
                }
            } else {
                lemma_span_splits(sorted, start as int, mid_g, end as int, p);
            }
        }
        assert forall|p: int, q: int|
            child_members(nodes@, left).contains(p) && child_members(nodes@, right).contains(
                q,
            ) implies sort_key(#[trigger] boxes@[p], axis) <= sort_key(#[trigger] boxes@[q], axis) by {
            if span > 2 {
                let kp = choose|k: int| start <= k < mid_g && #[trigger] sorted[k] == p;
                let kq = choose|k: int| mid_g <= k < end && #[trigger] sorted[k] == q;
                assert(key_at(sorted, boxes@, axis, kp) <= key_at(sorted, boxes@, axis, kq));
            }
        }
        assert(node_ok(nodes@, boxes@, last));
    }
    root
}

/// Two orders that agree on a span hold the same members in it.
proof fn lemma_same_span(a: Seq<usize>, b: Seq<usize>, start: int, end: int, p: int)
    requires
        0 <= start <= end <= a.len(),
        a.len() == b.len(),
        forall|k: int| start <= k < end ==> a[k] == b[k],
    ensures
        in_span(a, start, end, p) <==> in_span(b, start, end, p),
{
    if in_span(a, start, end, p) {
        let k = choose|k: int| start <= k < end && #[trigger] a[k] == p;
        assert(b[k] == p);
    }
    if in_span(b, start, end, p) {
        let k = choose|k: int| start <= k < end && #[trigger] b[k] == p;
        assert(a[k] == p);
    }
}

/// A member is in a span exactly when it is in one of the span's two parts.
proof fn lemma_span_splits(a: Seq<usize>, start: int, mid: int, end: int, p: int)
    requires
        start <= mid <= end,
    ensures
        in_span(a, start, end, p) <==> in_span(a, start, mid, p) || in_span(a, mid, end, p),
{
    if in_span(a, start, end, p) {
        let k = choose|k: int| start <= k < end && #[trigger] a[k] == p;
        if k < mid {
            assert(in_span(a, start, mid, p));
        } else {
            assert(in_span(a, mid, end, p));
        }
    }
    if in_span(a, start, mid, p) {
        let k = choose|k: int| start <= k < mid && #[trigger] a[k] == p;
        assert(start <= k < end && a[k] == p);
    }
    if in_span(a, mid, end, p) {
        let k = choose|k: int| mid <= k < end && #[trigger] a[k] == p;
        assert(start <= k < end && a[k] == p);
    }
}

/// A fresh draw from the thread's random number generator, by
/// `rand::random`. Nothing is promised of the number.
#[verifier::external_body]
fn random_draw() -> (draw: u32) {
    rand::random::<u32>()
}

impl Bvh {
    /// Builds the tree over the members whose bounding boxes are `boxes`.
    ///
    /// A node over one member has that member as both children. A node over
    /// two has them as its children, the one with the smaller key along the
    /// node's axis on the left. A node over more puts its members in the
    /// order of their keys along its axis and hands the lower half, rounded
    /// down, to a node on the left and the rest to a node on the right. Each
    /// node takes its axis from the draws, by [`split_axis`]: the draw's
    /// number is the number of nodes that were finished before the node's
    /// subtree was begun.
    pub fn with_draws(boxes: Vec<Aabb>, draws: &Vec<u32>) -> (bvh: Bvh)
        ensures
            bvh.well_formed(),
            bvh.structured(),
            bvh.boxes@ == boxes@,
            forall|j: int| 0 <= j < bvh.nodes.len() ==> drawn(bvh.nodes@, draws@, j),
    {
        let n = boxes.len();
        let mut order: Vec<usize> = Vec::new();
        let mut i: usize = 0;
        while i < n
            invariant
                i <= n,
                n == boxes.len(),
                order.len() == i,
                forall|k: int| 0 <= k < i ==> order[k] == k,
            decreases n - i,
        {
            order.push(i);
            i = i + 1;
        }
        let mut nodes: Vec<BvhNode> = Vec::new();
        if n > 0 {
            let ghost order0 = order@;
            let root = build_span(&mut nodes, &mut order, &boxes, draws, 0, n);
            proof {
                assert forall|p: int| members(n as int).contains(p) <==> in_span(
                    order0,
                    0,
                    n as int,
                    p,
                ) by {
                    if 0 <= p < n {
                        assert(order0[p] == p);
                    }
                }
                assert(node_members(nodes@, root as int) =~= members(n as int));
            }
        }
        let bvh = Bvh { nodes, boxes };
        proof {
            lemma_well_formed_is_structured(bvh);
        }
        bvh
    }

    /// Builds the tree over the members whose bounding boxes are `boxes`,
    /// as [`Bvh::with_draws`] does, with as many random draws as there are
    /// members.
    pub fn new(boxes: Vec<Aabb>) -> (bvh: Bvh)
        ensures
            bvh.well_formed(),
            bvh.structured(),
            bvh.boxes@ == boxes@,
    {
        let n = boxes.len();
        let mut draws: Vec<u32> = Vec::new();
        let mut i: usize = 0;
        while i < n
            invariant
                i <= n,
            decreases n - i,
        {
            draws.push(random_draw());
            i = i + 1;
        }
        Bvh::with_draws(boxes, &draws)
    }

    /// Builds the tree over the members of a list, from their boxes, as
    /// [`Bvh::new`] does.
    pub fn from_list<T>(list: &HittableList<T>) -> (bvh: Bvh)
        ensures
            bvh.well_formed(),
            bvh.structured(),
            bvh.boxes@ == list.boxes@,
    {
        let mut boxes: Vec<Aabb> = Vec::new();
        let mut i: usize = 0;
        while i < list.boxes.len()
            invariant
                i <= list.boxes.len(),
                boxes@ == list.boxes@.take(i as int),
            decreases list.boxes.len() - i,
        {
            boxes.push(list.boxes[i]);
            assert(list.boxes@.take(i + 1) =~= list.boxes@.take(i as int).push(list.boxes[i as int]));
            i = i + 1;
        }
        assert(list.boxes@.take(i as int) =~= list.boxes@);
        Bvh::new(boxes)
    }

    /// The box of the whole scene: the root's, or the box without extent
    /// where the scene has no member.
    pub fn bounding_box(&self) -> (b: Aabb)
        ensures
            b == if self.nodes.len() == 0 {
                Aabb::spec_default()
            } else {
                self.nodes[self.nodes.len() - 1].bbox
            },
    {
        if self.nodes.len() == 0 {
            Aabb::default()
        } else {
            self.nodes[self.nodes.len() - 1].bbox
        }
    }

    /// Starts the search for the nearest hit of one ray, within `ray_t`.
    pub fn hit(&self, ray_t: Interval) -> (walk: BvhWalk)
        ensures
            walk.stack@ == self.roots(),
            walk.t_min == ray_t.min,
            walk.acc == Closest::fresh(ray_t.max),
            walk.fits(*self),
    {
        let mut stack: Vec<BvhChild> = Vec::new();
        if self.nodes.len() > 0 {
            stack.push(BvhChild::Node(self.nodes.len() - 1));
        }
        assert(stack@ =~= self.roots());
        BvhWalk { stack, t_min: ray_t.min, acc: Closest::new(ray_t.max) }
    }

    /// What a walk starts with: the root, if there is one.
    pub open spec fn roots(self) -> Seq<BvhChild> {
        if self.nodes.len() == 0 {
            Seq::empty()
        } else {
            seq![BvhChild::Node((self.nodes.len() - 1) as usize)]
        }
    }
}

/// Whether one fixed ray meets the box of each node within an interval.
pub type BoxProbe = spec_fn(int, Interval) -> bool;

/// What the walk wants to know next.
#[derive(Clone, Copy, Debug, PartialEq, Eq, Structural)]
pub enum BvhAsk {
    /// Does the ray pass through the box of this node within `ray_t`?
    TestBox { node: usize, ray_t: Interval },
    /// Does the ray hit this member of the scene within `ray_t`?
    TestMember { member: usize, ray_t: Interval },
    /// Nothing: the walk is over.
    Done,
}

/// The search for the nearest hit through the tree. What is still to be
/// visited lies on a stack, the next on top. A node whose box the ray misses
/// is dropped with all that is below it; one whose box it meets gives way to
/// its two children, the left one on top. The interval ends at the nearest
/// hit so far.
pub struct BvhWalk {
    pub stack: Vec<BvhChild>,
    pub t_min: Scalar,
    pub acc: Closest,
}

/// What the recursion over the tree goes down by: nothing for a member,
/// and for a node its place in the tree plus one, which is more than that
/// of either child.
pub open spec fn measure(c: BvhChild) -> int {
    match c {
        BvhChild::Member(_) => 0,
        BvhChild::Node(k) => k + 1,
    }
}

/// Where the search stands after all below `c` was visited, starting from
/// `acc`, when members and boxes answer as `probe` and `box_probe` say:
/// below a node whose box is met, first the left child and then the right.
pub open spec fn visit(
    nodes: Seq<BvhNode>,
    c: BvhChild,
    probe: Probe,
    box_probe: BoxProbe,
    t_min: Scalar,
    acc: Closest,
) -> Closest
    decreases measure(c),
{
    match c {
        BvhChild::Member(p) => acc.absorbed(p, probe(p as int, acc.reach(t_min))),
        BvhChild::Node(k) => if k < nodes.len() && box_probe(k as int, acc.reach(t_min)) {
            let node = nodes[k as int];
            let after_left = if measure(node.left) < measure(c) {
                visit(nodes, node.left, probe, box_probe, t_min, acc)
            } else {
                acc
            };
            if measure(node.right) < measure(c) {
                visit(nodes, node.right, probe, box_probe, t_min, after_left)
            } else {
                after_left
            }
        } else {
            acc
        },
    }
}

/// Where the search ends after all on the stack was visited, top first.
pub open spec fn drain(
    nodes: Seq<BvhNode>,
    stack: Seq<BvhChild>,
    probe: Probe,
    box_probe: BoxProbe,
    t_min: Scalar,
    acc: Closest,
) -> Closest
    decreases stack.len(),
{
    if stack.len() == 0 {
        acc
    } else {
        drain(
            nodes,
            stack.drop_last(),
            probe,
            box_probe,
            t_min,
            visit(nodes, stack.last(), probe, box_probe, t_min, acc),
        )
    }
}

/// The number of questions that all below `c` can still raise.
pub open spec fn size(nodes: Seq<BvhNode>, c: BvhChild) -> nat
    decreases measure(c),
{
    match c {
        BvhChild::Member(_) => 1,
        BvhChild::Node(k) => if k < nodes.len() {
            let node = nodes[k as int];
            let left = if measure(node.left) < measure(c) {
                size(nodes, node.left)
            } else {
                0
            };
            let right = if measure(node.right) < measure(c) {
                size(nodes, node.right)
            } else {
                0
            };
            1 + left + right
        } else {
            1
        },
    }
}

/// The number of questions that a stack can still raise.
pub open spec fn pending(nodes: Seq<BvhNode>, stack: Seq<BvhChild>) -> nat
    decreases stack.len(),
{
    if stack.len() == 0 {
        0
    } else {
        pending(nodes, stack.drop_last()) + size(nodes, stack.last())
    }
}

impl BvhWalk {
    /// Everything on the stack is a member of the scene or a node of the
    /// tree.
    pub open spec fn fits(self, bvh: Bvh) -> bool {
        forall|i: int|
            0 <= i < self.stack.len() ==> match #[trigger] self.stack[i] {
                BvhChild::Member(p) => p < bvh.boxes.len(),
                BvhChild::Node(k) => k < bvh.nodes.len(),
            }
    }

    /// What `ask` returns.
    pub open spec fn asked(self) -> BvhAsk {
        if self.stack.len() == 0 {
            BvhAsk::Done
        } else {
            match self.stack@.last() {
                BvhChild::Member(p) => BvhAsk::TestMember {
                    member: p,
                    ray_t: self.acc.reach(self.t_min),
                },
                BvhChild::Node(k) => BvhAsk::TestBox { node: k, ray_t: self.acc.reach(self.t_min) },
            }
        }
    }

    /// Where the walk ends when members and boxes answer as `probe` and
    /// `box_probe` say.
    pub open spec fn outcome(self, bvh: Bvh, probe: Probe, box_probe: BoxProbe) -> Closest {
        drain(bvh.nodes@, self.stack@, probe, box_probe, self.t_min, self.acc)
    }

    /// What the walk wants to know next.
    pub fn ask(&self) -> (r: BvhAsk)
        ensures
            r == self.asked(),
    {
        let n = self.stack.len();
        if n == 0 {
            BvhAsk::Done
        } else {
            let ray_t = Interval::new(self.t_min, self.acc.closest_so_far);
            match self.stack[n - 1] {
                BvhChild::Member(p) => BvhAsk::TestMember { member: p, ray_t },
                BvhChild::Node(k) => BvhAsk::TestBox { node: k, ray_t },
            }
        }
    }

    /// Takes the answer to `TestMember`: the member leaves the stack, and a
    /// hit becomes the nearest so far. Where the walk asked something else,
    /// nothing changes.
    pub fn answer_member(&mut self, outcome: Option<HitRecord>)
        ensures
            final(self).t_min == old(self).t_min,
            match old(self).asked() {
                BvhAsk::TestMember { member, .. } => {
                    &&& final(self).stack@ == old(self).stack@.drop_last()
                    &&& final(self).acc == old(self).acc.absorbed(member, outcome)
                },
                _ => {
                    &&& final(self).stack@ == old(self).stack@
                    &&& final(self).acc == old(self).acc
                },
            },
            forall|bvh: Bvh| old(self).fits(bvh) ==> final(self).fits(bvh),
    {
        let n = self.stack.len();
        if n == 0 {
            return;
        }
        match self.stack[n - 1] {
            BvhChild::Member(p) => {
                self.stack.pop();
                self.acc.absorb(p, outcome);
            },
            BvhChild::Node(_) => {},
        }
    }

    /// Takes the answer to `TestBox`: the node leaves the stack, and where
    /// the ray meets its box its right and its left child enter, the left
    /// one on top. Where the walk asked something else, nothing changes; a
    /// node that the tree does not have leaves the stack without children.
    pub fn answer_box(&mut self, bvh: &Bvh, met: bool)
        ensures
            final(self).t_min == old(self).t_min,
            final(self).acc == old(self).acc,
            match old(self).asked() {
                BvhAsk::TestBox { node, .. } => final(self).stack@ == if met && node
                    < bvh.nodes.len() {
                    old(self).stack@.drop_last().push(bvh.nodes[node as int].right).push(
                        bvh.nodes[node as int].left,
                    )
                } else {
                    old(self).stack@.drop_last()
                },
                _ => final(self).stack@ == old(self).stack@,
            },
            old(self).fits(*bvh) && bvh.structured() ==> final(self).fits(*bvh),
    {
        let n = self.stack.len();
        if n == 0 {
            return;
        }
        match self.stack[n - 1] {
            BvhChild::Node(k) => {
                self.stack.pop();
                if met && k < bvh.nodes.len() {
                    let node = bvh.nodes[k];
                    self.stack.push(node.right);
                    self.stack.push(node.left);
                }
            },
            BvhChild::Member(_) => {},
        }
    }

    /// The nearest hit found so far and the member it is on, or none.
    pub fn finish(&self) -> (r: Option<Found>)
        ensures
            r == self.acc.best,
    {
        self.acc.best
    }
}

/// The box of a node holds every point that the box of a member below it
/// holds, all the way down.
pub proof fn lemma_node_box_bounds(bvh: Bvh, j: int, member: int, p: Point3)
    requires
        bvh.well_formed(),
        forall|k: int| 0 <= k < bvh.boxes.len() ==> (#[trigger] bvh.boxes[k]).well_formed(),
        0 <= j < bvh.nodes.len(),
        node_members(bvh.nodes@, j).contains(member) ==> bvh.boxes[member].spec_contains(p),
    ensures
        bvh.nodes[j].bbox.well_formed(),
        node_members(bvh.nodes@, j).contains(member) ==> bvh.nodes[j].bbox.spec_contains(p),
    decreases j,
{
    assert(node_ok(bvh.nodes@, bvh.boxes@, j));
    let node = bvh.nodes[j];
    match node.left {
        BvhChild::Node(l) => {
            lemma_node_box_bounds(bvh, l as int, member, p);
        },
        BvhChild::Member(_) => {},
    }
    match node.right {
        BvhChild::Node(r) => {
            lemma_node_box_bounds(bvh, r as int, member, p);
        },
        BvhChild::Member(_) => {},
    }
    let left = child_box(bvh.nodes@, bvh.boxes@, node.left);
    let right = child_box(bvh.nodes@, bvh.boxes@, node.right);
    lemma_union_contains(left, right, p);
}

/// Whether `boxes_met` says what `box_probe` returns: whatever the closure
/// may return for a node and an interval is what `boxes_met` gives for them.
pub open spec fn tells_box<F: Fn(usize, Interval) -> bool>(box_probe: F, boxes_met: BoxProbe) -> bool {
    forall|node: usize, within: Interval, met: bool|
        call_ensures(box_probe, (node, within), met) ==> met == boxes_met(node as int, within)
}

/// A well-formed tree is structured.
pub proof fn lemma_well_formed_is_structured(bvh: Bvh)
    requires
        bvh.well_formed(),
    ensures
        bvh.structured(),
{
    assert forall|j: int| 0 <= j < bvh.nodes.len() implies child_ok(
        (#[trigger] bvh.nodes[j]).left,
        j,
        bvh.boxes.len() as int,
    ) && child_ok(bvh.nodes[j].right, j, bvh.boxes.len() as int) by {
        assert(node_ok(bvh.nodes@, bvh.boxes@, j));
    }
}

impl Bvh {
    /// Whether the children of every node are members of the scene or
    /// earlier nodes.
    pub fn is_structured(&self) -> (r: bool)
        ensures
            r == self.structured(),
    {
        let mut j: usize = 0;
        while j < self.nodes.len()
            invariant
                j <= self.nodes.len(),
                forall|i: int|
                    0 <= i < j ==> child_ok(
                        (#[trigger] self.nodes[i]).left,
                        i,
                        self.boxes.len() as int,
                    ) && child_ok(self.nodes[i].right, i, self.boxes.len() as int),
            decreases self.nodes.len() - j,
        {
            let node = self.nodes[j];
            let left = match node.left {
                BvhChild::Member(p) => p < self.boxes.len(),
                BvhChild::Node(k) => k < j,
            };
            let right = match node.right {
                BvhChild::Member(p) => p < self.boxes.len(),
                BvhChild::Node(k) => k < j,
            };
            if !left || !right {
                return false;
            }
            j = j + 1;
        }
        true
    }

    /// The nearest hit of one ray in the scene, within `ray_t`, and the
    /// member that it is on. `box_probe` says whether the ray meets the box
    /// of a node within an interval, and `member_probe` tries the ray
    /// against a member within an interval. Both are called as the walk
    /// through the tree asks: a member only if the ray meets the boxes of
    /// all nodes above it, and always with an interval that ends at the
    /// nearest hit so far.
    pub fn closest<B, M>(&self, ray_t: Interval, box_probe: B, member_probe: M) -> (r: Option<
        Found,
    >) where B: Fn(usize, Interval) -> bool, M: Fn(usize, Interval) -> Option<HitRecord>
        requires
            self.structured(),
            forall|node: usize, within: Interval|
                node < self.nodes.len() ==> call_requires(box_probe, (node, within)),
            forall|member: usize, within: Interval|
                member < self.boxes.len() ==> call_requires(member_probe, (member, within)),
        ensures
            forall|answers: Probe, boxes_met: BoxProbe|
                #![trigger tells(member_probe, answers), tells_box(box_probe, boxes_met)]
                tells(member_probe, answers) && tells_box(box_probe, boxes_met) ==> r == drain(
                    self.nodes@,
                    self.roots(),
                    answers,
                    boxes_met,
                    ray_t.min,
                    Closest::fresh(ray_t.max),
                ).best,
            r is Some ==> r.unwrap().member < self.boxes.len() && came_of(member_probe, r.unwrap()),
    {
        let mut walk = self.hit(ray_t);
        loop
            invariant
                self.structured(),
                walk.fits(*self),
                walk.t_min == ray_t.min,
                walk.acc.best is Some ==> walk.acc.best.unwrap().member < self.boxes.len()
                    && came_of(member_probe, walk.acc.best.unwrap()),
                forall|node: usize, within: Interval|
                    node < self.nodes.len() ==> call_requires(box_probe, (node, within)),
                forall|member: usize, within: Interval|
                    member < self.boxes.len() ==> call_requires(member_probe, (member, within)),
                forall|answers: Probe, boxes_met: BoxProbe|
                    #![trigger tells(member_probe, answers), tells_box(box_probe, boxes_met)]
                    tells(member_probe, answers) && tells_box(box_probe, boxes_met)
                        ==> walk.outcome(*self, answers, boxes_met) == drain(
                        self.nodes@,
                        self.roots(),
                        answers,
                        boxes_met,
                        ray_t.min,
                        Closest::fresh(ray_t.max),
                    ),
            decreases pending(self.nodes@, walk.stack@),
        {
            let ghost before = walk;
            match walk.ask() {
                BvhAsk::Done => {
                    return walk.finish();
                },
                BvhAsk::TestBox { node, ray_t: within } => {
                    assert(walk.stack[walk.stack.len() - 1] == BvhChild::Node(node));
                    let met = box_probe(node, within);
                    walk.answer_box(self, met);
                    proof {
                        assert forall|answers: Probe, boxes_met: BoxProbe|
                            #![trigger tells(member_probe, answers), tells_box(box_probe, boxes_met)]
                            tells(member_probe, answers) && tells_box(
                                box_probe,
                                boxes_met,
                            ) implies walk.outcome(*self, answers, boxes_met) == before.outcome(
                            *self,
                            answers,
                            boxes_met,
                        ) by {
                            assert(met == boxes_met(node as int, within));
                            lemma_answer_keeps_outcome(*self, before, walk, answers, boxes_met);
                        }
                        lemma_answer_shortens_walk(*self, before, walk);
                    }
                },
                BvhAsk::TestMember { member, ray_t: within } => {
                    assert(walk.stack[walk.stack.len() - 1] == BvhChild::Member(member));
                    let out = member_probe(member, within);
                    walk.answer_member(out);
                    proof {
                        if out is Some {
                            let found = walk.acc.best.unwrap();
                            assert(out == Some(found.rec));
                            assert(call_ensures(member_probe, (found.member, within), Some(found.rec)));
                        }
                        assert forall|answers: Probe, boxes_met: BoxProbe|
                            #![trigger tells(member_probe, answers), tells_box(box_probe, boxes_met)]
                            tells(member_probe, answers) && tells_box(
                                box_probe,
                                boxes_met,
                            ) implies walk.outcome(*self, answers, boxes_met) == before.outcome(
                            *self,
                            answers,
                            boxes_met,
                        ) by {
                            assert(out == answers(member as int, within));
                            lemma_answer_keeps_outcome(*self, before, walk, answers, boxes_met);
                        }
                        lemma_answer_shortens_walk(*self, before, walk);
                    }
                },
            }
        }
    }
}

/// Whether the boxes bound what is below them, as far as one ray can tell:
/// the ray meets the box of every node below which it hits a member, within
/// the same interval.
pub open spec fn sound_boxes(nodes: Seq<BvhNode>, probe: Probe, box_probe: BoxProbe) -> bool {
    forall|k: int, p: int, ray_t: Interval|
        0 <= k < nodes.len() && node_members(nodes, k).contains(p) && (#[trigger] probe(
            p,
            ray_t,
        )) is Some ==> #[trigger] box_probe(k, ray_t)
}

/// What is below a node of a well-formed tree is a member of the scene.
proof fn lemma_members_in_range(bvh: Bvh, k: int, p: int)
    requires
        bvh.well_formed(),
        0 <= k < bvh.nodes.len(),
        node_members(bvh.nodes@, k).contains(p),
    ensures
        0 <= p < bvh.boxes.len(),
    decreases k,
{
    assert(node_ok(bvh.nodes@, bvh.boxes@, k));
    let node = bvh.nodes[k];
    match node.left {
        BvhChild::Node(j) => {
            if node_members(bvh.nodes@, j as int).contains(p) {
                lemma_members_in_range(bvh, j as int, p);
            }
        },
        _ => {},
    }
    match node.right {
        BvhChild::Node(j) => {
            if node_members(bvh.nodes@, j as int).contains(p) {
                lemma_members_in_range(bvh, j as int, p);
            }
        },
        _ => {},
    }
}

/// Every answer leaves the walk with fewer questions to come: the walk
/// ends.
pub proof fn lemma_answer_shortens_walk(bvh: Bvh, before: BvhWalk, after: BvhWalk)
    requires
        bvh.structured(),
        before.fits(bvh),
        match before.asked() {
            BvhAsk::TestMember { .. } => after.stack@ == before.stack@.drop_last(),
            BvhAsk::TestBox { node, .. } => {
                ||| after.stack@ == before.stack@.drop_last()
                ||| after.stack@ == before.stack@.drop_last().push(
                    bvh.nodes[node as int].right,
                ).push(bvh.nodes[node as int].left)
            },
            BvhAsk::Done => false,
        },
    ensures
        pending(bvh.nodes@, after.stack@) < pending(bvh.nodes@, before.stack@),
{
    let nodes = bvh.nodes@;
    let rest = before.stack@.drop_last();
    match before.stack@.last() {
        BvhChild::Member(p) => {},
        BvhChild::Node(k) => {
            assert(before.stack[before.stack.len() - 1] == BvhChild::Node(k));
            let node = nodes[k as int];
            let with_right = rest.push(node.right);
            let with_both = with_right.push(node.left);
            assert(with_both.drop_last() == with_right);
            assert(with_right.drop_last() == rest);
            assert(pending(nodes, with_both) == pending(nodes, with_right) + size(nodes, node.left));
            assert(pending(nodes, with_right) == pending(nodes, rest) + size(nodes, node.right));
        },
    }
}

/// Answering the walk's question as the probes say does not change where
/// the walk ends.
pub proof fn lemma_answer_keeps_outcome(
    bvh: Bvh,
    before: BvhWalk,
    after: BvhWalk,
    probe: Probe,
    box_probe: BoxProbe,
)
    requires
        bvh.structured(),
        before.fits(bvh),
        after.t_min == before.t_min,
        match before.asked() {
            BvhAsk::TestMember { member, ray_t } => {
                &&& after.stack@ == before.stack@.drop_last()
                &&& after.acc == before.acc.absorbed(member, probe(member as int, ray_t))
            },
            BvhAsk::TestBox { node, ray_t } => {
                &&& after.acc == before.acc
                &&& after.stack@ == if box_probe(node as int, ray_t) {
                    before.stack@.drop_last().push(bvh.nodes[node as int].right).push(
                        bvh.nodes[node as int].left,
                    )
                } else {
                    before.stack@.drop_last()
                }
            },
            BvhAsk::Done => false,
        },
    ensures
        after.outcome(bvh, probe, box_probe) == before.outcome(bvh, probe, box_probe),
{
    let nodes = bvh.nodes@;
    let rest = before.stack@.drop_last();
    let t_min = before.t_min;
    match before.stack@.last() {
        BvhChild::Member(p) => {},
        BvhChild::Node(k) => {
            assert(before.stack[before.stack.len() - 1] == BvhChild::Node(k));
            if box_probe(k as int, before.acc.reach(t_min)) {
                let node = nodes[k as int];
                let with_right = rest.push(node.right);
                let with_both = with_right.push(node.left);
                assert(with_both.drop_last() == with_right);
                assert(with_right.drop_last() == rest);
                let after_left = visit(nodes, node.left, probe, box_probe, t_min, before.acc);
                assert(drain(nodes, with_both, probe, box_probe, t_min, before.acc) == drain(
                    nodes,
                    with_right,
                    probe,
                    box_probe,
                    t_min,
                    after_left,
                ));
                assert(drain(nodes, with_right, probe, box_probe, t_min, after_left) == drain(
                    nodes,
                    rest,
                    probe,
                    box_probe,
                    t_min,
                    visit(nodes, node.right, probe, box_probe, t_min, after_left),
                ));
            }
        },
    }
}

/// A search that holds the nearest hit among the members tried keeps doing so
/// when it passes over members that the ray does not hit within its reach.
proof fn lemma_pruning_keeps_nearest(
    acc: Closest,
    probe: Probe,
    tried: Set<int>,
    passed: Set<int>,
    ray_t: Interval,
)
    requires
        acc.nearest_over(probe, tried, ray_t),
        forall|i: int| passed.contains(i) ==> 0 <= i <= usize::MAX && consistent(probe, i, ray_t),
        forall|i: int| passed.contains(i) ==> probe(i, acc.reach(ray_t.min)) is None,
    ensures
        acc.nearest_over(probe, tried.union(passed), ray_t),
{
    assert forall|i: int| passed.contains(i) implies acc.nearest_over(
        probe,
        tried.insert(i),
        ray_t,
    ) by {
        lemma_absorb_keeps_nearest(acc, probe, tried, ray_t, i as usize);
    }
    match acc.best {
        None => {
            assert forall|i: int| tried.union(passed).contains(i) implies probe(i, ray_t) is None by {
                if passed.contains(i) {
                    assert(acc.nearest_over(probe, tried.insert(i), ray_t));
                    assert(tried.insert(i).contains(i));
                }
            }
        },
        Some(found) => {
            assert forall|i: int|
                tried.union(passed).contains(i) && probe(i, ray_t) is Some implies found.rec.t.spec_le(
                (#[trigger] probe(i, ray_t)).unwrap().t,
            ) by {
                if passed.contains(i) {
                    assert(acc.nearest_over(probe, tried.insert(i), ray_t));
                    assert(tried.insert(i).contains(i));
                }
            }
        },
    }
}

/// Visiting a child of a well-formed tree keeps the search's hit the
/// nearest: after the visit it is the nearest among the members tried
/// before and those below the child.
proof fn lemma_visit_keeps_nearest(
    bvh: Bvh,
    c: BvhChild,
    probe: Probe,
    box_probe: BoxProbe,
    ray_t: Interval,
    acc: Closest,
    tried: Set<int>,
)
    requires
        bvh.well_formed(),
        match c {
            BvhChild::Member(p) => p < bvh.boxes.len(),
            BvhChild::Node(k) => k < bvh.nodes.len(),
        },
        acc.nearest_over(probe, tried, ray_t),
        forall|i: int| 0 <= i < bvh.boxes.len() ==> consistent(probe, i, ray_t),
        sound_boxes(bvh.nodes@, probe, box_probe),
    ensures
        visit(bvh.nodes@, c, probe, box_probe, ray_t.min, acc).nearest_over(
            probe,
            tried.union(child_members(bvh.nodes@, c)),
            ray_t,
        ),
    decreases measure(c),
{
    let nodes = bvh.nodes@;
    match c {
        BvhChild::Member(p) => {
            lemma_absorb_keeps_nearest(acc, probe, tried, ray_t, p);
            assert(tried.insert(p as int) =~= tried.union(set![p as int]));
        },
        BvhChild::Node(k) => {
            assert(node_ok(nodes, bvh.boxes@, k as int));
            let node = nodes[k as int];
            let below = node_members(nodes, k as int);
            if box_probe(k as int, acc.reach(ray_t.min)) {
                lemma_visit_keeps_nearest(bvh, node.left, probe, box_probe, ray_t, acc, tried);
                let after_left = visit(nodes, node.left, probe, box_probe, ray_t.min, acc);
                let tried_left = tried.union(child_members(nodes, node.left));
                lemma_visit_keeps_nearest(
                    bvh,
                    node.right,
                    probe,
                    box_probe,
                    ray_t,
                    after_left,
                    tried_left,
                );
                assert(tried_left.union(child_members(nodes, node.right)) =~= tried.union(below));
            } else {
                assert forall|i: int| below.contains(i) implies 0 <= i <= usize::MAX && consistent(
                    probe,
                    i,
                    ray_t,
                ) && probe(i, acc.reach(ray_t.min)) is None by {
                    lemma_members_in_range(bvh, k as int, i);
                    if probe(i, acc.reach(ray_t.min)) is Some {
                        assert(box_probe(k as int, acc.reach(ray_t.min)));
                    }
                }
                lemma_pruning_keeps_nearest(acc, probe, tried, below, ray_t);
            }
        },
    }
}

/// The walk through a well-formed tree returns the nearest hit along the
/// ray: where every member answers consistently and the boxes are sound, the
/// result is a hit of one member within the whole interval, no member has a
/// nearer one, and there is no result only where no member is hit.
pub proof fn lemma_bvh_hit_is_nearest(bvh: Bvh, probe: Probe, box_probe: BoxProbe, ray_t: Interval)
    requires
        bvh.well_formed(),
        !ray_t.max.is_nan(),
        forall|i: int| 0 <= i < bvh.boxes.len() ==> consistent(probe, i, ray_t),
        sound_boxes(bvh.nodes@, probe, box_probe),
    ensures
        drain(
            bvh.nodes@,
            bvh.roots(),
            probe,
            box_probe,
            ray_t.min,
            Closest::fresh(ray_t.max),
        ).nearest_over(probe, members(bvh.boxes.len() as int), ray_t),
{
    let fresh = Closest::fresh(ray_t.max);
    let none = Set::<int>::empty();
    assert(fresh.nearest_over(probe, none, ray_t));
    if bvh.nodes.len() == 0 {
        assert(members(bvh.boxes.len() as int) =~= none);
    } else {
        let root = BvhChild::Node((bvh.nodes.len() - 1) as usize);
        lemma_visit_keeps_nearest(bvh, root, probe, box_probe, ray_t, fresh, none);
        assert(none.union(child_members(bvh.nodes@, root)) =~= members(bvh.boxes.len() as int));
        assert(bvh.roots().drop_last() =~= Seq::<BvhChild>::empty());
        let visited = visit(bvh.nodes@, root, probe, box_probe, ray_t.min, fresh);
        assert(drain(bvh.nodes@, bvh.roots(), probe, box_probe, ray_t.min, fresh) == drain(
            bvh.nodes@,
            Seq::<BvhChild>::empty(),
            probe,
            box_probe,
            ray_t.min,
            visited,
        ));
    }
}

/// The walk through the tree and the search through the flat list agree:
/// for one scene and one ray both find a hit or neither does, and both find
/// it at the same distance; they find it on the same member, with the same
/// record, where no two members are hit at one distance.
pub proof fn lemma_bvh_agrees_with_list(
    bvh: Bvh,
    probe: Probe,
    box_probe: BoxProbe,
    ray_t: Interval,
)
    requires
        bvh.well_formed(),
        !ray_t.max.is_nan(),
        forall|i: int| 0 <= i < bvh.boxes.len() ==> consistent(probe, i, ray_t),
        sound_boxes(bvh.nodes@, probe, box_probe),
    ensures
        ({
            let through_tree = drain(
                bvh.nodes@,
                bvh.roots(),
                probe,
                box_probe,
                ray_t.min,
                Closest::fresh(ray_t.max),
            );
            let through_list = ListScan::begun(bvh.boxes.len(), ray_t).run(probe);
            &&& through_tree.best is Some <==> through_list.best is Some
            &&& through_tree.closest_so_far.rank() == through_list.closest_so_far.rank()
            &&& through_tree.best is Some && no_ties(
                probe,
                members(bvh.boxes.len() as int),
                ray_t,
            ) ==> through_tree.best == through_list.best
        }),
{
    let through_tree = drain(
        bvh.nodes@,
        bvh.roots(),
        probe,
        box_probe,
        ray_t.min,
        Closest::fresh(ray_t.max),
    );
    let through_list = ListScan::begun(bvh.boxes.len(), ray_t).run(probe);
    lemma_bvh_hit_is_nearest(bvh, probe, box_probe, ray_t);
    lemma_list_hit_is_nearest(bvh.boxes.len(), probe, ray_t);
    lemma_nearest_is_unique(
        through_tree,
        through_list,
        probe,
        members(bvh.boxes.len() as int),
        ray_t,
    );
}

} // verus!

//! Axis-aligned bounding boxes and the bounding-volume hierarchy over a triangle list.
//!
//! Coordinates are ordinals: integers that order as the renderer's coordinates do, so
//! that the boxes' corners, their unions and the sort by axis come out as with the
//! coordinates themselves.
use crate::hitable::{
    hit_distance, is_probe, lemma_list_hit_nearest, list_hit, narrows, probe_answer,
};
use crate::random::random_below;
use vstd::arithmetic::power::lemma_pow0;
use vstd::arithmetic::power2::{lemma_pow2, lemma_pow2_unfold, pow2};
use vstd::prelude::*;
use vstd::seq_lib::group_to_multiset_ensures;

verus! {

broadcast use group_to_multiset_ensures;

/// A point of space by the ordinals of its three coordinates.
#[derive(Clone, Copy, Debug, PartialEq, Eq, Structural)]
pub struct Ordinals3 {
    pub x: u32,
    pub y: u32,
    pub z: u32,
}

pub open spec fn min_u32(a: u32, b: u32) -> u32 {
    if a <= b {
        a
    } else {
        b
    }
}

pub open spec fn max_u32(a: u32, b: u32) -> u32 {
    if a >= b {
        a
    } else {
        b
    }
}

impl Ordinals3 {
    /// The coordinate on axis 0, 1 or 2.
    pub open spec fn at(self, axis: int) -> u32 {
        if axis == 0 {
            self.x
        } else if axis == 1 {
            self.y
        } else {
            self.z
        }
    }

    pub fn get(&self, axis: usize) -> (r: u32)
        requires
            axis < 3,
        ensures
            r == self.at(axis as int),
    {
        if axis == 0 {
            self.x
        } else if axis == 1 {
            self.y
        } else {
            self.z
        }
    }

    /// Not above `o` on any axis.
    pub open spec fn le(self, o: Ordinals3) -> bool {
        self.x <= o.x && self.y <= o.y && self.z <= o.z
    }

    pub open spec fn min(self, o: Ordinals3) -> Ordinals3 {
        Ordinals3 { x: min_u32(self.x, o.x), y: min_u32(self.y, o.y), z: min_u32(self.z, o.z) }
    }

    pub open spec fn max(self, o: Ordinals3) -> Ordinals3 {
        Ordinals3 { x: max_u32(self.x, o.x), y: max_u32(self.y, o.y), z: max_u32(self.z, o.z) }
    }

    fn lesser(&self, o: &Ordinals3) -> (r: Ordinals3)
        ensures
            r == self.min(*o),
    {
        Ordinals3 {
            x: if self.x <= o.x { self.x } else { o.x },
            y: if self.y <= o.y { self.y } else { o.y },
            z: if self.z <= o.z { self.z } else { o.z },
        }
    }

    fn greater(&self, o: &Ordinals3) -> (r: Ordinals3)
        ensures
            r == self.max(*o),
    {
        Ordinals3 {
            x: if self.x >= o.x { self.x } else { o.x },
            y: if self.y >= o.y { self.y } else { o.y },
            z: if self.z >= o.z { self.z } else { o.z },
        }
    }
}

/// The three corners of a triangle.
pub type TriangleOrdinals = (Ordinals3, Ordinals3, Ordinals3);

/// An axis-aligned box between two corners.
#[derive(Clone, Copy, Debug, PartialEq, Eq, Structural)]
pub struct BoundingBox {
    pub min: Ordinals3,
    pub max: Ordinals3,
}

/// The box that holds nothing: it is what the union over no triangles gives.
pub open spec fn empty_box() -> BoundingBox {
    BoundingBox {
        min: Ordinals3 { x: u32::MAX, y: u32::MAX, z: u32::MAX },
        max: Ordinals3 { x: 0, y: 0, z: 0 },
    }
}

/// The smallest box around the corners of `t`.
pub open spec fn triangle_box(t: TriangleOrdinals) -> BoundingBox {
    BoundingBox { min: t.0.min(t.1).min(t.2), max: t.0.max(t.1).max(t.2) }
}

impl BoundingBox {
    /// The box encloses `o`.
    pub open spec fn contains(self, o: BoundingBox) -> bool {
        self.min.le(o.min) && o.max.le(self.max)
    }

    /// The smallest box around both boxes.
    pub open spec fn union(self, o: BoundingBox) -> BoundingBox {
        BoundingBox { min: self.min.min(o.min), max: self.max.max(o.max) }
    }

    pub fn triangle_bounding_box(t: &TriangleOrdinals) -> (r: BoundingBox)
        ensures
            r == triangle_box(*t),
    {
        BoundingBox { min: t.0.lesser(&t.1).lesser(&t.2), max: t.0.greater(&t.1).greater(&t.2) }
    }

    pub fn surrounding_box(b0: BoundingBox, b1: BoundingBox) -> (r: BoundingBox)
        ensures
            r == b0.union(b1),
    {
        BoundingBox { min: b0.min.lesser(&b1.min), max: b0.max.greater(&b1.max) }
    }

    /// The box around every triangle of `list`; the empty box for an empty list.
    pub fn from_face_list(list: &Vec<TriangleOrdinals>) -> (r: BoundingBox)
        ensures
            r == boxes_union(list@, list.len() as nat),
    {
        let mut b = BoundingBox {
            min: Ordinals3 { x: u32::MAX, y: u32::MAX, z: u32::MAX },
            max: Ordinals3 { x: 0, y: 0, z: 0 },
        };
        let mut i: usize = 0;
        while i < list.len()
            invariant
                i <= list.len(),
                b == boxes_union(list@, i as nat),
            decreases list.len() - i,
        {
            b = BoundingBox::surrounding_box(b, BoundingBox::triangle_bounding_box(&list[i]));
            i = i + 1;
        }
        b
    }
}

/// The union of the boxes of the first `n` triangles of `s`.
pub open spec fn boxes_union(s: Seq<TriangleOrdinals>, n: nat) -> BoundingBox
    decreases n,
{
    if n == 0 {
        empty_box()
    } else {
        boxes_union(s, (n - 1) as nat).union(triangle_box(s[n - 1]))
    }
}

/// Along axis `axis`, every box of `l` starts at or below every box of `r`.
pub open spec fn ordered_on(l: Seq<(BoundingBox, usize)>, r: Seq<(BoundingBox, usize)>, axis: int) -> bool {
    forall|a: (BoundingBox, usize), b: (BoundingBox, usize)|
        #[trigger] l.contains(a) && #[trigger] r.contains(b) ==> a.0.min.at(axis) <= b.0.min.at(axis)
}

/// `ordered_on` holds along one of the three axes.
pub open spec fn ordered_on_some_axis(l: Seq<(BoundingBox, usize)>, r: Seq<(BoundingBox, usize)>) -> bool {
    exists|axis: int| 0 <= axis < 3 && #[trigger] ordered_on(l, r, axis)
}

/// A binary tree of boxes: a leaf holds a triangle's box and its index in the list,
/// a node the union of its children's boxes.
pub enum BVHTree {
    Node { left: Box<BVHTree>, right: Box<BVHTree>, aabb: BoundingBox },
    Leaf((BoundingBox, usize)),
}

/// Relies on `slice::sort_by_key`: the items are reordered, none added or lost, into
/// ascending order of the key.
#[verifier::external_body]
fn sort_by_axis(items: &mut Vec<(BoundingBox, usize)>, axis: usize)
    requires
        axis < 3,
    ensures
        final(items)@.to_multiset() == old(items)@.to_multiset(),
        forall|i: int, j: int|
            0 <= i < j < final(items)@.len() ==> (#[trigger] final(items)@[i]).0.min.at(axis as int)
                <= (#[trigger] final(items)@[j]).0.min.at(axis as int),
{
    items.sort_by_key(|e| e.0.min.get(axis))
}

/// The items `lo .. hi` of `v`.
fn slice_of(v: &Vec<(BoundingBox, usize)>, lo: usize, hi: usize) -> (r: Vec<(BoundingBox, usize)>)
    requires
        lo <= hi <= v.len(),
    ensures
        r@ == v@.subrange(lo as int, hi as int),
{
    let mut r: Vec<(BoundingBox, usize)> = Vec::new();
    let mut i = lo;
    while i < hi
        invariant
            lo <= i <= hi <= v.len(),
            r@ == v@.subrange(lo as int, i as int),
        decreases hi - i,
    {
        r.push(v[i]);
        i = i + 1;
    }
    r
}

/// One of the three axes, drawn at random.
fn random_axis() -> (r: usize)
    ensures
        r < 3,
{
    random_below(3) as usize
}

impl BVHTree {
    pub open spec fn bb(self) -> BoundingBox {
        match self {
            BVHTree::Node { aabb, .. } => aabb,
            BVHTree::Leaf((aabb, _)) => aabb,
        }
    }

    /// Each node's box is the union of its children's boxes.
    pub open spec fn wf(self) -> bool
        decreases self,
    {
        match self {
            BVHTree::Node { left, right, aabb } => aabb == left.bb().union(right.bb()) && left.wf()
                && right.wf(),
            BVHTree::Leaf(_) => true,
        }
    }

    /// Nodes on the longest path from this node down to a leaf.
    pub open spec fn height(self) -> nat
        decreases self,
    {
        match self {
            BVHTree::Node { left, right, .. } => 1 + if left.height() >= right.height() {
                left.height()
            } else {
                right.height()
            },
            BVHTree::Leaf(_) => 0,
        }
    }

    /// At each node, along some axis, the box of every leaf on the left starts at or
    /// below the box of every leaf on the right.
    pub open spec fn split_ordered(self) -> bool
        decreases self,
    {
        match self {
            BVHTree::Node { left, right, .. } => {
                &&& ordered_on_some_axis(left.leaves(), right.leaves())
                &&& left.split_ordered()
                &&& right.split_ordered()
            },
            BVHTree::Leaf(_) => true,
        }
    }

    /// The leaves from left to right.
    pub open spec fn leaves(self) -> Seq<(BoundingBox, usize)>
        decreases self,
    {
        match self {
            BVHTree::Node { left, right, .. } => left.leaves() + right.leaves(),
            BVHTree::Leaf(e) => seq![e],
        }
    }

    pub fn bounding_box(&self) -> (r: BoundingBox)
        ensures
            r == self.bb(),
    {
        match self {
            BVHTree::Node { aabb, .. } => *aabb,
            BVHTree::Leaf((aabb, _)) => *aabb,
        }
    }

    /// Splits the items along a randomly chosen axis at the median of their boxes'
    /// lower corners, down to one or two items, which become leaves; a single item
    /// fills both leaves of its node.
    fn build_tree(face_list: &Vec<(BoundingBox, usize)>) -> (r: Self)
        requires
            face_list.len() >= 1,
        ensures
            r.wf(),
            r is Node,
            forall|e| #[trigger] r.leaves().contains(e) <==> face_list@.contains(e),
            forall|k: nat| face_list.len() <= #[trigger] pow2(k) ==> r.height() <= k + 1,
            r.split_ordered(),
        decreases face_list.len(),
    {
        let left;
        let right;
        let axis = random_axis();
        if face_list.len() == 1 {
            left = BVHTree::Leaf(face_list[0]);
            right = BVHTree::Leaf(face_list[0]);
            assert forall|e| #[trigger] face_list@.contains(e) <==> (left.leaves().contains(e)
                || right.leaves().contains(e)) by {
                lemma_single_contains(face_list@[0], e);
            }
            assert forall|a: (BoundingBox, usize), b: (BoundingBox, usize)|
                #[trigger] left.leaves().contains(a) && #[trigger] right.leaves().contains(b) implies a.0.min.at(
                axis as int,
            ) <= b.0.min.at(axis as int) by {
                lemma_single_contains(face_list@[0], a);
                lemma_single_contains(face_list@[0], b);
            }
            assert(ordered_on(left.leaves(), right.leaves(), axis as int));
        } else if face_list.len() == 2 {
            if face_list[0].0.min.get(axis) < face_list[1].0.min.get(axis) {
                left = BVHTree::Leaf(face_list[0]);
                right = BVHTree::Leaf(face_list[1]);
            } else {
                left = BVHTree::Leaf(face_list[1]);
                right = BVHTree::Leaf(face_list[0]);
            }
            assert forall|e| #[trigger] face_list@.contains(e) <==> (left.leaves().contains(e)
                || right.leaves().contains(e)) by {
                lemma_single_contains(face_list@[0], e);
                lemma_single_contains(face_list@[1], e);
                if face_list@.contains(e) {
                    let k = choose|k: int| 0 <= k < 2 && face_list@[k] == e;
                }
            }
            assert forall|a: (BoundingBox, usize), b: (BoundingBox, usize)|
                #[trigger] left.leaves().contains(a) && #[trigger] right.leaves().contains(b) implies a.0.min.at(
                axis as int,
            ) <= b.0.min.at(axis as int) by {
                lemma_single_contains(face_list@[0], a);
                lemma_single_contains(face_list@[1], a);
                lemma_single_contains(face_list@[0], b);
                lemma_single_contains(face_list@[1], b);
            }
            assert(ordered_on(left.leaves(), right.leaves(), axis as int));
        } else {
            let mut new_list = slice_of(face_list, 0, face_list.len());
            assert(new_list@ == face_list@);
            sort_by_axis(&mut new_list, axis);
            assert(new_list@.len() == face_list@.len()) by {
                assert(new_list@.len() == new_list@.to_multiset().len());
                assert(face_list@.len() == face_list@.to_multiset().len());
            }
            let mid = new_list.len() / 2;
            let l = slice_of(&new_list, 0, mid);
            let r = slice_of(&new_list, mid, new_list.len());
            left = BVHTree::build_tree(&l);
            right = BVHTree::build_tree(&r);
            assert forall|k: nat| face_list.len() <= #[trigger] pow2(k) implies left.height() <= k
                && right.height() <= k by {
                if k == 0 {
                    lemma_pow2(0);
                    lemma_pow0(2);
                } else {
                    lemma_pow2_unfold(k);
                    let k1 = (k - 1) as nat;
                    assert(l.len() <= pow2(k1) && r.len() <= pow2(k1));
                }
            }
            assert forall|e| #[trigger] face_list@.contains(e) <==> (left.leaves().contains(e)
                || right.leaves().contains(e)) by {
                assert(face_list@.contains(e) <==> face_list@.to_multiset().count(e) > 0);
                assert(new_list@.contains(e) <==> new_list@.to_multiset().count(e) > 0);
                assert(new_list@ == l@ + r@);
                if new_list@.contains(e) {
                    let k = choose|k: int| 0 <= k < new_list@.len() && new_list@[k] == e;
                    if k < mid {
                        assert(l@[k] == e);
                    } else {
                        assert(r@[k - mid] == e);
                    }
                }
                if l@.contains(e) {
                    let k = choose|k: int| 0 <= k < l@.len() && l@[k] == e;
                    assert(new_list@[k] == e);
                }
                if r@.contains(e) {
                    let k = choose|k: int| 0 <= k < r@.len() && r@[k] == e;
                    assert(new_list@[k + mid] == e);
                }
            }
            assert forall|a: (BoundingBox, usize), b: (BoundingBox, usize)|
                #[trigger] left.leaves().contains(a) && #[trigger] right.leaves().contains(b) implies a.0.min.at(
                axis as int,
            ) <= b.0.min.at(axis as int) by {
                assert(l@.contains(a) && r@.contains(b));
                let i = choose|i: int| 0 <= i < l@.len() && l@[i] == a;
                let j = choose|j: int| 0 <= j < r@.len() && r@[j] == b;
                assert(new_list@[i] == a);
                assert(new_list@[j + mid] == b);
            }
            assert(ordered_on(left.leaves(), right.leaves(), axis as int));
        }
        let aabb = BoundingBox::surrounding_box(left.bounding_box(), right.bounding_box());
        assert(left.wf() && right.wf());
        assert(forall|k: nat|
            face_list.len() <= #[trigger] pow2(k) ==> left.height() <= k && right.height() <= k);
        let ghost lh = left.height();
        let ghost rh = right.height();
        let ghost ll = left.leaves();
        let ghost rl = right.leaves();
        assert(left.split_ordered() && right.split_ordered());
        let r = BVHTree::Node { left: Box::new(left), right: Box::new(right), aabb };
        assert(r.height() == 1 + if lh >= rh { lh } else { rh });
        assert(ordered_on_some_axis(ll, rl));
        proof {
            lemma_leaves_concat(r);
        }
        r
    }
}

proof fn lemma_single_contains(x: (BoundingBox, usize), e: (BoundingBox, usize))
    ensures
        seq![x].contains(e) <==> e == x,
{
    if e == x {
        assert(seq![x][0] == e);
    }
}

proof fn lemma_leaves_concat(t: BVHTree)
    requires
        t is Node,
    ensures
        forall|e| #[trigger] t.leaves().contains(e) <==> (t->left.leaves().contains(e) || t->right.leaves().contains(e)),
{
    let l = t->left.leaves();
    let r = t->right.leaves();
    assert(t.leaves() == l + r);
    assert forall|e| #[trigger] t.leaves().contains(e) <==> (l.contains(e) || r.contains(e)) by {
        if t.leaves().contains(e) {
            let k = choose|k: int| 0 <= k < t.leaves().len() && t.leaves()[k] == e;
            if k < l.len() {
                assert(l[k] == e);
            } else {
                assert(r[k - l.len()] == e);
            }
        }
        if l.contains(e) {
            let k = choose|k: int| 0 <= k < l.len() && l[k] == e;
            assert(t.leaves()[k] == e);
        }
        if r.contains(e) {
            let k = choose|k: int| 0 <= k < r.len() && r[k] == e;
            assert(t.leaves()[k + l.len()] == e);
        }
    }
}

/// The answer that `f` gives for box `b`.
pub open spec fn box_answer<B: Fn(BoundingBox) -> bool>(f: B, b: BoundingBox) -> bool {
    choose|r: bool| call_ensures(f, (b,), r)
}

/// `f` can be asked about any box and answers as a function of it.
pub open spec fn is_box_test<B: Fn(BoundingBox) -> bool>(f: B) -> bool {
    &&& forall|b: BoundingBox| call_requires(f, (b,))
    &&& forall|b: BoundingBox, r: bool| call_ensures(f, (b,), r) ==> r == box_answer(f, b)
}

/// Of two hits, the nearer; the second one when they are equally near.
pub open spec fn closer(a: Option<(u32, usize)>, b: Option<(u32, usize)>) -> Option<(u32, usize)> {
    match (a, b) {
        (Some(l), Some(r)) => if l.0 < r.0 {
            a
        } else {
            b
        },
        (Some(_), None) => a,
        (None, _) => b,
    }
}

impl BVHTree {
    /// The leaves hold exactly the pairs of a triangle's box and its index in `list`.
    pub open spec fn covers(self, list: Seq<TriangleOrdinals>) -> bool {
        forall|e: (BoundingBox, usize)|
            #[trigger] self.leaves().contains(e) <==> (e.1 < list.len() && e.0 == triangle_box(
                list[e.1 as int],
            ))
    }

    /// The hierarchy over the triangles of `list`; over at most `2^k` triangles it is
    /// at most `k + 1` nodes high.
    pub fn from_face_list(list: &Vec<TriangleOrdinals>) -> (r: Self)
        requires
            list.len() >= 1,
        ensures
            r.wf(),
            r.covers(list@),
            r.split_ordered(),
            forall|k: nat| list.len() <= #[trigger] pow2(k) ==> r.height() <= k + 1,
    {
        let mut mlist: Vec<(BoundingBox, usize)> = Vec::new();
        let mut i: usize = 0;
        while i < list.len()
            invariant
                i <= list.len(),
                mlist.len() == i,
                forall|k: int| 0 <= k < i ==> #[trigger] mlist@[k] == (triangle_box(list@[k]), k as usize),
            decreases list.len() - i,
        {
            mlist.push((BoundingBox::triangle_bounding_box(&list[i]), i));
            i = i + 1;
        }
        let r = BVHTree::build_tree(&mlist);
        assert forall|e: (BoundingBox, usize)|
            #[trigger] r.leaves().contains(e) <==> (e.1 < list.len() && e.0 == triangle_box(
                list@[e.1 as int],
            )) by {
            if e.1 < list.len() && e.0 == triangle_box(list@[e.1 as int]) {
                assert(mlist@[e.1 as int] == e);
            }
        }
        r
    }

    /// The nearest hit below this node: a node whose box the ray misses reports none,
    /// a leaf reports its triangle's hit, and a node the nearer of its children's hits.
    pub open spec fn tree_hit(
        self,
        boxf: spec_fn(BoundingBox) -> bool,
        hitf: spec_fn(usize) -> Option<u32>,
    ) -> Option<(u32, usize)>
        decreases self,
    {
        match self {
            BVHTree::Leaf((_, i)) => match hitf(i) {
                Some(t) => Some((t, i)),
                None => None,
            },
            BVHTree::Node { left, right, aabb } => if boxf(aabb) {
                closer(left.tree_hit(boxf, hitf), right.tree_hit(boxf, hitf))
            } else {
                None
            },
        }
    }

    /// The nearest hit among the triangles below this node, as (distance, index);
    /// `hit_box` tests the ray against a box and `hit_leaf` against a triangle.
    pub fn hit_tree<B: Fn(BoundingBox) -> bool, H: Fn(usize) -> Option<u32>>(
        &self,
        hit_box: &B,
        hit_leaf: &H,
    ) -> (r: Option<(u32, usize)>)
        requires
            is_box_test(*hit_box),
            is_probe(*hit_leaf),
        ensures
            r == self.tree_hit(|b: BoundingBox| box_answer(*hit_box, b), |i: usize| probe_answer(*hit_leaf, i)),
        decreases self,
    {
        match self {
            BVHTree::Leaf((_, i)) => match hit_leaf(*i) {
                Some(t) => Some((t, *i)),
                None => None,
            },
            BVHTree::Node { left, right, aabb } => {
                if hit_box(*aabb) {
                    let hit_left = left.hit_tree(hit_box, hit_leaf);
                    let hit_right = right.hit_tree(hit_box, hit_leaf);
                    match (hit_left, hit_right) {
                        (Some(l), Some(r)) => {
                            if l.0 < r.0 {
                                Some(l)
                            } else {
                                Some(r)
                            }
                        },
                        (Some(l), None) => Some(l),
                        (None, Some(r)) => Some(r),
                        (None, None) => None,
                    }
                } else {
                    None
                }
            },
        }
    }
}

/// In a well-formed tree each node's box encloses the boxes of all leaves below it.
pub proof fn lemma_node_encloses_leaves(t: BVHTree)
    requires
        t.wf(),
    ensures
        forall|k: int| 0 <= k < t.leaves().len() ==> t.bb().contains(#[trigger] t.leaves()[k].0),
    decreases t,
{
    match t {
        BVHTree::Node { left, right, aabb } => {
            lemma_node_encloses_leaves(*left);
            lemma_node_encloses_leaves(*right);
            let l = left.leaves();
            let r = right.leaves();
            assert forall|k: int| 0 <= k < t.leaves().len() implies t.bb().contains(
                #[trigger] t.leaves()[k].0,
            ) by {
                if k < l.len() {
                    assert(t.leaves()[k] == l[k]);
                } else {
                    assert(t.leaves()[k] == r[k - l.len()]);
                }
            }
        },
        BVHTree::Leaf(e) => {
            assert(t.leaves()[0] == e);
        },
    }
}

/// When the box test accepts every box that encloses the box of a leaf whose triangle
/// is hit, the tree reports a hit of one of its leaves, and no leaf is hit nearer.
pub proof fn lemma_tree_hit_nearest(
    t: BVHTree,
    boxf: spec_fn(BoundingBox) -> bool,
    hitf: spec_fn(usize) -> Option<u32>,
)
    requires
        t.wf(),
        forall|k: int, b: BoundingBox|
            0 <= k < t.leaves().len() && hitf(#[trigger] t.leaves()[k].1) is Some && b.contains(
                t.leaves()[k].0,
            ) ==> #[trigger] boxf(b),
    ensures
        match t.tree_hit(boxf, hitf) {
            Some(p) => hitf(p.1) == Some(p.0) && exists|k: int|
                0 <= k < t.leaves().len() && (#[trigger] t.leaves()[k]).1 == p.1,
            None => true,
        },
        forall|k: int|
            0 <= k < t.leaves().len() && hitf((#[trigger] t.leaves()[k]).1) is Some ==> t.tree_hit(
                boxf,
                hitf,
            ) is Some && (t.tree_hit(boxf, hitf)->0).0 <= hitf(t.leaves()[k].1)->0,
    decreases t,
{
    match t {
        BVHTree::Node { left, right, aabb } => {
            let l = left.leaves();
            let r = right.leaves();
            assert forall|k: int| 0 <= k < l.len() implies #[trigger] l[k] == t.leaves()[k] by {}
            assert forall|k: int| 0 <= k < r.len() implies #[trigger] r[k] == t.leaves()[k + l.len()] by {}
            assert forall|k: int, b: BoundingBox|
                0 <= k < l.len() && hitf(#[trigger] l[k].1) is Some && b.contains(l[k].0) implies #[trigger] boxf(b) by {
                assert(t.leaves()[k] == l[k]);
            }
            assert forall|k: int, b: BoundingBox|
                0 <= k < r.len() && hitf(#[trigger] r[k].1) is Some && b.contains(r[k].0) implies #[trigger] boxf(b) by {
                assert(t.leaves()[k + l.len()] == r[k]);
            }
            lemma_tree_hit_nearest(*left, boxf, hitf);
            lemma_tree_hit_nearest(*right, boxf, hitf);
            lemma_node_encloses_leaves(t);
            if !boxf(aabb) {
                assert forall|k: int| 0 <= k < t.leaves().len() implies hitf(
                    (#[trigger] t.leaves()[k]).1,
                ) is None by {
                    if hitf(t.leaves()[k].1) is Some {
                        assert(t.bb().contains(t.leaves()[k].0));
                        assert(boxf(aabb));
                    }
                }
            } else {
                let hl = left.tree_hit(boxf, hitf);
                let hr = right.tree_hit(boxf, hitf);
                match hl {
                    Some(p) => {
                        let k = choose|k: int| 0 <= k < l.len() && (#[trigger] l[k]).1 == p.1;
                        assert(t.leaves()[k] == l[k]);
                    },
                    None => {},
                }
                match hr {
                    Some(p) => {
                        let k = choose|k: int| 0 <= k < r.len() && (#[trigger] r[k]).1 == p.1;
                        assert(t.leaves()[k + l.len()] == r[k]);
                    },
                    None => {},
                }
                assert forall|k: int|
                    0 <= k < t.leaves().len() && hitf((#[trigger] t.leaves()[k]).1) is Some implies t.tree_hit(
                    boxf,
                    hitf,
                ) is Some && (t.tree_hit(boxf, hitf)->0).0 <= hitf(t.leaves()[k].1)->0 by {
                    if k < l.len() {
                        assert(t.leaves()[k] == l[k]);
                    } else {
                        assert(t.leaves()[k] == r[k - l.len()]);
                    }
                }
            }
        },
        BVHTree::Leaf(e) => {
            assert(t.leaves()[0] == e);
        },
    }
}

/// The hierarchy built over a triangle list finds the same nearest hit distance as a
/// scan of the whole list, for every ray whose box test accepts each box that
/// encloses a triangle the ray hits. The tree asks each triangle over the full range
/// (`hitf`), the scan up to the nearest hit so far (`bounded`).
pub proof fn lemma_tree_matches_list(
    tree: BVHTree,
    list: Seq<TriangleOrdinals>,
    boxf: spec_fn(BoundingBox) -> bool,
    hitf: spec_fn(usize) -> Option<u32>,
    bounded: spec_fn(usize, Option<u32>) -> Option<u32>,
)
    requires
        tree.wf(),
        tree.covers(list),
        list.len() <= usize::MAX,
        narrows(bounded, hitf),
        forall|i: usize, b: BoundingBox|
            i < list.len() && (#[trigger] hitf(i)) is Some && b.contains(triangle_box(list[i as int]))
                ==> #[trigger] boxf(b),
    ensures
        hit_distance(tree.tree_hit(boxf, hitf)) == hit_distance(list_hit(bounded, list.len())),
{
    let leaves = tree.leaves();
    assert forall|k: int| 0 <= k < leaves.len() implies (#[trigger] leaves[k]).1 < list.len()
        && leaves[k].0 == triangle_box(list[leaves[k].1 as int]) by {
        assert(leaves.contains(leaves[k]));
    }
    lemma_tree_hit_nearest(tree, boxf, hitf);
    lemma_list_hit_nearest(bounded, hitf, list.len());
    let th = tree.tree_hit(boxf, hitf);
    let lh = list_hit(bounded, list.len());
    match th {
        Some(p) => {
            let k = choose|k: int| 0 <= k < leaves.len() && (#[trigger] leaves[k]).1 == p.1;
            assert(hitf(p.1) is Some);
        },
        None => {},
    }
    match lh {
        Some(q) => {
            let e = (triangle_box(list[q.1 as int]), q.1);
            assert(tree.leaves().contains(e));
            let k = choose|k: int| 0 <= k < leaves.len() && leaves[k] == e;
            assert(hitf(leaves[k].1) is Some);
        },
        None => {},
    }
}

} // verus!

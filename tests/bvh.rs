use ray_tracer::bvh::{BVHTree, BoundingBox, Ordinals3, TriangleOrdinals};
use ray_tracer::hitable::closest_hit;

fn o(x: u32, y: u32, z: u32) -> Ordinals3 {
    Ordinals3 { x, y, z }
}

struct Lcg(u64);

impl Lcg {
    fn next(&mut self, bound: u32) -> u32 {
        self.0 = self.0.wrapping_mul(6364136223846793005).wrapping_add(1442695040888963407);
        ((self.0 >> 33) % bound as u64) as u32
    }
}

fn random_triangles(rng: &mut Lcg, n: usize) -> Vec<TriangleOrdinals> {
    (0..n)
        .map(|_| {
            let base = o(rng.next(1000), rng.next(1000), rng.next(1000));
            let mut corner = || o(base.x + rng.next(100), base.y + rng.next(100), base.z + rng.next(100));
            (corner(), corner(), corner())
        })
        .collect()
}

/// A ray parallel to the z axis through (px, py): it hits a triangle's box when the
/// box spans (px, py), at the box's lower z.
fn hits(b: &BoundingBox, px: u32, py: u32) -> bool {
    b.min.x <= px && px <= b.max.x && b.min.y <= py && py <= b.max.y
}

#[test]
fn triangle_box_takes_corner_extremes() {
    let t = (o(3, 9, 1), o(7, 2, 5), o(4, 4, 8));
    let b = BoundingBox::triangle_bounding_box(&t);
    assert_eq!(b.min, o(3, 2, 1));
    assert_eq!(b.max, o(7, 9, 8));
}

#[test]
fn surrounding_box_is_union() {
    let a = BoundingBox { min: o(0, 5, 2), max: o(3, 6, 4) };
    let b = BoundingBox { min: o(1, 1, 3), max: o(2, 9, 7) };
    let u = BoundingBox::surrounding_box(a, b);
    assert_eq!(u.min, o(0, 1, 2));
    assert_eq!(u.max, o(3, 9, 7));
}

#[test]
fn mesh_box_covers_all_triangles() {
    let list = vec![(o(1, 2, 3), o(4, 5, 6), o(2, 2, 2)), (o(0, 9, 4), o(3, 3, 3), o(8, 1, 5))];
    let b = BoundingBox::from_face_list(&list);
    assert_eq!(b.min, o(0, 1, 2));
    assert_eq!(b.max, o(8, 9, 6));
    let e = BoundingBox::from_face_list(&Vec::new());
    assert_eq!(e.min, o(u32::MAX, u32::MAX, u32::MAX));
    assert_eq!(e.max, o(0, 0, 0));
}

fn leaves(t: &BVHTree, out: &mut Vec<usize>) {
    match t {
        BVHTree::Node { left, right, aabb } => {
            for child in [left, right] {
                let cb = child.bounding_box();
                assert!(aabb.min.x <= cb.min.x && cb.max.x <= aabb.max.x);
                assert!(aabb.min.y <= cb.min.y && cb.max.y <= aabb.max.y);
                assert!(aabb.min.z <= cb.min.z && cb.max.z <= aabb.max.z);
            }
            leaves(left, out);
            leaves(right, out);
        }
        BVHTree::Leaf((_, i)) => out.push(*i),
    }
}

#[test]
fn tree_leaves_cover_every_triangle() {
    let mut rng = Lcg(7);
    for n in [1usize, 2, 3, 5, 17, 64] {
        let list = random_triangles(&mut rng, n);
        let tree = BVHTree::from_face_list(&list);
        let mut idx = Vec::new();
        leaves(&tree, &mut idx);
        idx.sort();
        idx.dedup();
        assert_eq!(idx, (0..n).collect::<Vec<_>>());
    }
}

fn height(t: &BVHTree) -> usize {
    match t {
        BVHTree::Node { left, right, .. } => 1 + height(left).max(height(right)),
        BVHTree::Leaf(_) => 0,
    }
}

#[test]
fn tree_height_is_logarithmic() {
    let mut rng = Lcg(3);
    for (n, k) in [(1usize, 0usize), (2, 1), (3, 2), (64, 6), (65, 7), (1000, 10)] {
        let list = random_triangles(&mut rng, n);
        let tree = BVHTree::from_face_list(&list);
        assert!(height(&tree) <= k + 1);
    }
    let list = random_triangles(&mut rng, 64);
    assert_eq!(height(&BVHTree::from_face_list(&list)), 6);
}

#[test]
fn single_triangle_fills_both_leaves() {
    let list = vec![(o(1, 1, 1), o(2, 2, 2), o(3, 1, 2))];
    let tree = BVHTree::from_face_list(&list);
    let mut idx = Vec::new();
    leaves(&tree, &mut idx);
    assert_eq!(idx, vec![0, 0]);
}

#[test]
fn tree_hit_matches_linear_scan() {
    let mut rng = Lcg(42);
    for n in [1usize, 2, 3, 10, 50, 200] {
        let list = random_triangles(&mut rng, n);
        let tree = BVHTree::from_face_list(&list);
        for _ in 0..200 {
            let px = rng.next(1100);
            let py = rng.next(1100);
            let leaf = |i: usize| {
                let b = BoundingBox::triangle_bounding_box(&list[i]);
                if hits(&b, px, py) {
                    Some(b.min.z)
                } else {
                    None
                }
            };
            let in_box = |b: BoundingBox| hits(&b, px, py);
            let bounded = |i: usize, bound: Option<u32>| leaf(i).filter(|t| bound.map_or(true, |b| *t <= b));
            let from_tree = tree.hit_tree(&in_box, &leaf);
            let from_list = closest_hit(list.len(), &bounded);
            assert_eq!(from_tree.map(|h| h.0), from_list.map(|h| h.0));
            if let Some((t, i)) = from_tree {
                assert_eq!(leaf(i), Some(t));
            }
        }
    }
}

#[test]
fn closest_hit_follows_the_bound_on_ties() {
    let answers = [Some(5u32), None, Some(3), Some(3), Some(9)];
    let inclusive = |i: usize, bound: Option<u32>| answers[i].filter(|t| bound.map_or(true, |b| *t <= b));
    assert_eq!(closest_hit(answers.len(), &inclusive), Some((3, 3)));
    let strict = |i: usize, bound: Option<u32>| answers[i].filter(|t| bound.map_or(true, |b| *t < b));
    assert_eq!(closest_hit(answers.len(), &strict), Some((3, 2)));
    assert_eq!(closest_hit(0, &inclusive), None);
    let none = |_: usize, _: Option<u32>| None;
    assert_eq!(closest_hit(4, &none), None);
}

#[test]
fn closest_hit_passes_the_nearest_bound() {
    let answers = [Some(7u32), Some(4), Some(6), Some(2)];
    let asked = std::cell::RefCell::new(Vec::new());
    let probe = |i: usize, bound: Option<u32>| {
        asked.borrow_mut().push(bound);
        answers[i].filter(|t| bound.map_or(true, |b| *t <= b))
    };
    assert_eq!(closest_hit(answers.len(), &probe), Some((2, 3)));
    assert_eq!(asked.into_inner(), vec![None, Some(7), Some(4), Some(4)]);
}

#[test]
fn missed_node_box_reports_nothing() {
    let list = vec![(o(0, 0, 0), o(1, 1, 1), o(1, 0, 1)), (o(5, 5, 5), o(6, 6, 6), o(6, 5, 6))];
    let tree = BVHTree::from_face_list(&list);
    let never = |_: BoundingBox| false;
    let always = |_: usize| Some(1u32);
    assert_eq!(tree.hit_tree(&never, &always), None);
}

#[test]
fn tree_leaves_follow_sorted_order() {
    // the triangles lie in decreasing order on every axis, so whichever axis is drawn
    // the median split must first sort them
    let list: Vec<TriangleOrdinals> = [40u32, 30, 20, 10]
        .iter()
        .map(|&c| (o(c, c, c), o(c + 1, c + 1, c + 1), o(c + 2, c, c + 1)))
        .collect();
    for _ in 0..10 {
        let tree = BVHTree::from_face_list(&list);
        let mut idx = Vec::new();
        leaves(&tree, &mut idx);
        assert_eq!(idx, vec![3, 2, 1, 0]);
    }
}

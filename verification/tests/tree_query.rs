//! Tests of tree construction and the closest-hit query, including a
//! brute-force comparison over pseudo-random scenes.

use bvh::bvh::Bvh;
use bvh::bvh::NodeKind;
use bvh::math::Vec3i;
use bvh::ray::Ray;
use bvh::structs::Triangle;
use bvh::structs::Vec2i;
use bvh::structs::Vec4i;
use bvh::structs::Vertex;

fn v3(x: i64, y: i64, z: i64) -> Vec3i {
    Vec3i { x, y, z }
}

fn vertex_at(x: i64, y: i64, z: i64) -> Vertex {
    Vertex {
        position: v3(x, y, z),
        normal: v3(0, 0, 1),
        tangent: Vec4i { x: 1, y: 0, z: 0, w: 1 },
        colour: Vec4i { x: 255, y: 255, z: 255, w: 255 },
        uv0: Vec2i { x: 0, y: 0 },
        uv1: Vec2i { x: 0, y: 0 },
    }
}

fn tri(a: (i64, i64, i64), b: (i64, i64, i64), c: (i64, i64, i64)) -> Triangle {
    Triangle {
        v0: vertex_at(a.0, a.1, a.2),
        v1: vertex_at(b.0, b.1, b.2),
        v2: vertex_at(c.0, c.1, c.2),
    }
}

/// Compare two rationals with positive denominators.
fn frac_lt(n1: i64, d1: i64, n2: i64, d2: i64) -> bool {
    (n1 as i128) * (d2 as i128) < (n2 as i128) * (d1 as i128)
}

fn frac_same(n1: i64, d1: i64, n2: i64, d2: i64) -> bool {
    (n1 as i128) * (d2 as i128) == (n2 as i128) * (d1 as i128)
}

/// Brute-force closest hit over a triangle list.
fn brute_force(tris: &[Triangle], ray: &Ray) -> Option<(i64, i64)> {
    let mut best: Option<(i64, i64)> = None;
    for t in tris {
        if let Some(h) = t.intersects(ray) {
            let replace = match best {
                None => true,
                Some((bn, bd)) => frac_lt(h.distance.num, h.distance.den, bn, bd),
            };
            if replace {
                best = Some((h.distance.num, h.distance.den));
            }
        }
    }
    best
}

/// A small deterministic pseudo-random generator.
struct Lcg {
    state: u64,
}

impl Lcg {
    fn next(&mut self) -> u64 {
        self.state = self
            .state
            .wrapping_mul(6364136223846793005)
            .wrapping_add(1442695040888963407);
        self.state >> 16
    }

    fn coord(&mut self, span: u64) -> i64 {
        (self.next() % (2 * span + 1)) as i64 - span as i64
    }
}

#[test]
fn single_triangle_scene() {
    let triangles = vec![tri((0, 0, 0), (10, 0, 0), (0, 10, 0))];
    let b = Bvh::construct(triangles);
    let r = Ray::new(v3(2, 2, 10), v3(0, 0, -1), None);
    let hit = b.intersects(&r).expect("must hit");
    assert!(frac_same(hit.distance.num, hit.distance.den, 10, 1));
    let miss = Ray::new(v3(50, 50, 10), v3(0, 0, -1), None);
    assert!(b.intersects(&miss).is_none());
}

#[test]
fn empty_scene_reports_no_hit() {
    let b = Bvh::construct(Vec::new());
    let r = Ray::new(v3(0, 0, 10), v3(0, 0, -1), None);
    assert!(b.intersects(&r).is_none());
}

#[test]
fn clustered_triangles_split_on_x() {
    // Three triangles near x = 0 and three near x = 100: six triangles
    // force a subdivision, and the widest axis is x, so the root must
    // split the index range into the near group and the far group.
    let mut triangles = Vec::new();
    for k in 0..3i64 {
        triangles.push(tri((0, 0, k), (2, 0, k), (0, 2, k)));
    }
    for k in 0..3i64 {
        triangles.push(tri((100, 0, k), (102, 0, k), (100, 2, k)));
    }
    let b = Bvh::construct(triangles);
    match b.nodes[0].kind {
        NodeKind::Internal { left } => assert_eq!(left, 1),
        NodeKind::Leaf { .. } => panic!("root must be internal"),
    }
    // The index permutation puts the three near triangles first.
    let mut near: Vec<usize> = b.indices[0..3].to_vec();
    near.sort();
    assert_eq!(near, vec![0, 1, 2]);
    let mut far: Vec<usize> = b.indices[3..6].to_vec();
    far.sort();
    assert_eq!(far, vec![3, 4, 5]);
    // The root box spans both clusters.
    assert_eq!(b.nodes[0].bounds.min, v3(0, 0, 0));
    assert_eq!(b.nodes[0].bounds.max, v3(102, 2, 2));
}

/// Recursively check the structural invariants of a constructed tree:
/// every node is a leaf over its exact range or an internal node whose
/// children split the range with no gap and no overlap, and every vertex
/// of every triangle of the range lies inside the node's box.
fn check_node(b: &Bvh, node: usize, first: usize, count: usize) {
    let n = &b.nodes[node];
    let mut mn = (i64::MAX, i64::MAX, i64::MAX);
    let mut mx = (i64::MIN, i64::MIN, i64::MIN);
    for k in first..first + count {
        let t = &b.triangles[b.indices[k]];
        for p in [t.v0.position, t.v1.position, t.v2.position] {
            assert!(n.bounds.min.x <= p.x && p.x <= n.bounds.max.x);
            assert!(n.bounds.min.y <= p.y && p.y <= n.bounds.max.y);
            assert!(n.bounds.min.z <= p.z && p.z <= n.bounds.max.z);
            mn = (mn.0.min(p.x), mn.1.min(p.y), mn.2.min(p.z));
            mx = (mx.0.max(p.x), mx.1.max(p.y), mx.2.max(p.z));
        }
    }
    // The node's box is not merely containing but tight: every face is
    // attained by some vertex of its range.
    if count > 0 {
        assert_eq!((n.bounds.min.x, n.bounds.min.y, n.bounds.min.z), mn);
        assert_eq!((n.bounds.max.x, n.bounds.max.y, n.bounds.max.z), mx);
    }
    match n.kind {
        NodeKind::Leaf { first: f, count: c } => {
            assert_eq!(f, first);
            assert_eq!(c, count);
        }
        NodeKind::Internal { left } => {
            let (lf, lc) = match b.nodes[left].kind {
                NodeKind::Leaf { first: f, count: c } => (f, c),
                NodeKind::Internal { .. } => child_range(b, left),
            };
            let (rf, rc) = match b.nodes[left + 1].kind {
                NodeKind::Leaf { first: f, count: c } => (f, c),
                NodeKind::Internal { .. } => child_range(b, left + 1),
            };
            // The two children partition the parent's range exactly.
            assert_eq!(lf, first);
            assert_eq!(lf + lc, rf);
            assert_eq!(rf + rc, first + count);
            assert!(lc > 0 && rc > 0);
            check_node(b, left, lf, lc);
            check_node(b, left + 1, rf, rc);
        }
    }
}

/// The range covered by an internal node, recovered from its leaves.
fn child_range(b: &Bvh, node: usize) -> (usize, usize) {
    match b.nodes[node].kind {
        NodeKind::Leaf { first, count } => (first, count),
        NodeKind::Internal { left } => {
            let (lf, lc) = child_range(b, left);
            let (_, rc) = child_range(b, left + 1);
            (lf, lc + rc)
        }
    }
}

#[test]
fn constructed_tree_invariants_hold() {
    let mut rng = Lcg { state: 7 };
    let mut triangles = Vec::new();
    for _ in 0..40 {
        triangles.push(tri(
            (rng.coord(100), rng.coord(100), rng.coord(100)),
            (rng.coord(100), rng.coord(100), rng.coord(100)),
            (rng.coord(100), rng.coord(100), rng.coord(100)),
        ));
    }
    let n = triangles.len();
    let b = Bvh::construct(triangles);
    // The index array is a permutation of 0..n.
    let mut seen = vec![false; n];
    for &i in &b.indices {
        assert!(i < n && !seen[i]);
        seen[i] = true;
    }
    // Two children per internal node and non-empty leaves bound the node
    // count by 2n - 1.
    assert!(b.nodes.len() <= 2 * n - 1);
    check_node(&b, 0, 0, n);
}

#[test]
fn small_lists_stay_a_single_leaf() {
    for n in 0..3i64 {
        let mut triangles = Vec::new();
        for k in 0..n {
            triangles.push(tri((k, 0, 0), (k + 2, 0, 0), (k, 2, 0)));
        }
        let b = Bvh::construct(triangles);
        assert_eq!(b.nodes.len(), 1);
        match b.nodes[0].kind {
            NodeKind::Leaf { first, count } => {
                assert_eq!(first, 0);
                assert_eq!(count, n as usize);
            }
            NodeKind::Internal { .. } => panic!("small scenes must stay one leaf"),
        }
    }
}

#[test]
fn coincident_centroids_abort_the_split() {
    // Four identical triangles: every centroid equals the mean, the
    // partition puts everything on one side, and the node must stay a
    // leaf over the full range instead of recursing forever.
    let t = tri((0, 0, 0), (4, 0, 0), (0, 4, 0));
    let b = Bvh::construct(vec![t, t, t, t]);
    assert_eq!(b.nodes.len(), 1);
    match b.nodes[0].kind {
        NodeKind::Leaf { first, count } => {
            assert_eq!((first, count), (0, 4));
        }
        NodeKind::Internal { .. } => panic!("one-sided split must abort"),
    }
}

#[test]
fn query_matches_brute_force() {
    // The closest-hit contract in action: for pseudo-random scenes and
    // rays, the tree query and a linear scan agree exactly.
    let mut rng = Lcg { state: 42 };
    for round in 0..6 {
        let mut triangles = Vec::new();
        for _ in 0..(10 + round * 12) {
            triangles.push(tri(
                (rng.coord(80), rng.coord(80), rng.coord(80)),
                (rng.coord(80), rng.coord(80), rng.coord(80)),
                (rng.coord(80), rng.coord(80), rng.coord(80)),
            ));
        }
        let reference = triangles.clone();
        let b = Bvh::construct(triangles);
        for _ in 0..400 {
            let ray = Ray::new(
                v3(rng.coord(120), rng.coord(120), rng.coord(120)),
                v3(rng.coord(4), rng.coord(4), rng.coord(4)),
                None,
            );
            let fast = b.intersects(&ray).map(|h| (h.distance.num, h.distance.den));
            let slow = brute_force(&reference, &ray);
            match (fast, slow) {
                (None, None) => {}
                (Some((fn_, fd)), Some((sn, sd))) => {
                    assert!(frac_same(fn_, fd, sn, sd));
                }
                other => panic!("tree and scan disagree: {:?}", other),
            }
        }
    }
}

#[test]
fn reordered_construction_reports_same_hits() {
    // Building from a reordered triangle list may change the tree shape,
    // but never the reported closest distances.
    let mut rng = Lcg { state: 99 };
    let mut triangles = Vec::new();
    for _ in 0..25 {
        triangles.push(tri(
            (rng.coord(60), rng.coord(60), rng.coord(60)),
            (rng.coord(60), rng.coord(60), rng.coord(60)),
            (rng.coord(60), rng.coord(60), rng.coord(60)),
        ));
    }
    let mut reordered = triangles.clone();
    reordered.reverse();
    reordered.rotate_left(7);
    let b1 = Bvh::construct(triangles);
    let b2 = Bvh::construct(reordered);
    for _ in 0..300 {
        let ray = Ray::new(
            v3(rng.coord(100), rng.coord(100), rng.coord(100)),
            v3(rng.coord(3), rng.coord(3), rng.coord(3)),
            None,
        );
        let d1 = b1.intersects(&ray).map(|h| (h.distance.num, h.distance.den));
        let d2 = b2.intersects(&ray).map(|h| (h.distance.num, h.distance.den));
        match (d1, d2) {
            (None, None) => {}
            (Some((n1, e1)), Some((n2, e2))) => assert!(frac_same(n1, e1, n2, e2)),
            other => panic!("reordered trees disagree: {:?}", other),
        }
    }
}

#[test]
fn ray_missing_every_box_hits_nothing() {
    // All triangles sit below z = 10; a ray above them pointing further
    // up misses every triangle's bounding region and must report None.
    let mut triangles = Vec::new();
    for k in 0..8i64 {
        triangles.push(tri((k, 0, 0), (k + 2, 0, 0), (k, 2, 5)));
    }
    let b = Bvh::construct(triangles);
    let away = Ray::new(v3(0, 0, 100), v3(0, 0, 1), None);
    assert!(b.intersects(&away).is_none());
}

#[test]
fn closest_of_two_stacked_triangles_wins() {
    // Two parallel triangles; the query must report the nearer one.
    let triangles = vec![
        tri((0, 0, 0), (10, 0, 0), (0, 10, 0)),
        tri((0, 0, 5), (10, 0, 5), (0, 10, 5)),
    ];
    let b = Bvh::construct(triangles);
    let r = Ray::new(v3(2, 2, 10), v3(0, 0, -1), None);
    let hit = b.intersects(&r).expect("must hit");
    // Nearer plane z = 5 is at parameter 5.
    assert!(frac_same(hit.distance.num, hit.distance.den, 5, 1));
}

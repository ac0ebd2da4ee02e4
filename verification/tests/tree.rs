use tracer::aabb::AxisAlignedBoundingBox;
use tracer::face::{Face, UVCoord};
use tracer::hittable::HittableList;
use tracer::kdtree::{build_from_obj, KDTree, LeafReason};
use tracer::object::Object;
use tracer::ratio::Rat;
use tracer::ray::Ray;
use tracer::traverse::brute_force_nearest;
use tracer::vector::Vec3;

fn v(x: i64, y: i64, z: i64) -> Vec3 {
    Vec3::new(x, y, z)
}

fn uv0() -> UVCoord {
    UVCoord { u: 0, v: 0 }
}

fn tri(p0: Vec3, p1: Vec3, p2: Vec3) -> Face {
    Face::new(p0, p1, p2, uv0(), uv0(), uv0(), v(0, 0, 1), v(0, 0, 1), v(0, 0, 1))
}

fn whole_range() -> (Rat, Rat) {
    (Rat::new(0, 1), Rat::new(1_000_000_000, 1))
}

fn box_around(faces: &[Face]) -> AxisAlignedBoundingBox {
    let mut mn = v(8192, 8192, 8192);
    let mut mx = v(-8192, -8192, -8192);
    for f in faces {
        let b = &f.bounds;
        mn.x = mn.x.min(b.minimum.x - 1);
        mn.y = mn.y.min(b.minimum.y - 1);
        mn.z = mn.z.min(b.minimum.z - 1);
        mx.x = mx.x.max(b.maximum.x + 1);
        mx.y = mx.y.max(b.maximum.y + 1);
        mx.z = mx.z.max(b.maximum.z + 1);
    }
    AxisAlignedBoundingBox::new(mn, mx)
}

/// The twelve faces of the cube `[0, s]^3`.
fn cube(s: i64) -> Vec<Face> {
    let mut faces = Vec::new();
    // x = s and x = 0
    faces.push(tri(v(s, 0, 0), v(s, s, 0), v(s, s, s)));
    faces.push(tri(v(s, 0, 0), v(s, s, s), v(s, 0, s)));
    faces.push(tri(v(0, 0, 0), v(0, s, s), v(0, s, 0)));
    faces.push(tri(v(0, 0, 0), v(0, 0, s), v(0, s, s)));
    // y = s and y = 0
    faces.push(tri(v(0, s, 0), v(0, s, s), v(s, s, s)));
    faces.push(tri(v(0, s, 0), v(s, s, s), v(s, s, 0)));
    faces.push(tri(v(0, 0, 0), v(s, 0, s), v(0, 0, s)));
    faces.push(tri(v(0, 0, 0), v(s, 0, 0), v(s, 0, s)));
    // z = s and z = 0
    faces.push(tri(v(0, 0, s), v(s, 0, s), v(s, s, s)));
    faces.push(tri(v(0, 0, s), v(s, s, s), v(0, s, s)));
    faces.push(tri(v(0, 0, 0), v(s, s, 0), v(s, 0, 0)));
    faces.push(tri(v(0, 0, 0), v(0, s, 0), v(s, s, 0)));
    faces
}

#[test]
fn cube_ray_hits_near_face_at_exact_parameter() {
    // Unit cube at grid scale 1024; a ray from (5, 1/2, 1/2) toward
    // (-1, 0, 0) strikes the x = 1 face at t = 4 with an outward normal
    // along +x.
    let s = 1024;
    let faces = cube(s);
    let bounds = box_around(&faces);
    let tree = KDTree::build(faces.clone(), bounds).unwrap();
    let ray = Ray::new(v(5 * s, s / 2, s / 2), v(-s, 0, 0));
    let (t0, t1) = whole_range();
    let hit = tree.traverse(&ray, &t0, &t1).expect("the cube must be hit");
    assert!(hit.t.eq_value(&Rat::new(4, 1)));
    assert!(hit.normal.x > 0);
    assert_eq!(hit.normal.y, 0);
    assert_eq!(hit.normal.z, 0);
    assert!(hit.front_face);
    // The tree agrees with the linear scan.
    let brute = brute_force_nearest(&faces, &ray, &t0, &t1).unwrap();
    assert!(brute.t.eq_value(&hit.t));
}

#[test]
fn cube_ray_missing_reports_none() {
    let s = 1024;
    let faces = cube(s);
    let bounds = box_around(&faces);
    let tree = KDTree::build(faces, bounds).unwrap();
    let ray = Ray::new(v(5 * s, 3 * s, s / 2), v(-s, 0, 0));
    let (t0, t1) = whole_range();
    assert!(tree.traverse(&ray, &t0, &t1).is_none());
}

/// Seventeen triangles force a split; one triangle straddles whatever
/// plane is chosen near the middle and must be reachable from rays
/// entering through either child.
#[test]
fn straddling_triangle_found_from_both_sides() {
    let mut faces = Vec::new();
    // Sixteen wall triangles along x, out of the probe ray's path.
    for i in 0..16 {
        let c = 50 * i;
        faces.push(tri(v(c, 100, 0), v(c, 200, 0), v(c, 100, 100)));
    }
    // The straddler, crossing the middle of the x extent.
    let straddler = tri(v(400, -20, 10), v(600, 40, 10), v(500, 10, 80));
    faces.push(straddler);
    let bounds = box_around(&faces);
    let tree = KDTree::build(faces.clone(), bounds).unwrap();
    let (t0, t1) = whole_range();

    let from_left = Ray::new(v(-2000, 10, 10), v(1, 0, 0));
    let from_right = Ray::new(v(3000, 10, 10), v(-1, 0, 0));
    let hit_l = tree.traverse(&from_left, &t0, &t1).expect("hit from the left");
    let hit_r = tree.traverse(&from_right, &t0, &t1).expect("hit from the right");
    assert!(hit_l.t.eq_value(&Rat::new(2500, 1)));
    assert!(hit_r.t.eq_value(&Rat::new(2500, 1)));
    assert_eq!(hit_l.face.p0.x, 400);
    assert_eq!(hit_r.face.p0.x, 400);
    // Both agree with the linear scan.
    let bl = brute_force_nearest(&faces, &from_left, &t0, &t1).unwrap();
    let br = brute_force_nearest(&faces, &from_right, &t0, &t1).unwrap();
    assert!(bl.t.eq_value(&hit_l.t));
    assert!(br.t.eq_value(&hit_r.t));
}

fn lcg(state: &mut u64) -> i64 {
    *state = state.wrapping_mul(6364136223846793005).wrapping_add(1442695040888963407);
    ((*state >> 33) % 4001) as i64 - 2000
}

#[test]
fn traversal_matches_linear_scan_on_a_random_soup() {
    let mut st: u64 = 42;
    let mut faces = Vec::new();
    for _ in 0..60 {
        let p0 = v(lcg(&mut st), lcg(&mut st), lcg(&mut st));
        let d1 = v(lcg(&mut st) / 8, lcg(&mut st) / 8, lcg(&mut st) / 8);
        let d2 = v(lcg(&mut st) / 8, lcg(&mut st) / 8, lcg(&mut st) / 8);
        let p1 = v(p0.x + d1.x, p0.y + d1.y, p0.z + d1.z);
        let p2 = v(p0.x + d2.x, p0.y + d2.y, p0.z + d2.z);
        faces.push(tri(p0, p1, p2));
    }
    let bounds = box_around(&faces);
    let tree = KDTree::build(faces.clone(), bounds).unwrap();
    let (t0, t1) = whole_range();
    for _ in 0..40 {
        let o = v(lcg(&mut st), lcg(&mut st), lcg(&mut st));
        let d = v(lcg(&mut st) / 4, lcg(&mut st) / 4, lcg(&mut st) / 4);
        let ray = Ray::new(o, d);
        let via_tree = tree.traverse(&ray, &t0, &t1);
        let via_scan = brute_force_nearest(&faces, &ray, &t0, &t1);
        match (via_tree, via_scan) {
            (None, None) => {},
            (Some(a), Some(b)) => assert!(a.t.eq_value(&b.t)),
            _ => panic!("tree and linear scan disagree"),
        }
    }
}

fn check_leaves(t: &KDTree) {
    match t {
        KDTree::Leaf { faces, reason } => {
            if *reason == LeafReason::SmallEnough {
                assert!(faces.len() <= 15);
            }
        },
        KDTree::Internal { left_child, right_child, .. } => {
            check_leaves(left_child);
            check_leaves(right_child);
        },
    }
}

#[test]
fn leaf_threshold_respected() {
    let mut st: u64 = 7;
    let mut faces = Vec::new();
    for _ in 0..200 {
        let p0 = v(lcg(&mut st), lcg(&mut st), lcg(&mut st));
        let p1 = v(p0.x + 20, p0.y, p0.z + 5);
        let p2 = v(p0.x, p0.y + 20, p0.z + 10);
        faces.push(tri(p0, p1, p2));
    }
    let bounds = box_around(&faces);
    let tree = KDTree::build(faces, bounds).unwrap();
    check_leaves(&tree);
    // A small list is one leaf outright.
    let few = cube(512);
    let b2 = box_around(&few);
    let small = KDTree::build(few, b2).unwrap();
    match &small {
        KDTree::Leaf { faces, reason } => {
            assert_eq!(faces.len(), 12);
            assert_eq!(*reason, LeafReason::SmallEnough);
        },
        KDTree::Internal { .. } => panic!("twelve faces fit one leaf"),
    }
}

fn faces_equal(a: &Face, b: &Face) -> bool {
    let p = |x: &Vec3, y: &Vec3| x.x == y.x && x.y == y.y && x.z == y.z;
    p(&a.p0, &b.p0) && p(&a.p1, &b.p1) && p(&a.p2, &b.p2)
}

fn trees_equal(a: &KDTree, b: &KDTree) -> bool {
    match (a, b) {
        (
            KDTree::Leaf { faces: fa, reason: ra },
            KDTree::Leaf { faces: fb, reason: rb },
        ) => {
            ra == rb && fa.len() == fb.len()
                && fa.iter().zip(fb.iter()).all(|(x, y)| faces_equal(x, y))
        },
        (
            KDTree::Internal {
                split_axis: xa,
                split_distance: da,
                left_child: la,
                right_child: rra,
            },
            KDTree::Internal {
                split_axis: xb,
                split_distance: db,
                left_child: lb,
                right_child: rrb,
            },
        ) => xa == xb && da == db && trees_equal(la, lb) && trees_equal(rra, rrb),
        _ => false,
    }
}

#[test]
fn building_twice_gives_the_same_tree() {
    let mut st: u64 = 99;
    let mut faces = Vec::new();
    for _ in 0..80 {
        let p0 = v(lcg(&mut st), lcg(&mut st), lcg(&mut st));
        let p1 = v(p0.x + 30, p0.y + 3, p0.z);
        let p2 = v(p0.x + 1, p0.y + 25, p0.z + 12);
        faces.push(tri(p0, p1, p2));
    }
    let bounds = box_around(&faces);
    let t1 = KDTree::build(faces.clone(), bounds).unwrap();
    let t2 = KDTree::build(faces, bounds).unwrap();
    assert!(trees_equal(&t1, &t2));
}

#[test]
fn empty_build_yields_no_tree() {
    let zero = v(0, 0, 0);
    let b = AxisAlignedBoundingBox::new(zero, zero);
    assert!(KDTree::build(Vec::new(), b).is_none());
}

#[test]
fn soup_assembly_groups_indices_and_pads_the_box() {
    let positions = vec![v(0, 0, 0), v(100, 0, 0), v(0, 100, 0), v(100, 100, 50)];
    let uvs = vec![uv0(), uv0(), uv0(), uv0()];
    let normals = vec![v(0, 0, 1); 4];
    let indices: Vec<u32> = vec![0, 1, 2, 1, 3, 2];
    let (faces, bbox) = build_from_obj(&positions, &uvs, &normals, &indices);
    assert_eq!(faces.len(), 2);
    assert_eq!(faces[0].p0.x, 0);
    assert_eq!(faces[1].p0.x, 100);
    assert_eq!(faces[1].p1.z, 50);
    assert_eq!((bbox.minimum.x, bbox.minimum.y, bbox.minimum.z), (-1, -1, -1));
    assert_eq!((bbox.maximum.x, bbox.maximum.y, bbox.maximum.z), (101, 101, 51));
}

#[test]
fn object_wraps_tree_and_box() {
    let s = 1024;
    let faces = cube(s);
    let bounds = box_around(&faces);
    let obj = Object::new(faces, bounds, 3, true);
    assert!(obj.should_render());
    let bb = obj.bounding_box().unwrap();
    assert_eq!(bb.minimum.x, bounds.minimum.x);
    let ray = Ray::new(v(5 * s, s / 2, s / 2), v(-s, 0, 0));
    let (t0, t1) = whole_range();
    let hit = obj.hit(&ray, &t0, &t1).unwrap();
    assert!(hit.t.eq_value(&Rat::new(4, 1)));
    // An empty mesh never hits.
    let zero = v(0, 0, 0);
    let empty = Object::new(Vec::new(), AxisAlignedBoundingBox::new(zero, zero), 0, false);
    assert!(empty.hit(&ray, &t0, &t1).is_none());
}

#[test]
fn scene_list_hits_nearest_across_objects() {
    let near = cube(512);
    let bn = box_around(&near);
    let mut far = Vec::new();
    for f in cube(512) {
        let shift = |p: Vec3| v(p.x + 3000, p.y, p.z);
        far.push(tri(shift(f.p0), shift(f.p1), shift(f.p2)));
    }
    let bf = box_around(&far);
    let mut list = HittableList::new();
    list.hittables.push(Object::new(far.clone(), bf, 1, true));
    list.hittables.push(Object::new(near.clone(), bn, 0, true));
    let (t0, t1) = whole_range();
    // Entering from +x the shifted cube is struck first.
    let ray = Ray::new(v(8000, 256, 256), v(-512, 0, 0));
    let hit = list.hit(&ray, &t0, &t1).expect("some cube is struck");
    let mut all = near.clone();
    all.extend(far.clone());
    let brute = brute_force_nearest(&all, &ray, &t0, &t1).unwrap();
    assert!(hit.t.eq_value(&brute.t));
    assert_eq!(hit.face.p0.x >= 3000, true);
    // An empty list never hits.
    let empty = HittableList::new();
    assert!(empty.hit(&ray, &t0, &t1).is_none());
}

#[test]
fn interval_bounds_are_respected() {
    let s = 1024;
    let faces = cube(s);
    let bounds = box_around(&faces);
    let tree = KDTree::build(faces, bounds).unwrap();
    let ray = Ray::new(v(5 * s, s / 2, s / 2), v(-s, 0, 0));
    // The near face sits at t = 4: an interval ending earlier misses.
    let miss = tree.traverse(&ray, &Rat::new(0, 1), &Rat::new(3, 1));
    assert!(miss.is_none());
    // An interval starting past the near face finds the far one at t = 5.
    let far = tree.traverse(&ray, &Rat::new(9, 2), &Rat::new(100, 1)).unwrap();
    assert!(far.t.eq_value(&Rat::new(5, 1)));
    assert!(!far.front_face);
    // The closed interval includes its endpoints exactly.
    let edge = tree.traverse(&ray, &Rat::new(4, 1), &Rat::new(4, 1)).unwrap();
    assert!(edge.t.eq_value(&Rat::new(4, 1)));
}

use std::cell::RefCell;

use glam::{Mat4, Vec3, Vec4};
use psychopath::accel::bvh::add_tests;
use psychopath::accel::bvh_base::{append_copies, count_levels};
use psychopath::accel::{BVHBase, TraversalStep, BVH, BVH_MAX_DEPTH};
use psychopath::algorithm::partition;
use psychopath::assembly::{Assembly, Instance, InstanceType, Object};
use psychopath::boundable::Boundable;
use psychopath::math::{Matrix4x4, Point, Vector};
use psychopath::ray::{AccelRay, Ray};
use psychopath::surface::{Surface, SurfaceIntersection};
use psychopath::tracer::{globalize, localize, split_rays_by_direction, Tracer, TransformStack};

// ------------------------------------------------- geometry for the tests

#[derive(Copy, Clone, Debug, PartialEq)]
struct BBox {
    min: [f32; 3],
    max: [f32; 3],
}

impl BBox {
    fn empty() -> BBox {
        BBox { min: [f32::INFINITY; 3], max: [f32::NEG_INFINITY; 3] }
    }

    fn cube(center: [f32; 3], half: f32) -> BBox {
        BBox {
            min: [center[0] - half, center[1] - half, center[2] - half],
            max: [center[0] + half, center[1] + half, center[2] + half],
        }
    }

    fn union(&self, other: &BBox) -> BBox {
        let mut b = *self;
        for k in 0..3 {
            b.min[k] = b.min[k].min(other.min[k]);
            b.max[k] = b.max[k].max(other.max[k]);
        }
        b
    }

    fn lerp(&self, other: &BBox, u: f32) -> BBox {
        let mut b = *self;
        for k in 0..3 {
            b.min[k] = self.min[k] * (1.0 - u) + other.min[k] * u;
            b.max[k] = self.max[k] * (1.0 - u) + other.max[k] * u;
        }
        b
    }

    fn centroid(&self) -> [f32; 3] {
        [
            (self.min[0] + self.max[0]) * 0.5,
            (self.min[1] + self.max[1]) * 0.5,
            (self.min[2] + self.max[2]) * 0.5,
        ]
    }

    /// The slab test: where along the ray it is inside the box, if anywhere
    /// within `[0, max_t]`.
    fn entry(&self, orig: Vec4, dir_inv: Vec4, max_t: f32) -> Option<f32> {
        let o = [orig.x(), orig.y(), orig.z()];
        let d = [dir_inv.x(), dir_inv.y(), dir_inv.z()];
        let mut near = 0.0f32;
        let mut far = max_t;
        for k in 0..3 {
            if self.min[k] > self.max[k] {
                return None;
            }
            let t1 = (self.min[k] - o[k]) * d[k];
            let t2 = (self.max[k] - o[k]) * d[k];
            near = near.max(t1.min(t2));
            far = far.min(t1.max(t2));
        }
        if near <= far {
            Some(near)
        } else {
            None
        }
    }
}

fn lerp_slice(s: &[BBox], t: f32) -> BBox {
    let n = s.len();
    if n == 1 {
        return s[0];
    }
    let x = t * (n - 1) as f32;
    let i = x.floor() as usize;
    if i >= n - 1 {
        return s[n - 1];
    }
    s[i].lerp(&s[i + 1], x - i as f32)
}

fn test_bounds(bounds: &[BBox], r: &AccelRay) -> bool {
    lerp_slice(bounds, f32::from_bits(r.time))
        .entry(r.orig.co, r.dir_inv.co, f32::from_bits(r.max_t))
        .is_some()
}

fn merge(a: &[BBox], b: &[BBox]) -> Vec<BBox> {
    let n = a.len().max(b.len());
    (0..n)
        .map(|i| {
            let t = if n == 1 { 0.0 } else { i as f32 / (n - 1) as f32 };
            lerp_slice(a, t).union(&lerp_slice(b, t))
        })
        .collect()
}

fn lerp_matrices(s: &[Matrix4x4], t: f32) -> Matrix4x4 {
    let n = s.len();
    if n == 1 {
        return s[0];
    }
    let x = t * (n - 1) as f32;
    let i = x.floor() as usize;
    if i >= n - 1 {
        return s[n - 1];
    }
    let u = x - i as f32;
    Matrix4x4 { m: s[i].m * (1.0 - u) + s[i + 1].m * u }
}

fn sample(s: &[Matrix4x4], time: u32) -> Matrix4x4 {
    lerp_matrices(s, f32::from_bits(time))
}

fn compose(outer: &[Matrix4x4], inner: &[Matrix4x4]) -> Vec<Matrix4x4> {
    let n = outer.len().max(inner.len());
    (0..n)
        .map(|i| {
            let t = if n == 1 { 0.0 } else { i as f32 / (n - 1) as f32 };
            lerp_matrices(outer, t) * lerp_matrices(inner, t)
        })
        .collect()
}

fn translation(x: f32, y: f32, z: f32) -> Matrix4x4 {
    Matrix4x4 { m: Mat4::from_translation(Vec3::new(x, y, z)) }
}

fn world_ray(orig: [f32; 3], dir: [f32; 3], time: f32, max_t: f32) -> Ray {
    Ray {
        orig: Point { co: Vec4::new(orig[0], orig[1], orig[2], 1.0) },
        dir: Vector { co: Vec4::new(dir[0], dir[1], dir[2], 0.0) },
        time: time.to_bits(),
        wavelength: 550.0f32.to_bits(),
        max_t: max_t.to_bits(),
    }
}

fn accel_rays(wrays: &[Ray]) -> Vec<AccelRay> {
    wrays.iter().enumerate().map(|(i, wr)| AccelRay::new(wr, i as u32)).collect()
}

fn ids(rays: &[AccelRay]) -> Vec<u32> {
    let mut v: Vec<u32> = rays.iter().map(|r| r.id).collect();
    v.sort();
    v
}

/// Something with a name and a motion slice of bounds.
#[derive(Clone, Debug)]
struct Body {
    name: usize,
    bounds: Vec<BBox>,
}

fn body(name: usize, center: [f32; 3]) -> Body {
    Body { name, bounds: vec![BBox::cube(center, 0.5)] }
}

fn bounder(b: &Body) -> Vec<BBox> {
    b.bounds.clone()
}

/// Sorts by centroid along the axis of greatest extent and proposes the
/// middle.
fn median_split(objs: &mut [Body], _balanced: bool) -> (usize, u8) {
    let mut all = BBox::empty();
    for o in objs.iter() {
        all = all.union(&lerp_slice(&o.bounds, 0.5));
    }
    let mut axis = 0;
    for k in 1..3 {
        if all.max[k] - all.min[k] > all.max[axis] - all.min[axis] {
            axis = k;
        }
    }
    objs.sort_by(|a, b| {
        let ca = lerp_slice(&a.bounds, 0.5).centroid()[axis];
        let cb = lerp_slice(&b.bounds, 0.5).centroid()[axis];
        ca.partial_cmp(&cb).unwrap()
    });
    (objs.len() / 2, axis as u8)
}

fn build(objects: &mut [Body], objects_per_leaf: usize) -> BVH<BBox> {
    BVH::from_objects(objects, objects_per_leaf, BBox::empty(), bounder, merge, median_split)
}

/// Traverses and returns, call by call, the name of the object and the ids
/// of the rays that the hook was handed.
fn visits(bvh: &BVH<BBox>, rays: &mut [AccelRay], objects: &[Body]) -> Vec<(usize, Vec<u32>)> {
    let mut seen = Vec::new();
    bvh.traverse(rays, objects, test_bounds, |obj: &Body, rs: &mut [AccelRay]| {
        seen.push((obj.name, ids(rs)));
    });
    seen
}

/// Traverses with a hook that does nothing and returns the number of tests
/// of a ray against a node.
fn node_tests(bvh: &BVH<BBox>, rays: &mut [AccelRay], objects: &[Body]) -> u64 {
    bvh.traverse(rays, objects, test_bounds, |_: &Body, _: &mut [AccelRay]| {})
}

// ---------------------------------------------------------------- partition

#[test]
fn partition_puts_the_accepted_first() {
    let mut v = vec![5, 2, 8, 1, 9, 4, 7];
    let split = partition(&mut v, |x: &i32| *x > 4);
    assert_eq!(split, 4);
    assert!(v[..split].iter().all(|x| *x > 4));
    assert!(v[split..].iter().all(|x| *x <= 4));
    let mut sorted = v.clone();
    sorted.sort();
    assert_eq!(sorted, vec![1, 2, 4, 5, 7, 8, 9]);
}

#[test]
fn partition_of_nothing_and_of_one_kind() {
    let mut none: Vec<i32> = Vec::new();
    assert_eq!(partition(&mut none, |_: &i32| true), 0);
    let mut all = vec![1, 2, 3];
    assert_eq!(partition(&mut all, |_: &i32| true), 3);
    assert_eq!(all, vec![1, 2, 3]);
    assert_eq!(partition(&mut all, |_: &i32| false), 0);
    let mut sorted = all.clone();
    sorted.sort();
    assert_eq!(sorted, vec![1, 2, 3]);
}

// ------------------------------------------------------------ octant split

#[test]
fn split_rays_by_direction_groups_by_octant() {
    let mut wrays = Vec::new();
    // Octant k: 4 if negative along x, 2 if negative along y, 1 if negative
    // along z.  Three rounds in a jumbled order.
    for round in 0..3 {
        for k in [5usize, 0, 7, 2, 4, 1, 6, 3] {
            let sx = if k & 4 != 0 { -1.0 } else { 1.0 };
            let sy = if k & 2 != 0 { -1.0 } else { 1.0 };
            let sz = if k & 1 != 0 { -1.0 } else { 1.0 };
            let m = 1.0 + round as f32;
            wrays.push(world_ray([0.0; 3], [sx * m, sy * m, sz * m], 0.0, 1.0));
        }
    }
    let mut rays = accel_rays(&wrays);
    let before = ids(&rays);
    let cuts = split_rays_by_direction(&mut rays);
    assert_eq!(cuts, [0, 3, 6, 9, 12, 15, 18, 21, 24]);
    assert_eq!(ids(&rays), before);
    for k in 0..8 {
        for r in &rays[cuts[k]..cuts[k + 1]] {
            assert_eq!(octant_of(r), k);
        }
    }
}

/// 4 if the reciprocal direction is not sign-positive along x, plus 2 if it
/// is not along y, plus 1 if it is not along z.
fn octant_of(r: &AccelRay) -> usize {
    let d = r.dir_inv.co;
    (if d.x().is_sign_positive() { 0 } else { 4 })
        + (if d.y().is_sign_positive() { 0 } else { 2 })
        + (if d.z().is_sign_positive() { 0 } else { 1 })
}

#[test]
fn split_rays_by_direction_goes_by_the_sign_bit() {
    let wr = world_ray([0.0; 3], [1.0, 1.0, 1.0], 0.0, 1.0);
    let with = |id: u32, x: f32, y: f32, z: f32| {
        let mut r = AccelRay::new(&wr, id);
        r.dir_inv = Vector { co: Vec4::new(x, y, z, 0.0) };
        r
    };
    let nan_set = f32::from_bits(0xffc0_0000);
    let nan_clear = f32::from_bits(0x7fc0_0000);
    assert!(nan_set.is_nan() && nan_clear.is_nan());
    let mut rays = vec![
        with(0, -0.0, 1.0, 1.0),
        with(1, 0.0, 1.0, 1.0),
        with(2, 1.0, -0.0, -0.0),
        with(3, nan_clear, 1.0, nan_set),
        with(4, f32::NEG_INFINITY, f32::INFINITY, 1.0),
        with(5, 1.0, 0.0, -0.0),
    ];
    // A zero with its sign bit set is seen as greater than or equal to zero
    // by the reading that orders the children of a node.
    assert_eq!(rays[0].dir_signs() & 7, 7);
    assert!(!rays[0].dir_sign_positive(0));
    assert!(rays[0].dir_sign_positive(1));
    assert!(rays[1].dir_sign_positive(0));
    let cuts = split_rays_by_direction(&mut rays);
    assert_eq!(cuts, [0, 1, 3, 3, 4, 6, 6, 6, 6]);
    assert_eq!(ids(&rays[0..1]), vec![1]);
    assert_eq!(ids(&rays[1..3]), vec![3, 5]);
    assert_eq!(ids(&rays[3..4]), vec![2]);
    assert_eq!(ids(&rays[4..6]), vec![0, 4]);
    for k in 0..8 {
        for r in &rays[cuts[k]..cuts[k + 1]] {
            assert_eq!(octant_of(r), k);
        }
    }
}

#[test]
fn split_rays_by_direction_with_empty_octants() {
    let wrays = vec![
        world_ray([0.0; 3], [-1.0, 1.0, 1.0], 0.0, 1.0),
        world_ray([0.0; 3], [-1.0, 2.0, 3.0], 0.0, 1.0),
        world_ray([0.0; 3], [1.0, 1.0, -1.0], 0.0, 1.0),
    ];
    let mut rays = accel_rays(&wrays);
    let cuts = split_rays_by_direction(&mut rays);
    assert_eq!(cuts, [0, 0, 1, 1, 1, 3, 3, 3, 3]);
    assert_eq!(rays[0].id, 2);
    assert_eq!(ids(&rays[1..3]), vec![0, 1]);
    let mut none: Vec<AccelRay> = Vec::new();
    assert_eq!(split_rays_by_direction(&mut none), [0; 9]);
}

// ------------------------------------------------------------- the builder

#[test]
fn levels_of_a_balanced_build() {
    assert_eq!(count_levels(0), 0);
    assert_eq!(count_levels(1), 0);
    assert_eq!(count_levels(2), 1);
    assert_eq!(count_levels(3), 2);
    assert_eq!(count_levels(4), 2);
    assert_eq!(count_levels(5), 3);
    assert_eq!(count_levels(1024), 10);
    assert_eq!(count_levels(1025), 11);
    assert_eq!(count_levels(usize::MAX), usize::BITS as usize);
}

#[test]
fn counts_of_tests_stop_at_the_largest_number() {
    assert_eq!(add_tests(0, 0), 0);
    assert_eq!(add_tests(7, 5), 12);
    assert_eq!(add_tests(u64::MAX - 5, 5), u64::MAX);
    assert_eq!(add_tests(u64::MAX - 5, 6), u64::MAX);
    assert_eq!(add_tests(u64::MAX, 1), u64::MAX);
}

#[test]
fn copies_are_appended_in_order() {
    let mut v = vec![1, 2];
    append_copies(&mut v, &[3, 4, 5]);
    append_copies(&mut v, &[]);
    assert_eq!(v, vec![1, 2, 3, 4, 5]);
}

#[test]
fn a_build_starts_with_nothing() {
    let base: BVHBase<BBox> = BVHBase::new();
    assert!(base.nodes.is_empty());
    assert!(base.bounds.is_empty());
    assert_eq!(base.depth, 0);
}

#[test]
fn bounds_are_merged_upwards() {
    let mut objects = vec![
        body(0, [0.0, 0.0, 0.0]),
        body(1, [4.0, 1.0, 0.0]),
        body(2, [8.0, 0.0, -2.0]),
    ];
    let base: BVHBase<BBox> = BVHBase::from_objects(&mut objects, 1, bounder, merge, median_split);
    let own = |range: (usize, usize)| base.bounds[range.0..range.1].to_vec();
    let mut internal = 0;
    for node in &base.nodes {
        match *node {
            psychopath::accel::BVHBaseNode::Internal { bounds_range, children_indices, .. } => {
                internal += 1;
                let child = |i: usize| match base.nodes[i] {
                    psychopath::accel::BVHBaseNode::Internal { bounds_range, .. } => own(bounds_range),
                    psychopath::accel::BVHBaseNode::Leaf { bounds_range, .. } => own(bounds_range),
                };
                let both = merge(&child(children_indices.0), &child(children_indices.1));
                assert_eq!(own(bounds_range), both);
            }
            psychopath::accel::BVHBaseNode::Leaf { bounds_range, object_range } => {
                assert_eq!(own(bounds_range), objects[object_range.0].bounds);
            }
        }
    }
    assert_eq!(internal, 2);
    assert_eq!(
        own(match base.nodes[0] {
            psychopath::accel::BVHBaseNode::Internal { bounds_range, .. } => bounds_range,
            psychopath::accel::BVHBaseNode::Leaf { bounds_range, .. } => bounds_range,
        }),
        vec![BBox { min: [-0.5, -0.5, -2.5], max: [8.5, 1.5, 0.5] }]
    );
}

#[test]
fn a_leaf_accumulates_the_bounds_of_its_objects() {
    let mut objects = vec![
        body(0, [0.0, 0.0, 0.0]),
        Body {
            name: 1,
            bounds: vec![BBox::cube([2.0, 0.0, 0.0], 0.5), BBox::cube([4.0, 0.0, 0.0], 0.5)],
        },
    ];
    let bvh = build(&mut objects, 2);
    assert_eq!(bvh.tree_depth(), 0);
    assert_eq!(
        bvh.bounds(),
        &[
            BBox { min: [-0.5, -0.5, -0.5], max: [2.5, 0.5, 0.5] },
            BBox { min: [-0.5, -0.5, -0.5], max: [4.5, 0.5, 0.5] }
        ][..]
    );
}

#[test]
fn empty_bvh() {
    let mut objects: Vec<Body> = Vec::new();
    let bvh = build(&mut objects, 1);
    assert_eq!(bvh.tree_depth(), 0);
    assert_eq!(bvh.bounds(), &[BBox::empty()][..]);
    let wrays = vec![
        world_ray([0.0, 0.0, -5.0], [0.0, 0.0, 1.0], 0.0, 100.0),
        world_ray([1.0, 0.0, -5.0], [0.0, 1.0, 0.0], 0.5, 100.0),
        world_ray([0.0, 2.0, 5.0], [1.0, 0.0, -1.0], 1.0, 100.0),
        world_ray([3.0, 3.0, 3.0], [-1.0, -1.0, -1.0], 0.25, 100.0),
    ];
    let mut rays = accel_rays(&wrays);
    assert!(visits(&bvh, &mut rays, &objects).is_empty());
    assert_eq!(rays.iter().map(|r| r.id).collect::<Vec<u32>>(), vec![0, 1, 2, 3]);
    assert_eq!(node_tests(&bvh, &mut rays, &objects), 0);
}

#[test]
fn single_object() {
    let mut objects = vec![body(0, [0.0, 0.0, 0.0])];
    let bvh = build(&mut objects, 1);
    assert_eq!(bvh.tree_depth(), 0);
    assert_eq!(bvh.bounds(), &[BBox::cube([0.0; 3], 0.5)][..]);
    let hit = world_ray([0.0, 0.0, -5.0], [0.0, 0.0, 1.0], 0.0, 100.0);
    let mut rays = accel_rays(&[hit]);
    assert_eq!(visits(&bvh, &mut rays, &objects), vec![(0, vec![0])]);
    let miss = world_ray([10.0, 10.0, -5.0], [0.0, 0.0, 1.0], 0.0, 100.0);
    let mut rays = accel_rays(&[miss]);
    assert!(visits(&bvh, &mut rays, &objects).is_empty());
}

#[test]
fn traversal_with_no_rays_does_nothing() {
    let mut objects = vec![body(0, [0.0, 0.0, 0.0])];
    let bvh = build(&mut objects, 1);
    let mut rays: Vec<AccelRay> = Vec::new();
    assert!(visits(&bvh, &mut rays, &objects).is_empty());
}

#[test]
fn too_short_or_backward_rays_miss() {
    let mut objects = vec![body(0, [0.0, 0.0, 0.0])];
    let bvh = build(&mut objects, 1);
    let short = world_ray([0.0, 0.0, -5.0], [0.0, 0.0, 1.0], 0.0, 4.0);
    let negative = world_ray([0.0, 0.0, -5.0], [0.0, 0.0, 1.0], 0.0, -1.0);
    let away = world_ray([0.0, 0.0, -5.0], [0.0, 0.0, -1.0], 0.0, 100.0);
    let mut rays = accel_rays(&[short, negative, away]);
    assert!(visits(&bvh, &mut rays, &objects).is_empty());
}

#[test]
fn two_disjoint_cubes() {
    let mut objects = vec![body(0, [-2.0, 0.0, 0.0]), body(1, [2.0, 0.0, 0.0])];
    let bvh = build(&mut objects, 1);
    assert_eq!(bvh.tree_depth(), 1);
    assert_eq!(
        bvh.bounds(),
        &[BBox { min: [-2.5, -0.5, -0.5], max: [2.5, 0.5, 0.5] }][..]
    );
    let wrays = vec![
        world_ray([2.0, 0.1, -5.0], [0.0, 0.0, 1.0], 0.0, 100.0),
        world_ray([-2.0, 0.0, -5.0], [0.0, 0.0, 1.0], 0.0, 100.0),
        world_ray([2.0, -0.2, -5.0], [0.0, 0.0, 1.0], 0.0, 100.0),
        world_ray([-2.1, 0.3, -5.0], [0.0, 0.0, 1.0], 0.0, 100.0),
    ];
    let mut rays = accel_rays(&wrays);
    let mut seen = visits(&bvh, &mut rays, &objects);
    seen.sort();
    assert_eq!(seen, vec![(0, vec![1, 3]), (1, vec![0, 2])]);
    assert_eq!(ids(&rays), vec![0, 1, 2, 3]);
    // Four rays against the root, and the four that entered it against each
    // of its children.
    let mut rays = accel_rays(&wrays);
    assert_eq!(node_tests(&bvh, &mut rays, &objects), 12);
    // A ray that misses the root is tested once.
    let mut rays = accel_rays(&[world_ray([9.0, 0.0, -5.0], [0.0, 0.0, 1.0], 0.0, 100.0)]);
    assert_eq!(node_tests(&bvh, &mut rays, &objects), 1);
}

#[test]
fn motion_blurred_cube() {
    let mut objects = vec![Body {
        name: 0,
        bounds: vec![BBox::cube([0.0, 0.0, 0.0], 0.5), BBox::cube([10.0, 0.0, 0.0], 0.5)],
    }];
    let bvh = build(&mut objects, 1);
    assert_eq!(bvh.bounds().len(), 2);
    let at = |time: f32| {
        let mut rays = accel_rays(&[world_ray([5.0, 0.0, -5.0], [0.0, 0.0, 1.0], time, 100.0)]);
        visits(&bvh, &mut rays, &objects).len()
    };
    assert_eq!(at(0.5), 1);
    assert_eq!(at(0.0), 0);
    assert_eq!(at(1.0), 0);
    assert_eq!(at(0.46), 1);
    assert_eq!(at(0.4), 0);
}

#[test]
fn near_child_is_visited_first() {
    let mut objects = vec![body(7, [2.0, 0.0, 0.0]), body(3, [-2.0, 0.0, 0.0])];
    let bvh = build(&mut objects, 1);
    // The builder put the cube on the low side first.
    assert_eq!(objects.iter().map(|o| o.name).collect::<Vec<usize>>(), vec![3, 7]);
    let forth = world_ray([-5.0, 0.0, 0.0], [1.0, 0.0, 0.0], 0.0, 100.0);
    let mut rays = accel_rays(&[forth]);
    let order: Vec<usize> = visits(&bvh, &mut rays, &objects).iter().map(|v| v.0).collect();
    assert_eq!(order, vec![3, 7]);
    let back = world_ray([5.0, 0.0, 0.0], [-1.0, 0.0, 0.0], 0.0, 100.0);
    let mut rays = accel_rays(&[back]);
    let order: Vec<usize> = visits(&bvh, &mut rays, &objects).iter().map(|v| v.0).collect();
    assert_eq!(order, vec![7, 3]);
}

#[test]
fn every_object_is_in_exactly_one_leaf() {
    for (count, per_leaf) in [(1usize, 1usize), (2, 1), (7, 1), (7, 2), (7, 3), (7, 7), (7, 100), (64, 4)] {
        let mut objects: Vec<Body> = (0..count)
            .map(|i| body(i, [(i * 37 % 11) as f32, (i * 17 % 7) as f32, (i % 5) as f32]))
            .collect();
        let bvh = build(&mut objects, per_leaf);
        let mut names: Vec<usize> = objects.iter().map(|o| o.name).collect();
        names.sort();
        assert_eq!(names, (0..count).collect::<Vec<usize>>());
        // With a test that lets every ray in everywhere, every leaf is
        // reached, so the hook sees each object once for each leaf it is in.
        let wrays = vec![world_ray([0.0; 3], [1.0, 1.0, 1.0], 0.0, 1.0); 3];
        let mut rays = accel_rays(&wrays);
        let mut seen = Vec::new();
        bvh.traverse(
            &mut rays,
            &objects,
            |_: &[BBox], _: &AccelRay| true,
            |obj: &Body, rs: &mut [AccelRay]| {
                assert_eq!(rs.len(), 3);
                seen.push(obj.name);
            },
        );
        seen.sort();
        assert_eq!(seen, (0..count).collect::<Vec<usize>>());
    }
}

#[test]
fn leaves_hold_at_most_objects_per_leaf() {
    let mut objects: Vec<Body> = (0..10).map(|i| body(i, [i as f32 * 2.0, 0.0, 0.0])).collect();
    let base: BVHBase<BBox> = BVHBase::from_objects(&mut objects, 3, bounder, merge, median_split);
    assert_eq!(base.root_node_index(), 0);
    let mut owned = 0;
    for node in &base.nodes {
        if let psychopath::accel::BVHBaseNode::Leaf { object_range, bounds_range } = node {
            assert!(object_range.0 < object_range.1);
            assert!(object_range.1 - object_range.0 <= 3);
            assert_eq!(bounds_range.1 - bounds_range.0, 1);
            owned += object_range.1 - object_range.0;
        }
    }
    assert_eq!(owned, 10);
    assert_eq!(base.depth, 2);
}

#[test]
fn depth_stays_within_the_maximum() {
    // A splitter that always peels off a single object would make a tree as
    // deep as there are objects.
    let peel = |_: &mut [Body], _: bool| (1usize, 0u8);
    let mut objects: Vec<Body> = (0..300).map(|i| body(i, [i as f32 * 2.0, 0.0, 0.0])).collect();
    let bvh = BVH::from_objects(&mut objects, 1, BBox::empty(), bounder, merge, peel);
    assert!(bvh.tree_depth() <= BVH_MAX_DEPTH);
    assert_eq!(bvh.tree_depth(), 64);
    let wrays = vec![world_ray([0.0; 3], [1.0, 0.0, 0.0], 0.0, 1.0)];
    let mut rays = accel_rays(&wrays);
    let mut seen = Vec::new();
    bvh.traverse(
        &mut rays,
        &objects,
        |_: &[BBox], _: &AccelRay| true,
        |obj: &Body, _: &mut [AccelRay]| seen.push(obj.name),
    );
    seen.sort();
    assert_eq!(seen, (0..300).collect::<Vec<usize>>());
}

#[test]
fn a_split_that_leaves_a_side_empty_is_replaced_by_the_midpoint() {
    for proposal in [0usize, 4, 9] {
        let lazy = move |_: &mut [Body], _: bool| (proposal, 5u8);
        let mut objects: Vec<Body> = (0..4).map(|i| body(i, [i as f32 * 2.0, 0.0, 0.0])).collect();
        let base: BVHBase<BBox> = BVHBase::from_objects(&mut objects, 1, bounder, merge, lazy);
        assert_eq!(base.depth, 2);
        assert_eq!(base.nodes.len(), 7);
        match base.nodes[0] {
            psychopath::accel::BVHBaseNode::Internal { split_axis, children_indices, .. } => {
                assert_eq!(split_axis, 0);
                assert_eq!(children_indices, (1, 4));
            }
            _ => panic!("the root of four objects is split"),
        }
    }
}

// ------------------------------------------------------ done rays and hooks

#[test]
fn a_ray_marked_done_enters_no_further_leaf() {
    let mut objects = vec![body(0, [0.0, 0.0, 0.0]), body(1, [0.0, 0.0, 5.0])];
    let bvh = build(&mut objects, 1);
    let wrays = vec![
        world_ray([0.0, 0.0, -5.0], [0.0, 0.0, 1.0], 0.0, 100.0),
        world_ray([0.1, 0.0, -5.0], [0.0, 0.0, 1.0], 0.0, 100.0),
    ];
    // Left alone, both rays enter both leaves.
    let mut rays = accel_rays(&wrays);
    assert_eq!(visits(&bvh, &mut rays, &objects), vec![(0, vec![0, 1]), (1, vec![0, 1])]);
    // With ray 0 marked done in the first leaf, only ray 1 enters the second.
    let mut rays = accel_rays(&wrays);
    let mut seen = Vec::new();
    bvh.traverse(&mut rays, &objects, test_bounds, |obj: &Body, rs: &mut [AccelRay]| {
        seen.push((obj.name, ids(rs)));
        for r in rs.iter_mut() {
            if r.id == 0 {
                r.mark_done();
            }
        }
    });
    assert_eq!(seen, vec![(0, vec![0, 1]), (1, vec![1])]);
    // With both marked done, the second leaf is not entered at all.
    let mut rays = accel_rays(&wrays);
    let mut calls = 0;
    bvh.traverse(&mut rays, &objects, test_bounds, |_: &Body, rs: &mut [AccelRay]| {
        calls += 1;
        for r in rs.iter_mut() {
            r.mark_done();
        }
    });
    assert_eq!(calls, 1);
    assert!(rays.iter().all(|r| r.is_done()));
}

#[test]
fn a_ray_marked_done_is_still_handed_to_the_rest_of_its_leaf() {
    let mut objects = vec![body(0, [0.0, 0.0, 0.0]), body(1, [0.0, 0.0, 1.0])];
    let bvh = build(&mut objects, 2);
    assert_eq!(bvh.tree_depth(), 0);
    let wrays = vec![world_ray([0.0, 0.0, -5.0], [0.0, 0.0, 1.0], 0.0, 100.0)];
    let mut rays = accel_rays(&wrays);
    let mut seen = Vec::new();
    bvh.traverse(&mut rays, &objects, test_bounds, |obj: &Body, rs: &mut [AccelRay]| {
        seen.push((obj.name, rs[0].is_done()));
        rs[0].mark_done();
    });
    assert_eq!(seen, vec![(0, false), (1, true)]);
}

#[test]
fn stepping_by_hand_matches_traverse() {
    let mut objects: Vec<Body> = (0..5).map(|i| body(i, [i as f32 * 2.0, 0.0, 0.0])).collect();
    let bvh = build(&mut objects, 1);
    let wrays = vec![
        world_ray([0.0, 0.0, -5.0], [0.0, 0.0, 1.0], 0.0, 100.0),
        world_ray([4.0, 0.0, -5.0], [0.0, 0.0, 1.0], 0.0, 100.0),
        world_ray([-5.0, 0.0, 0.0], [1.0, 0.0, 0.0], 0.0, 100.0),
    ];
    let mut rays = accel_rays(&wrays);
    let by_traverse = visits(&bvh, &mut rays, &objects);
    let mut rays = accel_rays(&wrays);
    let mut by_hand = Vec::new();
    let mut cur = bvh.start(&rays);
    assert!(!cur.is_finished());
    while let Some((lo, hi, part)) = bvh.next_leaf(&mut cur, &mut rays, &test_bounds) {
        assert!(part > 0);
        for obj in &objects[lo..hi] {
            by_hand.push((obj.name, ids(&rays[..part])));
        }
    }
    assert!(cur.is_finished());
    // Node by node, in the order of the visit: the root, the two cubes on
    // the left and their parent, then the three on the right.
    assert_eq!(cur.node_tests(), 3 + 3 + 2 + 2 + 3 + 2 + 2 + 1 + 1);
    assert_eq!(by_hand, by_traverse);
    assert_eq!(
        by_hand,
        vec![(0, vec![0, 2]), (1, vec![2]), (2, vec![1, 2]), (3, vec![2]), (4, vec![2])]
    );
}

#[test]
fn steps_say_what_they_did() {
    let mut objects = vec![body(0, [-2.0, 0.0, 0.0]), body(1, [2.0, 0.0, 0.0])];
    let bvh = build(&mut objects, 1);
    let wrays = vec![
        world_ray([9.0, 0.0, -5.0], [0.0, 0.0, 1.0], 0.0, 100.0),
        world_ray([2.0, 0.0, -5.0], [0.0, 0.0, 1.0], 0.0, 100.0),
        world_ray([2.1, 0.0, -5.0], [0.0, 0.0, 1.0], 0.0, 100.0),
    ];
    let mut rays = accel_rays(&wrays);
    let mut cur = bvh.start(&rays);
    assert_eq!(cur.node_tests(), 0);
    assert_eq!(cur.active(), 3);
    // The root: two of the three rays enter.
    assert_eq!(bvh.step(&mut cur, &mut rays, &test_bounds), TraversalStep::Descended { part: 2 });
    assert_eq!(ids(&rays[..2]), vec![1, 2]);
    assert_eq!(rays[2].id, 0);
    assert_eq!(cur.node_tests(), 3);
    assert_eq!(cur.active(), 2);
    // The cube on the low side comes first, and nothing enters it.
    assert_eq!(bvh.step(&mut cur, &mut rays, &test_bounds), TraversalStep::Culled);
    assert_eq!(cur.node_tests(), 5);
    // The other cube.
    assert_eq!(
        bvh.step(&mut cur, &mut rays, &test_bounds),
        TraversalStep::Leaf { lo: 1, hi: 2, part: 2 }
    );
    assert_eq!(objects[1].name, 1);
    assert_eq!(cur.node_tests(), 7);
    assert!(cur.is_finished());
    assert_eq!(cur.active(), 0);
    assert_eq!(bvh.step(&mut cur, &mut rays, &test_bounds), TraversalStep::Finished);
    assert_eq!(cur.node_tests(), 7);
    assert_eq!(ids(&rays), vec![0, 1, 2]);
}

// -------------------------------------------------------- transform stack

#[test]
fn transform_stack_starts_with_no_level() {
    let stack = TransformStack::new();
    assert_eq!(stack.depth(), 0);
    assert!(stack.top().is_empty());
}

#[test]
fn transform_stack_takes_the_first_level_as_it_is() {
    let mut stack = TransformStack::new();
    let xs = [translation(1.0, 0.0, 0.0), translation(2.0, 0.0, 0.0)];
    stack.push(&xs, &compose);
    assert_eq!(stack.depth(), 1);
    assert_eq!(stack.top().len(), 2);
    assert_eq!(stack.top()[0].m, xs[0].m);
    assert_eq!(stack.top()[1].m, xs[1].m);
}

#[test]
fn transform_stack_composes_with_the_level_below() {
    let mut stack = TransformStack::new();
    stack.push(&[translation(1.0, 0.0, 0.0)], &compose);
    stack.push(&[translation(0.0, 2.0, 0.0), translation(0.0, 4.0, 0.0)], &compose);
    assert_eq!(stack.depth(), 2);
    assert_eq!(stack.top().len(), 2);
    assert_eq!(stack.top()[0].m, translation(1.0, 2.0, 0.0).m);
    assert_eq!(stack.top()[1].m, translation(1.0, 4.0, 0.0).m);
    let p = Point { co: Vec4::new(0.0, 0.0, 0.0, 1.0) };
    assert_eq!(p * stack.top()[1], Point { co: Vec4::new(1.0, 4.0, 0.0, 1.0) });
}

#[test]
fn transform_stack_push_then_pop_restores_the_top() {
    let mut stack = TransformStack::new();
    stack.push(&[translation(1.0, 0.0, 0.0), translation(3.0, 0.0, 0.0)], &compose);
    stack.push(&[translation(0.0, 2.0, 0.0)], &compose);
    let before: Vec<Mat4> = stack.top().iter().map(|x| x.m).collect();
    stack.push(
        &[translation(0.0, 0.0, 1.0), translation(0.0, 0.0, 2.0), translation(0.0, 0.0, 3.0)],
        &compose,
    );
    assert_eq!(stack.depth(), 3);
    assert_eq!(stack.top().len(), 3);
    stack.pop();
    assert_eq!(stack.depth(), 2);
    let after: Vec<Mat4> = stack.top().iter().map(|x| x.m).collect();
    assert_eq!(after, before);
    stack.pop();
    assert_eq!(stack.top().len(), 2);
    assert_eq!(stack.top()[1].m, translation(3.0, 0.0, 0.0).m);
    stack.pop();
    assert_eq!(stack.depth(), 0);
    assert!(stack.top().is_empty());
}

// ------------------------------------------------------------- the tracer

/// A unit cube at the origin of its own space that keeps a record of the
/// rays it was asked about.
struct Cube {
    asked: RefCell<Vec<Vec<u32>>>,
}

impl Cube {
    fn new() -> Cube {
        Cube { asked: RefCell::new(Vec::new()) }
    }
}

impl Surface for Cube {
    fn intersect_rays(
        &self,
        accel_rays: &mut [AccelRay],
        wrays: &[Ray],
        isects: &mut [SurfaceIntersection],
        space: &[Matrix4x4],
    ) {
        assert_eq!(wrays.len(), isects.len());
        self.asked.borrow_mut().push(ids(accel_rays));
        for r in accel_rays.iter_mut() {
            let max_t = f32::from_bits(r.max_t);
            if let Some(t) = BBox::cube([0.0; 3], 0.5).entry(r.orig.co, r.dir_inv.co, max_t) {
                let wr = &wrays[r.id as usize];
                isects[r.id as usize] = SurfaceIntersection::Hit {
                    t: t.to_bits(),
                    pos: Point { co: wr.orig.co + wr.dir.co * t },
                    nor: Vector { co: Vec4::new(0.0, 0.0, 1.0, 0.0) },
                    local_space: space[0],
                    uv: (0, 0),
                };
                r.max_t = t.to_bits();
            }
        }
    }
}

fn hit_distance(isect: &SurfaceIntersection) -> Option<f32> {
    match isect {
        SurfaceIntersection::Hit { t, .. } => Some(f32::from_bits(*t)),
        _ => None,
    }
}

/// An assembly of one cube, instanced once for each of `placements`, each
/// given as the transform from world space into the instance's space and the
/// instance's bounds in world space.
fn cube_instances(placements: &[(Matrix4x4, BBox)]) -> Assembly<Cube, (), BBox> {
    let mut instances: Vec<Instance> = (0..placements.len())
        .map(|i| Instance {
            instance_type: InstanceType::Object,
            data_index: 0,
            transform_indices: Some((i, i + 1)),
        })
        .collect();
    let bounds: Vec<BBox> = placements.iter().map(|p| p.1).collect();
    let object_accel = BVH::from_objects(
        &mut instances,
        1,
        BBox::empty(),
        |inst: &Instance| vec![bounds[inst.transform_indices.unwrap().0]],
        merge,
        |insts: &mut [Instance], _: bool| {
            insts.sort_by(|a, b| {
                let ca = bounds[a.transform_indices.unwrap().0].centroid()[0];
                let cb = bounds[b.transform_indices.unwrap().0].centroid()[0];
                ca.partial_cmp(&cb).unwrap()
            });
            (insts.len() / 2, 0u8)
        },
    );
    Assembly {
        instances,
        xforms: placements.iter().map(|p| p.0).collect(),
        objects: vec![Object::Surface(Cube::new())],
        assemblies: Vec::new(),
        object_accel,
    }
}

fn the_cube(assembly: &Assembly<Cube, (), BBox>) -> &Cube {
    match &assembly.objects[0] {
        Object::Surface(cube) => cube,
        Object::Light(_) => panic!("the first object is the cube"),
    }
}

#[test]
fn assemblies_are_checked_before_tracing() {
    let good = cube_instances(&[
        (translation(-5.0, 0.0, 0.0), BBox::cube([5.0, 0.0, 0.0], 0.5)),
        (translation(5.0, 0.0, 0.0), BBox::cube([-5.0, 0.0, 0.0], 0.5)),
    ]);
    assert_eq!(good.object_accel.object_total(), 2);
    assert!(good.check_instance(0) && good.check_instance(1));
    assert!(good.is_sound());
    assert_eq!(cube_instances(&[]).object_accel.object_total(), 0);
    assert!(cube_instances(&[]).is_sound());
    // An instance of an object that is not there.
    let mut bad = cube_instances(&[(translation(0.0, 0.0, 0.0), BBox::cube([0.0; 3], 0.5))]);
    bad.instances[0].data_index = 1;
    assert!(!bad.check_instance(0));
    assert!(!bad.is_sound());
    // Transforms that are not there, or none where some are named.
    let mut bad = cube_instances(&[(translation(0.0, 0.0, 0.0), BBox::cube([0.0; 3], 0.5))]);
    bad.instances[0].transform_indices = Some((0, 2));
    assert!(!bad.is_sound());
    bad.instances[0].transform_indices = Some((1, 1));
    assert!(!bad.is_sound());
    bad.instances[0].transform_indices = None;
    assert!(bad.is_sound());
    // A hierarchy over more instances than there are.
    let mut bad = cube_instances(&[(translation(0.0, 0.0, 0.0), BBox::cube([0.0; 3], 0.5))]);
    bad.instances.clear();
    assert!(!bad.is_sound());
    // A fault further down is found as well.
    let mut inner = cube_instances(&[(translation(0.0, 0.0, 0.0), BBox::cube([0.0; 3], 0.5))]);
    inner.instances[0].instance_type = InstanceType::Assembly;
    let mut outer = cube_instances(&[]);
    outer.assemblies.push(inner);
    assert!(!outer.is_sound());
}

#[test]
fn tracing_nothing_gives_nothing() {
    let assembly = cube_instances(&[(translation(0.0, 0.0, 0.0), BBox::cube([0.0; 3], 0.5))]);
    let mut tracer = Tracer::from_assembly(&assembly);
    assert!(tracer.trace(&[], &test_bounds, &compose, &sample).is_empty());
}

#[test]
fn tracing_an_empty_scene_misses() {
    let assembly = cube_instances(&[]);
    let mut tracer = Tracer::from_assembly(&assembly);
    let wrays = vec![world_ray([0.0, 0.0, 10.0], [0.0, 0.0, -1.0], 0.0, 100.0); 3];
    let isects = tracer.trace(&wrays, &test_bounds, &compose, &sample);
    assert_eq!(isects.len(), 3);
    assert!(isects.iter().all(|i| matches!(i, SurfaceIntersection::Miss)));
}

#[test]
fn instanced_assembly() {
    let assembly = cube_instances(&[
        (translation(-5.0, 0.0, 0.0), BBox::cube([5.0, 0.0, 0.0], 0.5)),
        (translation(5.0, 0.0, 0.0), BBox::cube([-5.0, 0.0, 0.0], 0.5)),
    ]);
    let wrays = vec![world_ray([5.0, 0.0, 10.0], [0.0, 0.0, -1.0], 0.0, 100.0)];
    let mut tracer = Tracer::from_assembly(&assembly);
    assert_eq!(tracer.node_tests(), 0);
    let isects = tracer.trace(&wrays, &test_bounds, &compose, &sample);
    assert_eq!(isects.len(), 1);
    assert_eq!(hit_distance(&isects[0]), Some(9.5));
    match isects[0] {
        SurfaceIntersection::Hit { local_space, pos, .. } => {
            assert_eq!(local_space.m, translation(-5.0, 0.0, 0.0).m);
            assert_eq!(pos, Point { co: Vec4::new(5.0, 0.0, 0.5, 1.0) });
        }
        _ => panic!("the ray hits the right instance"),
    }
    // Only the right instance was reached.
    assert_eq!(*the_cube(&assembly).asked.borrow(), vec![vec![0]]);
    assert_eq!(tracer.node_tests(), 3);
    tracer.trace(&wrays, &test_bounds, &compose, &sample);
    assert_eq!(tracer.node_tests(), 6);
    assert_eq!(the_cube(&assembly).asked.borrow().len(), 2);

    // The same by hand, with the transform stack in view.
    let mut rays = accel_rays(&wrays);
    let mut stack = TransformStack::new();
    let mut isects = vec![SurfaceIntersection::Miss; 1];
    let mut node_tests = 100;
    Tracer::trace_assembly(
        &assembly,
        &wrays,
        &mut rays,
        &mut stack,
        &mut isects,
        &mut node_tests,
        &test_bounds,
        &compose,
        &sample,
    );
    assert_eq!(stack.depth(), 0);
    assert!(stack.top().is_empty());
    assert_eq!(hit_distance(&isects[0]), Some(9.5));
    // One test against the root and one against each of the two leaves, on
    // top of what the count was.
    assert_eq!(node_tests, 103);
    // The ray is back in world space, and keeps what the surface did to it.
    assert_eq!(rays[0].orig, wrays[0].orig);
    assert_eq!(f32::from_bits(rays[0].max_t), 9.5);
}

#[test]
fn every_ray_finds_its_own_result() {
    let assembly = cube_instances(&[
        (translation(-5.0, 0.0, 0.0), BBox::cube([5.0, 0.0, 0.0], 0.5)),
        (translation(5.0, 0.0, 0.0), BBox::cube([-5.0, 0.0, 0.0], 0.5)),
    ]);
    let wrays = vec![
        world_ray([0.0, 0.0, 10.0], [0.0, 0.0, -1.0], 0.0, 100.0),
        world_ray([-5.0, 0.0, 10.0], [0.0, 0.0, -1.0], 0.0, 100.0),
        world_ray([5.0, 0.0, 20.0], [0.0, 0.0, -1.0], 0.0, 100.0),
        world_ray([5.0, 0.0, 20.0], [0.0, 0.0, -1.0], 0.0, 10.0),
        world_ray([-10.0, 0.0, 0.0], [1.0, 0.0, 0.0], 0.0, 100.0),
    ];
    let expected = vec![None, Some(9.5), Some(19.5), None, Some(4.5)];
    let mut tracer = Tracer::from_assembly(&assembly);
    let isects = tracer.trace(&wrays, &test_bounds, &compose, &sample);
    assert_eq!(isects.iter().map(hit_distance).collect::<Vec<_>>(), expected);
    // In any order of the rays, each finds what it found before.
    let order = [3usize, 0, 4, 2, 1];
    let shuffled: Vec<Ray> = order.iter().map(|i| wrays[*i]).collect();
    let isects = tracer.trace(&shuffled, &test_bounds, &compose, &sample);
    for (place, i) in order.iter().enumerate() {
        assert_eq!(hit_distance(&isects[place]), expected[*i]);
    }
}

#[test]
fn octant_split_under_transform() {
    let turn = Mat4::from_rotation_z(0.5);
    let assembly = cube_instances(&[(
        Matrix4x4 { m: turn },
        BBox::cube([0.0, 0.0, 0.0], 1.0),
    )]);
    let mut wrays = Vec::new();
    for k in 0..8 {
        let sx = if k & 4 != 0 { -1.0 } else { 1.0 };
        let sy = if k & 2 != 0 { -1.0 } else { 1.0 };
        let sz = if k & 1 != 0 { -1.0 } else { 1.0 };
        // From a corner far out towards the cube, a little off the centre.
        let orig = [-4.0 * sx, -5.0 * sy, -6.0 * sz];
        wrays.push(world_ray(orig, [4.0 * sx, 5.1 * sy, 5.9 * sz], 0.0, 100.0));
    }
    let mut tracer = Tracer::from_assembly(&assembly);
    let all: Vec<Option<f32>> = tracer
        .trace(&wrays, &test_bounds, &compose, &sample)
        .iter()
        .map(hit_distance)
        .collect();
    assert!(all.iter().all(|t| t.is_some()));
    for k in 0..8 {
        let alone = tracer.trace(&wrays[k..k + 1], &test_bounds, &compose, &sample);
        assert_eq!(hit_distance(&alone[0]), all[k]);
    }
    // All eight were handed over, one octant at a time.
    let asked = the_cube(&assembly).asked.borrow();
    let mut first_pass: Vec<u32> = asked[..8].iter().flatten().copied().collect();
    first_pass.sort();
    assert_eq!(first_pass, (0..8).collect::<Vec<u32>>());
    assert!(asked[..8].iter().all(|rays| rays.len() == 1));
}

#[test]
fn nested_assemblies_and_lights() {
    let inner = cube_instances(&[(translation(0.0, -3.0, 0.0), BBox::cube([0.0, 3.0, 0.0], 0.5))]);
    let mut instances = vec![
        Instance {
            instance_type: InstanceType::Assembly,
            data_index: 0,
            transform_indices: Some((0, 1)),
        },
        Instance { instance_type: InstanceType::Object, data_index: 0, transform_indices: None },
    ];
    // The inner assembly is placed two up along x; seen from the world its
    // cube sits at (2, 3, 0).  The light sits at (-2, 0, 0).
    let bounds = [BBox::cube([2.0, 3.0, 0.0], 0.5), BBox::cube([-2.0, 0.0, 0.0], 0.5)];
    let object_accel = BVH::from_objects(
        &mut instances,
        1,
        BBox::empty(),
        |inst: &Instance| match inst.instance_type {
            InstanceType::Assembly => vec![bounds[0]],
            InstanceType::Object => vec![bounds[1]],
        },
        merge,
        |insts: &mut [Instance], _: bool| (insts.len() / 2, 0u8),
    );
    let outer: Assembly<Cube, (), BBox> = Assembly {
        instances,
        xforms: vec![translation(-2.0, 0.0, 0.0)],
        objects: vec![Object::Light(())],
        assemblies: vec![inner],
        object_accel,
    };
    let wrays = vec![
        world_ray([2.0, 3.0, 10.0], [0.0, 0.0, -1.0], 0.0, 100.0),
        world_ray([-2.0, 0.0, 10.0], [0.0, 0.0, -1.0], 0.0, 100.0),
        world_ray([0.0, 3.0, 10.0], [0.0, 0.0, -1.0], 0.0, 100.0),
    ];
    let mut rays = accel_rays(&wrays);
    let mut stack = TransformStack::new();
    let mut isects = vec![SurfaceIntersection::Miss; 3];
    let mut node_tests = 0;
    Tracer::trace_assembly(
        &outer,
        &wrays,
        &mut rays,
        &mut stack,
        &mut isects,
        &mut node_tests,
        &test_bounds,
        &compose,
        &sample,
    );
    assert_eq!(stack.depth(), 0);
    assert_eq!(
        isects.iter().map(hit_distance).collect::<Vec<_>>(),
        vec![Some(9.5), None, None]
    );
    // Three rays against the outer root; all three enter it and are tested
    // against both of its leaves; the one that enters the inner assembly is
    // tested against its only node.
    assert_eq!(node_tests, 3 + 3 + 3 + 1);
    match isects[0] {
        SurfaceIntersection::Hit { local_space, .. } => {
            assert_eq!(local_space.m, translation(-2.0, -3.0, 0.0).m);
        }
        _ => panic!("the first ray hits the cube"),
    }
}

#[test]
fn localize_and_globalize() {
    let wrays = vec![
        world_ray([1.0, 2.0, 3.0], [2.0, 4.0, 8.0], 0.0, 100.0),
        world_ray([1.0, 2.0, 3.0], [2.0, 4.0, 8.0], 1.0, 100.0),
        world_ray([1.0, 2.0, 3.0], [2.0, 4.0, 8.0], 0.5, 100.0),
    ];
    let mut rays = accel_rays(&wrays);
    rays.reverse();
    rays[1].mark_done();
    let xs = [translation(10.0, 0.0, 0.0), translation(20.0, 0.0, 0.0)];
    localize(&mut rays, &wrays, &xs, &sample);
    let xs_of: Vec<f32> = rays.iter().map(|r| r.orig.co.x()).collect();
    assert_eq!(rays.iter().map(|r| r.id).collect::<Vec<u32>>(), vec![2, 1, 0]);
    assert_eq!(xs_of, vec![16.0, 21.0, 11.0]);
    assert!(rays[1].is_done());
    assert_eq!(rays[0].dir_inv.co.truncate(), Vec3::new(0.5, 0.25, 0.125));
    globalize(&mut rays, &wrays);
    assert!(rays.iter().all(|r| r.orig == wrays[0].orig));
    assert!(rays[1].is_done());
    // A ray that names no world ray is left alone.
    let mut stray = vec![AccelRay::new(&wrays[0], 9)];
    stray[0].orig = Point { co: Vec4::new(7.0, 7.0, 7.0, 1.0) };
    localize(&mut stray, &wrays, &xs, &sample);
    assert_eq!(stray[0].orig.co.x(), 7.0);
    globalize(&mut stray, &wrays);
    assert_eq!(stray[0].orig.co.x(), 7.0);
}

use glam::{Mat4, Vec3, Vec4, Vec4Mask};
use psychopath::math::{Matrix4x4, Point, Vector};
use psychopath::ray::{AccelRay, Ray, RayBatch, RayStack};

fn point(x: f32, y: f32, z: f32) -> Point {
    Point { co: Vec4::new(x, y, z, 1.0) }
}

fn vector(x: f32, y: f32, z: f32) -> Vector {
    Vector { co: Vec4::new(x, y, z, 0.0) }
}

fn ray(orig: (f32, f32, f32), dir: (f32, f32, f32), time: f32, max_t: f32) -> Ray {
    Ray {
        orig: point(orig.0, orig.1, orig.2),
        dir: vector(dir.0, dir.1, dir.2),
        time: time.to_bits(),
        wavelength: 550.0f32.to_bits(),
        max_t: max_t.to_bits(),
    }
}

fn lanes(v: Vec4) -> [f32; 4] {
    [v.x(), v.y(), v.z(), v.w()]
}

/// The ray indices of the next task, in order.
fn next_task(stack: &RayStack) -> Vec<usize> {
    (0..stack.ray_count_in_next_task()).map(|i| stack.next_task_ray_idx(i)).collect()
}

// ---------------------------------------------------------------- AccelRay

#[test]
fn accel_ray_starts_in_world_space_with_no_flag() {
    let wr = ray((1.0, 2.0, 3.0), (2.0, -4.0, 0.5), 0.25, 100.0);
    let r = AccelRay::new(&wr, 7);
    assert_eq!(r.orig, wr.orig);
    assert_eq!(lanes(r.dir_inv.co)[..3], [0.5, -0.25, 2.0]);
    assert_eq!(r.max_t, 100.0f32.to_bits());
    assert_eq!(r.time, 0.25f32.to_bits());
    assert_eq!(r.id, 7);
    assert!(!r.is_done());
    assert!(!r.is_occlusion());
}

#[test]
fn accel_ray_done_is_kept() {
    let wr = ray((0.0, 0.0, 0.0), (1.0, 1.0, 1.0), 0.0, 1.0);
    let mut r = AccelRay::new(&wr, 0);
    r.mark_done();
    assert!(r.is_done());
    assert!(!r.is_occlusion());
    r.mark_done();
    assert!(r.is_done());
    assert_eq!(r.flags, 2);
}

#[test]
fn accel_ray_moves_between_spaces() {
    let wr = ray((1.0, 2.0, 3.0), (2.0, 4.0, 8.0), 0.0, 1.0);
    let mut r = AccelRay::new(&wr, 3);
    let m = Matrix4x4 { m: Mat4::from_scale(Vec3::new(2.0, 2.0, 2.0)) };
    r.mark_done();
    r.update_from_xformed_world_ray(&wr, &m);
    assert_eq!(r.orig, point(2.0, 4.0, 6.0));
    assert_eq!(lanes(r.dir_inv.co)[..3], [0.25, 0.125, 0.0625]);
    assert!(r.is_done());
    assert_eq!(r.id, 3);
    r.update_from_world_ray(&wr);
    assert_eq!(r.orig, point(1.0, 2.0, 3.0));
    assert_eq!(lanes(r.dir_inv.co)[..3], [0.5, 0.25, 0.125]);
    assert!(r.is_done());
}

#[test]
fn accel_ray_direction_signs() {
    let all = AccelRay::new(&ray((0.0, 0.0, 0.0), (1.0, 2.0, 3.0), 0.0, 1.0), 0);
    assert_eq!(all.dir_signs() & 7, 7);
    let none = AccelRay::new(&ray((0.0, 0.0, 0.0), (-1.0, -2.0, -3.0), 0.0, 1.0), 0);
    assert_eq!(none.dir_signs() & 7, 0);
    let only_y = AccelRay::new(&ray((0.0, 0.0, 0.0), (-1.0, 2.0, -3.0), 0.0, 1.0), 0);
    assert_eq!(only_y.dir_signs() & 7, 2);
    let x_and_z = AccelRay::new(&ray((0.0, 0.0, 0.0), (1.0, -2.0, 3.0), 0.0, 1.0), 0);
    assert_eq!(x_and_z.dir_signs() & 7, 5);
    // A direction of zero has an infinite, positive reciprocal.
    let flat = AccelRay::new(&ray((0.0, 0.0, 0.0), (0.0, -1.0, 0.0), 0.0, 1.0), 0);
    assert_eq!(flat.dir_signs() & 7, 5);
}

#[test]
fn accel_ray_sign_bits() {
    let r = AccelRay::new(&ray((0.0, 0.0, 0.0), (2.0, -4.0, f32::NEG_INFINITY), 0.0, 1.0), 0);
    // The reciprocal is (0.5, -0.25, -0.0).
    assert!(r.dir_sign_positive(0));
    assert!(!r.dir_sign_positive(1));
    assert!(!r.dir_sign_positive(2));
    // Greater than or equal to zero is another question: -0.0 is.
    assert_eq!(r.dir_signs() & 7, 5);
}

// ---------------------------------------------------------------- RayBatch

#[test]
fn batch_starts_empty() {
    assert_eq!(RayBatch::new().len(), 0);
    assert_eq!(RayBatch::with_capacity(64).len(), 0);
}

#[test]
fn batch_push_keeps_what_it_is_given() {
    let mut batch = RayBatch::new();
    let a = ray((1.0, 2.0, 3.0), (4.0, 5.0, 6.0), 0.5, 10.0);
    let b = ray((-1.0, -2.0, -3.0), (0.0, 1.0, 0.0), 0.75, 20.0);
    batch.push(a, false);
    batch.push(b, true);
    assert_eq!(batch.len(), 2);
    assert_eq!(batch.orig(0), a.orig);
    assert_eq!(batch.dir(0), a.dir);
    assert_eq!(f32::from_bits(batch.time(0)), 0.5);
    assert_eq!(f32::from_bits(batch.max_t(0)), 10.0);
    assert_eq!(f32::from_bits(batch.wavelength(0)), 550.0);
    assert!(!batch.is_occlusion(0));
    assert!(!batch.is_done(0));
    assert_eq!(batch.orig(1), b.orig);
    assert_eq!(batch.dir(1), b.dir);
    assert_eq!(f32::from_bits(batch.time(1)), 0.75);
    assert!(batch.is_occlusion(1));
    assert!(!batch.is_done(1));
    // The local caches are placeholders until they are set.
    assert_eq!(batch.orig_local(0), a.orig);
    assert_eq!(batch.dir_inv_local(0), a.dir);
}

#[test]
fn batch_set_from_ray_fills_the_whole_slot() {
    let mut batch = RayBatch::new();
    batch.push(ray((9.0, 9.0, 9.0), (9.0, 9.0, 9.0), 0.0, 1.0), true);
    let a = ray((1.0, 2.0, 3.0), (4.0, -8.0, 0.5), 0.25, 30.0);
    batch.set_from_ray(&a, false, 0);
    assert_eq!(batch.len(), 1);
    assert_eq!(batch.orig(0), a.orig);
    assert_eq!(batch.dir(0), a.dir);
    assert_eq!(batch.orig_local(0), a.orig);
    assert_eq!(lanes(batch.dir_inv_local(0).co)[..3], [0.25, -0.125, 2.0]);
    assert_eq!(f32::from_bits(batch.time(0)), 0.25);
    assert_eq!(f32::from_bits(batch.max_t(0)), 30.0);
    assert!(!batch.is_occlusion(0));
    assert!(!batch.is_done(0));
    batch.set_from_ray(&a, true, 0);
    assert!(batch.is_occlusion(0));
}

#[test]
fn batch_update_local_recomputes_from_world() {
    let mut batch = RayBatch::new();
    let a = ray((1.0, 2.0, 3.0), (2.0, 4.0, 8.0), 0.0, 1.0);
    batch.push(a, false);
    let shift = Matrix4x4 { m: Mat4::from_translation(Vec3::new(10.0, 0.0, -1.0)) };
    batch.update_local(0, &shift);
    assert_eq!(batch.orig_local(0), point(11.0, 2.0, 2.0));
    assert_eq!(lanes(batch.dir_inv_local(0).co)[..3], [0.5, 0.25, 0.125]);
    assert_eq!(batch.orig(0), a.orig);
    assert_eq!(batch.dir(0), a.dir);
    let grow = Matrix4x4 { m: Mat4::from_scale(Vec3::new(2.0, 2.0, 2.0)) };
    batch.update_local(0, &grow);
    assert_eq!(batch.orig_local(0), point(2.0, 4.0, 6.0));
    assert_eq!(lanes(batch.dir_inv_local(0).co)[..3], [0.25, 0.125, 0.0625]);
}

#[test]
fn batch_flags_only_ever_get_set() {
    let mut batch = RayBatch::new();
    batch.push(ray((0.0, 0.0, 0.0), (1.0, 0.0, 0.0), 0.0, 1.0), false);
    batch.mark_done(0);
    assert!(batch.is_done(0));
    assert!(!batch.is_occlusion(0));
    batch.mark_occlusion(0);
    assert!(batch.is_done(0));
    assert!(batch.is_occlusion(0));
    batch.mark_done(0);
    batch.mark_occlusion(0);
    assert!(batch.is_done(0));
    assert!(batch.is_occlusion(0));
}

#[test]
fn batch_set_max_t_changes_only_that() {
    let mut batch = RayBatch::new();
    batch.push(ray((1.0, 2.0, 3.0), (1.0, 0.0, 0.0), 0.5, 10.0), true);
    batch.set_max_t(0, 2.5f32.to_bits());
    assert_eq!(f32::from_bits(batch.max_t(0)), 2.5);
    assert_eq!(f32::from_bits(batch.time(0)), 0.5);
    assert!(batch.is_occlusion(0));
    assert_eq!(batch.orig(0), point(1.0, 2.0, 3.0));
}

#[test]
fn batch_hot_and_cold_stay_in_step() {
    let mut batch = RayBatch::with_capacity(4);
    for i in 0..5 {
        let f = i as f32;
        batch.push(ray((f, 0.0, 0.0), (1.0, 0.0, 0.0), f / 8.0, f), i % 2 == 1);
    }
    // Position i holds origin x = i (cold) and time i/8 (hot).
    let in_step = |batch: &RayBatch| {
        (0..batch.len()).all(|i| batch.orig(i).co.x() / 8.0 == f32::from_bits(batch.time(i)))
    };
    assert!(in_step(&batch));
    batch.swap(0, 4);
    assert_eq!(batch.len(), 5);
    assert_eq!(batch.orig(0), point(4.0, 0.0, 0.0));
    assert_eq!(f32::from_bits(batch.time(0)), 0.5);
    assert_eq!(batch.orig(4), point(0.0, 0.0, 0.0));
    assert_eq!(f32::from_bits(batch.time(4)), 0.0);
    assert!(in_step(&batch));
    batch.swap(2, 2);
    assert!(in_step(&batch));
    batch.truncate(3);
    assert_eq!(batch.len(), 3);
    assert!(in_step(&batch));
    assert_eq!(batch.orig(2), point(2.0, 0.0, 0.0));
    batch.truncate(10);
    assert_eq!(batch.len(), 3);
    batch.push(ray((7.0, 0.0, 0.0), (1.0, 0.0, 0.0), 7.0 / 8.0, 1.0), false);
    assert_eq!(batch.len(), 4);
    assert!(in_step(&batch));
    batch.clear();
    assert_eq!(batch.len(), 0);
    batch.push(ray((1.0, 0.0, 0.0), (1.0, 0.0, 0.0), 1.0 / 8.0, 1.0), false);
    assert_eq!(batch.len(), 1);
    assert!(in_step(&batch));
}

// ---------------------------------------------------------------- RayStack

#[test]
fn stack_starts_empty() {
    let stack = RayStack::new();
    assert!(stack.is_empty());
}

#[test]
fn stack_lane_with_nothing_pending_gives_no_task() {
    let mut stack = RayStack::new();
    stack.ensure_lane_count(2);
    assert!(!stack.push_lane_to_task(0));
    assert!(stack.is_empty());
    stack.push_ray_index(5, 1);
    assert!(!stack.push_lane_to_task(0));
    assert!(stack.push_lane_to_task(1));
    assert!(!stack.is_empty());
    assert!(!stack.push_lane_to_task(1));
    assert_eq!(next_task(&stack), vec![5]);
}

#[test]
fn stack_ensure_lane_count_only_grows() {
    let mut stack = RayStack::new();
    stack.ensure_lane_count(3);
    stack.push_ray_index(1, 2);
    stack.ensure_lane_count(3);
    stack.ensure_lane_count(1);
    assert!(stack.push_lane_to_task(2));
    assert_eq!(next_task(&stack), vec![1]);
    stack.ensure_lane_count(5);
    stack.push_ray_index(9, 4);
    assert!(stack.push_lane_to_task(4));
    assert_eq!(next_task(&stack), vec![9]);
}

#[test]
fn stack_tasks_come_back_last_in_first_out() {
    let mut stack = RayStack::new();
    stack.ensure_lane_count(3);
    stack.push_ray_index(10, 0);
    stack.push_ray_index(11, 0);
    stack.push_ray_index(20, 1);
    stack.push_ray_index(30, 2);
    stack.push_ray_index(31, 2);
    stack.push_ray_index(32, 2);
    stack.push_lanes_to_tasks(&[2, 0, 1]);
    assert_eq!(stack.ray_count_in_next_task(), 1);
    assert_eq!(next_task(&stack), vec![20]);
    stack.pop_task();
    assert_eq!(stack.ray_count_in_next_task(), 2);
    assert_eq!(next_task(&stack), vec![10, 11]);
    stack.pop_task();
    assert_eq!(stack.ray_count_in_next_task(), 3);
    assert_eq!(next_task(&stack), vec![30, 31, 32]);
    stack.pop_task();
    assert!(stack.is_empty());
}

#[test]
fn stack_push_lanes_skips_lanes_with_nothing_pending() {
    let mut stack = RayStack::new();
    stack.ensure_lane_count(3);
    stack.push_ray_index(7, 1);
    stack.push_lanes_to_tasks(&[0, 1, 2, 1]);
    assert_eq!(next_task(&stack), vec![7]);
    stack.pop_task();
    assert!(stack.is_empty());
}

#[test]
fn stack_tasks_nest_within_a_lane() {
    let mut stack = RayStack::new();
    stack.ensure_lane_count(1);
    stack.push_ray_index(1, 0);
    stack.push_ray_index(2, 0);
    assert!(stack.push_lane_to_task(0));
    stack.push_ray_index(3, 0);
    assert!(stack.push_lane_to_task(0));
    assert_eq!(next_task(&stack), vec![3]);
    stack.pop_task();
    assert_eq!(next_task(&stack), vec![1, 2]);
    // What is pushed now lands where the popped task was.
    stack.push_ray_index(4, 0);
    assert!(stack.push_lane_to_task(0));
    assert_eq!(next_task(&stack), vec![4]);
    stack.pop_task();
    assert_eq!(next_task(&stack), vec![1, 2]);
    stack.pop_task();
    assert!(stack.is_empty());
}

#[test]
fn stack_keeps_the_low_sixteen_bits_of_an_index() {
    let mut stack = RayStack::new();
    stack.ensure_lane_count(1);
    stack.push_ray_index(65535, 0);
    stack.push_ray_index(70000, 0);
    assert!(stack.push_lane_to_task(0));
    assert_eq!(next_task(&stack), vec![65535, 4464]);
}

#[test]
fn stack_duplicate_next_task_repeats_its_rays() {
    let mut stack = RayStack::new();
    stack.ensure_lane_count(2);
    stack.push_ray_index(8, 1);
    assert!(stack.push_lane_to_task(1));
    stack.push_ray_index(1, 1);
    stack.push_ray_index(2, 1);
    stack.push_ray_index(3, 1);
    assert!(stack.push_lane_to_task(1));
    stack.duplicate_next_task();
    assert_eq!(next_task(&stack), vec![1, 2, 3]);
    stack.pop_task();
    assert_eq!(next_task(&stack), vec![1, 2, 3]);
    stack.pop_task();
    assert_eq!(next_task(&stack), vec![8]);
    stack.pop_task();
    assert!(stack.is_empty());
}

#[test]
fn stack_duplicate_reuses_spare_room() {
    let mut stack = RayStack::new();
    stack.ensure_lane_count(1);
    for i in 0..6 {
        stack.push_ray_index(100 + i, 0);
    }
    assert!(stack.push_lane_to_task(0));
    stack.pop_task();
    // The lane is empty now but keeps its room, with stale entries in it.
    stack.push_ray_index(1, 0);
    stack.push_ray_index(2, 0);
    assert!(stack.push_lane_to_task(0));
    stack.duplicate_next_task();
    assert_eq!(next_task(&stack), vec![1, 2]);
    stack.pop_task();
    assert_eq!(next_task(&stack), vec![1, 2]);
    stack.pop_task();
    assert!(stack.is_empty());
}

#[test]
fn stack_do_next_task_visits_in_order_and_keeps_the_task() {
    let mut stack = RayStack::new();
    stack.ensure_lane_count(1);
    stack.push_ray_index(4, 0);
    stack.push_ray_index(2, 0);
    stack.push_ray_index(9, 0);
    assert!(stack.push_lane_to_task(0));
    let mut seen = Vec::new();
    stack.do_next_task(|i| seen.push(i));
    assert_eq!(seen, vec![4, 2, 9]);
    assert_eq!(next_task(&stack), vec![4, 2, 9]);
    let mut again = Vec::new();
    stack.pop_do_next_task(|i| again.push(i));
    assert_eq!(again, vec![4, 2, 9]);
    assert!(stack.is_empty());
}

#[test]
fn stack_redistributes_rays_by_mask() {
    let mut stack = RayStack::new();
    stack.ensure_lane_count(4);
    for i in 0..6 {
        stack.push_ray_index(i, 0);
    }
    assert!(stack.push_lane_to_task(0));
    let mut asked = Vec::new();
    stack.pop_do_next_task_and_push_rays(3, |i| {
        asked.push(i);
        // Lane 0 gets the even rays, lane 1 the multiples of three, lane 2
        // everything; lane 3 is named but lies beyond the lanes in use.
        Vec4Mask::new(i % 2 == 0, i % 3 == 0, true, true)
    });
    assert_eq!(asked, vec![0, 1, 2, 3, 4, 5]);
    assert!(stack.is_empty());
    assert!(!stack.push_lane_to_task(3));
    stack.push_lanes_to_tasks(&[0, 1, 2]);
    assert_eq!(next_task(&stack), vec![0, 1, 2, 3, 4, 5]);
    stack.pop_task();
    assert_eq!(next_task(&stack), vec![0, 3]);
    stack.pop_task();
    assert_eq!(next_task(&stack), vec![0, 2, 4]);
    stack.pop_task();
    assert!(stack.is_empty());
}

#[test]
fn stack_redistributes_rays_by_given_masks() {
    let mut stack = RayStack::new();
    stack.ensure_lane_count(2);
    stack.push_ray_index(50, 1);
    assert!(stack.push_lane_to_task(1));
    stack.push_ray_index(7, 1);
    stack.push_ray_index(8, 1);
    stack.push_ray_index(9, 1);
    assert!(stack.push_lane_to_task(1));
    stack.pop_next_task_and_push_rays(2, &[0b10, 0b01, 0b11]);
    // The older task of lane 1 is untouched.
    assert_eq!(next_task(&stack), vec![50]);
    stack.push_lanes_to_tasks(&[0, 1]);
    assert_eq!(next_task(&stack), vec![7, 9]);
    stack.pop_task();
    assert_eq!(next_task(&stack), vec![8, 9]);
    stack.pop_task();
    assert_eq!(next_task(&stack), vec![50]);
}

#[test]
fn stack_redistribution_with_no_lane_drops_the_rays() {
    let mut stack = RayStack::new();
    stack.ensure_lane_count(1);
    stack.push_ray_index(1, 0);
    assert!(stack.push_lane_to_task(0));
    stack.pop_do_next_task_and_push_rays(0, |_| Vec4Mask::new(true, true, true, true));
    assert!(stack.is_empty());
    assert!(!stack.push_lane_to_task(0));
}

#[test]
fn stack_clear_empties_lanes_and_tasks_but_keeps_the_lanes() {
    let mut stack = RayStack::new();
    stack.ensure_lane_count(2);
    stack.push_ray_index(1, 0);
    stack.push_ray_index(2, 1);
    assert!(stack.push_lane_to_task(0));
    stack.clear();
    assert!(stack.is_empty());
    assert!(!stack.push_lane_to_task(0));
    assert!(!stack.push_lane_to_task(1));
    stack.push_ray_index(3, 1);
    assert!(stack.push_lane_to_task(1));
    assert_eq!(next_task(&stack), vec![3]);
}

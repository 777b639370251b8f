use glam::{Mat4, Vec4};
use psychopath::math::{cross, Matrix4x4, Point, Vector};

fn point(x: f32, y: f32, z: f32) -> Point {
    Point { co: Vec4::new(x, y, z, 1.0) }
}

fn vector(x: f32, y: f32, z: f32) -> Vector {
    Vector { co: Vec4::new(x, y, z, 0.0) }
}

/// A matrix from its sixteen values, row by row.
fn matrix(values: [f32; 16]) -> Matrix4x4 {
    Matrix4x4 { m: Mat4::from_cols_array(&values).transpose() }
}

#[test]
fn norm() {
    let mut p1 = point(1.0, 2.0, 3.0);
    let p2 = point(2.0, 4.0, 6.0);
    p1.co.set_w(0.5);

    assert_eq!(p2, p1.norm());
}

#[test]
fn add() {
    let p1 = point(1.0, 2.0, 3.0);
    let v1 = vector(1.5, 4.5, 2.5);
    let p2 = point(2.5, 6.5, 5.5);

    assert_eq!(p2, p1 + v1);
}

#[test]
fn sub() {
    let p1 = point(1.0, 2.0, 3.0);
    let p2 = point(1.5, 4.5, 2.5);
    let v1 = vector(-0.5, -2.5, 0.5);

    assert_eq!(v1, p1 - p2);
}

#[test]
fn mul_matrix_1() {
    let p = point(1.0, 2.5, 4.0);
    let m = matrix([
        1.0, 2.0, 2.0, 1.5, 3.0, 6.0, 7.0, 8.0, 9.0, 2.0, 11.0, 12.0, 0.0, 0.0, 0.0, 1.0,
    ]);
    let pm = point(15.5, 54.0, 70.0);
    assert_eq!(p * m, pm);
}

#[test]
fn mul_matrix_2() {
    let p = point(1.0, 2.5, 4.0);
    let m = matrix([
        1.0, 2.0, 2.0, 1.5, 3.0, 6.0, 7.0, 8.0, 9.0, 2.0, 11.0, 12.0, 2.0, 3.0, 1.0, 5.0,
    ]);
    let mut pm = point(15.5, 54.0, 70.0);
    pm.co.set_w(18.5);
    assert_eq!(p * m, pm);
}

#[test]
fn mul_matrix_3() {
    // Make sure matrix multiplication composes the way one would expect
    let p = point(1.0, 2.5, 4.0);
    let m1 = matrix([
        1.0, 2.0, 2.0, 1.5, 3.0, 6.0, 7.0, 8.0, 9.0, 2.0, 11.0, 12.0, 13.0, 7.0, 15.0, 3.0,
    ]);
    let m2 = matrix([
        4.0, 1.0, 2.0, 3.5, 3.0, 6.0, 5.0, 2.0, 2.0, 2.0, 4.0, 12.0, 5.0, 7.0, 8.0, 11.0,
    ]);
    println!("{:?}", m1 * m2);

    let pmm1 = p * (m1 * m2);
    let pmm2 = (p * m1) * m2;

    let d = (pmm1 - pmm2).co.truncate();
    assert!(d.length_squared() <= 0.00001); // Assert pmm1 and pmm2 are roughly equal
}

#[test]
fn norm_divides_by_the_last_lane() {
    let p = Point { co: Vec4::new(3.0, -6.0, 9.0, 3.0) };
    assert_eq!(p.norm(), point(1.0, -2.0, 3.0));
    assert_ne!(p.norm(), p);
}

#[test]
fn min_and_max_are_lane_wise() {
    let a = point(1.0, 5.0, -3.0);
    let b = point(2.0, 4.0, -3.5);
    assert_eq!(a.min(b), point(1.0, 4.0, -3.5));
    assert_eq!(a.max(b), point(2.0, 5.0, -3.0));
    assert_eq!(b.min(a), point(1.0, 4.0, -3.5));
    assert_eq!(b.max(a), point(2.0, 5.0, -3.0));
}

#[test]
fn min_and_max_standardize_first() {
    let a = Point { co: Vec4::new(2.0, 2.0, 2.0, 2.0) };
    let b = point(3.0, 0.5, 1.0);
    assert_eq!(a.min(b), point(1.0, 0.5, 1.0));
    assert_eq!(a.max(b), point(3.0, 1.0, 1.0));
}

#[test]
fn into_vector_clears_the_last_lane() {
    let p = point(1.0, 2.0, 3.0);
    assert_eq!(p.into_vector(), vector(1.0, 2.0, 3.0));
    assert_ne!(p.into_vector().co, p.co);
}

#[test]
fn point_minus_vector() {
    let p = point(1.0, 2.0, 3.0);
    let v = vector(0.5, 0.5, 4.0);
    assert_eq!(p - v, point(0.5, 1.5, -1.0));
}

#[test]
fn points_compare_lane_by_lane() {
    assert_eq!(point(1.0, 2.0, 3.0), point(1.0, 2.0, 3.0));
    assert_ne!(point(1.0, 2.0, 3.0), point(1.0, 2.0, 3.5));
    assert_ne!(point(1.0, 2.0, 3.0), Point { co: Vec4::new(1.0, 2.0, 3.0, 2.0) });
}

#[test]
fn vectors_add_and_subtract() {
    let a = vector(1.0, 2.0, 3.0);
    let b = vector(0.5, -2.0, 1.0);
    assert_eq!(a + b, vector(1.5, 0.0, 4.0));
    assert_eq!(a - b, vector(0.5, 4.0, 2.0));
}

#[test]
fn vector_through_matrix_ignores_translation() {
    let m = Matrix4x4 { m: Mat4::from_translation(glam::Vec3::new(5.0, 6.0, 7.0)) };
    assert_eq!(vector(1.0, 2.0, 3.0) * m, vector(1.0, 2.0, 3.0));
    assert_eq!(point(1.0, 2.0, 3.0) * m, point(6.0, 8.0, 10.0));
}

#[test]
fn matrix_product_applies_left_factor_first() {
    let shift = Matrix4x4 { m: Mat4::from_translation(glam::Vec3::new(1.0, 0.0, 0.0)) };
    let grow = Matrix4x4 { m: Mat4::from_scale(glam::Vec3::new(2.0, 2.0, 2.0)) };
    let p = point(1.0, 1.0, 1.0);
    assert_eq!(p * (shift * grow), point(4.0, 2.0, 2.0));
    assert_eq!(p * (grow * shift), point(3.0, 2.0, 2.0));
    assert_eq!(p * (shift * grow), (p * shift) * grow);
}

#[test]
fn cross_of_axes() {
    let x = vector(1.0, 0.0, 0.0);
    let y = vector(0.0, 1.0, 0.0);
    let z = vector(0.0, 0.0, 1.0);
    assert_eq!(cross(x, y), z);
    assert_eq!(cross(y, x), vector(0.0, 0.0, -1.0));
    assert_eq!(cross(y, z), x);
    assert_eq!(cross(vector(1.0, 2.0, 3.0), vector(4.0, 5.0, 6.0)), vector(-3.0, 6.0, -3.0));
}

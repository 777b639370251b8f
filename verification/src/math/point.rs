use vstd::prelude::*;
use vstd::std_specs::cmp::PartialEqSpecImpl;
use vstd::std_specs::ops::{AddSpecImpl, SubSpecImpl, MulSpecImpl};
use crate::math::lanes::{
    add_lanes, sub_lanes, eq_lanes, divide_by_last_lane, keep_lanes, less_lanes, mask_of,
    greater_lanes, select_lanes, apply_matrix,
    lanes_sum, lanes_difference, lanes_equal, lanes_kept, lanes_mask, lanes_over_last,
    lanes_less, lanes_greater, lanes_select, matrix_apply,
};
use crate::math::matrix::Matrix4x4;
use crate::math::vector::Vector;

verus! {

/// A position in 3d homogeneous space.
#[derive(Debug, Copy, Clone)]
pub struct Point {
    pub co: glam::Vec4,
}

impl Point {
    /// The lanes of `self` in standardized coordinates.
    pub open spec fn norm_lanes(self) -> glam::Vec4 {
        lanes_over_last(self.co)
    }

    /// Returns the point in standardized coordinates, where the
    /// fourth homogeneous component has been normalized to one.
    pub fn norm(&self) -> (r: Point)
        ensures
            r.co == self.norm_lanes(),
    {
        Point { co: divide_by_last_lane(self.co) }
    }

    /// The lane-wise minimum of the two points' standardized coordinates:
    /// each lane is taken from `self` where it is the smaller one, and from
    /// `other` everywhere else.
    pub fn min(&self, other: Point) -> (r: Point)
        ensures
            r.co == lanes_select(
                lanes_less(self.norm_lanes(), other.norm_lanes()),
                self.norm_lanes(),
                other.norm_lanes(),
            ),
    {
        let n1 = self.norm();
        let n2 = other.norm();
        Point { co: select_lanes(less_lanes(n1.co, n2.co), n1.co, n2.co) }
    }

    /// The lane-wise maximum of the two points' standardized coordinates:
    /// each lane is taken from `self` where it is the larger one, and from
    /// `other` everywhere else.
    pub fn max(&self, other: Point) -> (r: Point)
        ensures
            r.co == lanes_select(
                lanes_greater(self.norm_lanes(), other.norm_lanes()),
                self.norm_lanes(),
                other.norm_lanes(),
            ),
    {
        let n1 = self.norm();
        let n2 = other.norm();
        Point { co: select_lanes(greater_lanes(n1.co, n2.co), n1.co, n2.co) }
    }

    /// The vector from the origin to this point: the first three lanes, with
    /// the homogeneous lane cleared.
    pub fn into_vector(self) -> (r: Vector)
        ensures
            r.co == lanes_kept(lanes_mask(true, true, true, false), self.co),
    {
        Vector { co: keep_lanes(mask_of(true, true, true, false), self.co) }
    }
}

impl PartialEq for Point {
    fn eq(&self, other: &Point) -> (r: bool) {
        eq_lanes(self.co, other.co)
    }
}

impl PartialEqSpecImpl for Point {
    open spec fn obeys_eq_spec() -> bool {
        true
    }

    open spec fn eq_spec(&self, other: &Point) -> bool {
        lanes_equal(self.co, other.co)
    }
}

impl core::ops::Add<Vector> for Point {
    type Output = Point;

    fn add(self, other: Vector) -> (r: Point) {
        Point { co: add_lanes(self.co, other.co) }
    }
}

impl AddSpecImpl<Vector> for Point {
    open spec fn obeys_add_spec() -> bool {
        true
    }

    open spec fn add_req(self, other: Vector) -> bool {
        true
    }

    open spec fn add_spec(self, other: Vector) -> Point {
        Point { co: lanes_sum(self.co, other.co) }
    }
}

impl core::ops::Sub for Point {
    type Output = Vector;

    fn sub(self, other: Point) -> (r: Vector) {
        Vector { co: sub_lanes(self.norm().co, other.norm().co) }
    }
}

impl SubSpecImpl for Point {
    open spec fn obeys_sub_spec() -> bool {
        true
    }

    open spec fn sub_req(self, other: Point) -> bool {
        true
    }

    open spec fn sub_spec(self, other: Point) -> Vector {
        Vector { co: lanes_difference(self.norm_lanes(), other.norm_lanes()) }
    }
}

impl core::ops::Sub<Vector> for Point {
    type Output = Point;

    fn sub(self, other: Vector) -> (r: Point) {
        Point { co: sub_lanes(self.co, other.co) }
    }
}

impl SubSpecImpl<Vector> for Point {
    open spec fn obeys_sub_spec() -> bool {
        true
    }

    open spec fn sub_req(self, other: Vector) -> bool {
        true
    }

    open spec fn sub_spec(self, other: Vector) -> Point {
        Point { co: lanes_difference(self.co, other.co) }
    }
}

impl core::ops::Mul<Matrix4x4> for Point {
    type Output = Point;

    fn mul(self, other: Matrix4x4) -> (r: Point) {
        Point { co: apply_matrix(&other.m, self.co) }
    }
}

impl MulSpecImpl<Matrix4x4> for Point {
    open spec fn obeys_mul_spec() -> bool {
        true
    }

    open spec fn mul_req(self, other: Matrix4x4) -> bool {
        true
    }

    open spec fn mul_spec(self, other: Matrix4x4) -> Point {
        Point { co: matrix_apply(other.m, self.co) }
    }
}

} // verus!

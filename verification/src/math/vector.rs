use vstd::prelude::*;
use vstd::std_specs::cmp::PartialEqSpecImpl;
use vstd::std_specs::ops::{AddSpecImpl, SubSpecImpl, MulSpecImpl};
use crate::math::lanes::{
    add_lanes, sub_lanes, eq_lanes, cross_lanes, apply_matrix,
    lanes_sum, lanes_difference, lanes_equal, lanes_cross, matrix_apply,
};
use crate::math::matrix::Matrix4x4;
use crate::math::CrossProduct;

verus! {

/// A direction in 3d homogeneous space: the last lane of `co` is zero.
#[derive(Debug, Copy, Clone)]
pub struct Vector {
    pub co: glam::Vec4,
}

impl PartialEq for Vector {
    fn eq(&self, other: &Vector) -> (r: bool) {
        eq_lanes(self.co, other.co)
    }
}

impl PartialEqSpecImpl for Vector {
    open spec fn obeys_eq_spec() -> bool {
        true
    }

    open spec fn eq_spec(&self, other: &Vector) -> bool {
        lanes_equal(self.co, other.co)
    }
}

impl core::ops::Add for Vector {
    type Output = Vector;

    fn add(self, other: Vector) -> (r: Vector) {
        Vector { co: add_lanes(self.co, other.co) }
    }
}

impl AddSpecImpl for Vector {
    open spec fn obeys_add_spec() -> bool {
        true
    }

    open spec fn add_req(self, other: Vector) -> bool {
        true
    }

    open spec fn add_spec(self, other: Vector) -> Vector {
        Vector { co: lanes_sum(self.co, other.co) }
    }
}

impl core::ops::Sub for Vector {
    type Output = Vector;

    fn sub(self, other: Vector) -> (r: Vector) {
        Vector { co: sub_lanes(self.co, other.co) }
    }
}

impl SubSpecImpl for Vector {
    open spec fn obeys_sub_spec() -> bool {
        true
    }

    open spec fn sub_req(self, other: Vector) -> bool {
        true
    }

    open spec fn sub_spec(self, other: Vector) -> Vector {
        Vector { co: lanes_difference(self.co, other.co) }
    }
}

impl core::ops::Mul<Matrix4x4> for Vector {
    type Output = Vector;

    fn mul(self, other: Matrix4x4) -> (r: Vector) {
        Vector { co: apply_matrix(&other.m, self.co) }
    }
}

impl MulSpecImpl<Matrix4x4> for Vector {
    open spec fn obeys_mul_spec() -> bool {
        true
    }

    open spec fn mul_req(self, other: Matrix4x4) -> bool {
        true
    }

    open spec fn mul_spec(self, other: Matrix4x4) -> Vector {
        Vector { co: matrix_apply(other.m, self.co) }
    }
}

impl CrossProduct for Vector {
    fn cross(self, other: Vector) -> (r: Vector)
        ensures
            r.co == lanes_cross(self.co, other.co),
    {
        Vector { co: cross_lanes(self.co, other.co) }
    }
}

} // verus!

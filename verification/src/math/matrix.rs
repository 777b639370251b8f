use vstd::prelude::*;
use vstd::std_specs::ops::MulSpecImpl;
use crate::math::lanes::{multiply_matrices, matrix_product};

verus! {

/// A 4x4 transform.  A point `p` is taken through the transform by `p * m`,
/// and `a * b` is the transform that applies `a` first and `b` second.
#[derive(Debug, Copy, Clone)]
pub struct Matrix4x4 {
    pub m: glam::Mat4,
}

impl core::ops::Mul for Matrix4x4 {
    type Output = Matrix4x4;

    fn mul(self, other: Matrix4x4) -> (r: Matrix4x4) {
        Matrix4x4 { m: multiply_matrices(&other.m, &self.m) }
    }
}

impl MulSpecImpl for Matrix4x4 {
    open spec fn obeys_mul_spec() -> bool {
        true
    }

    open spec fn mul_req(self, other: Matrix4x4) -> bool {
        true
    }

    open spec fn mul_spec(self, other: Matrix4x4) -> Matrix4x4 {
        Matrix4x4 { m: matrix_product(other.m, self.m) }
    }
}

} // verus!

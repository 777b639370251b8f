//! The four-lane arithmetic that the geometry types are built on.
//!
//! Every item in this file is trusted: the lane types are opaque to the
//! verifier, and each function's contract is believed, not proved.  A result
//! is tied to its inputs by a named, uninterpreted function, so callers can
//! state exactly which lane operation produced a value without the verifier
//! ever looking inside a lane.

use vstd::prelude::*;

verus! {

#[verifier::external_type_specification]
#[verifier::external_body]
pub struct ExVec4(glam::Vec4);

#[verifier::external_type_specification]
#[verifier::external_body]
pub struct ExMat4(glam::Mat4);

#[verifier::external_type_specification]
#[verifier::external_body]
pub struct ExVec4Mask(glam::Vec4Mask);

/// Lane-wise sum `a + b`.
pub uninterp spec fn lanes_sum(a: glam::Vec4, b: glam::Vec4) -> glam::Vec4;

/// Lane-wise difference `a - b`.
pub uninterp spec fn lanes_difference(a: glam::Vec4, b: glam::Vec4) -> glam::Vec4;

/// Every lane of `a` divided by the last lane of `a`.
pub uninterp spec fn lanes_over_last(a: glam::Vec4) -> glam::Vec4;

/// Lane-wise reciprocal of `a`.
pub uninterp spec fn lanes_reciprocal(a: glam::Vec4) -> glam::Vec4;

/// Whether all four lanes of `a` compare equal to those of `b`.
pub uninterp spec fn lanes_equal(a: glam::Vec4, b: glam::Vec4) -> bool;

/// The mask whose lanes say where `a < b`.
pub uninterp spec fn lanes_less(a: glam::Vec4, b: glam::Vec4) -> glam::Vec4Mask;

/// The mask whose lanes say where `a > b`.
pub uninterp spec fn lanes_greater(a: glam::Vec4, b: glam::Vec4) -> glam::Vec4Mask;

/// Lane by lane, `a` where `mask` is set and `b` where it is clear.
pub uninterp spec fn lanes_select(mask: glam::Vec4Mask, a: glam::Vec4, b: glam::Vec4) -> glam::Vec4;

/// The mask with the four lanes set as given.
pub uninterp spec fn lanes_mask(x: bool, y: bool, z: bool, w: bool) -> glam::Vec4Mask;

/// Lane by lane, `a` where `mask` is set and zero where it is clear.
pub uninterp spec fn lanes_kept(mask: glam::Vec4Mask, a: glam::Vec4) -> glam::Vec4;

/// The mask whose lanes say where `a` is greater than or equal to zero.
pub uninterp spec fn lanes_nonneg(a: glam::Vec4) -> glam::Vec4Mask;

/// Whether lane `lane` of `a` has its sign bit clear.
pub uninterp spec fn lane_sign_positive(a: glam::Vec4, lane: int) -> bool;

/// Bit `i` is set where lane `i` of `mask` is set.
pub uninterp spec fn mask_bits(mask: glam::Vec4Mask) -> u32;

/// The cross product of the first three lanes of `a` and `b`, last lane zero.
pub uninterp spec fn lanes_cross(a: glam::Vec4, b: glam::Vec4) -> glam::Vec4;

/// The matrix `m` applied to the column vector `v`.
pub uninterp spec fn matrix_apply(m: glam::Mat4, v: glam::Vec4) -> glam::Vec4;

/// The matrix product `a * b`.
pub uninterp spec fn matrix_product(a: glam::Mat4, b: glam::Mat4) -> glam::Mat4;

/// `glam`'s `Add` for `Vec4`: the lane-wise sum.
#[verifier::external_body]
pub(crate) fn add_lanes(a: glam::Vec4, b: glam::Vec4) -> (r: glam::Vec4)
    ensures
        r == lanes_sum(a, b),
{
    a + b
}

/// `glam`'s `Sub` for `Vec4`: the lane-wise difference.
#[verifier::external_body]
pub(crate) fn sub_lanes(a: glam::Vec4, b: glam::Vec4) -> (r: glam::Vec4)
    ensures
        r == lanes_difference(a, b),
{
    a - b
}

/// `glam`'s division of a `Vec4` by a scalar, the scalar being the vector's
/// own last lane (`Vec4::w`).
#[verifier::external_body]
pub(crate) fn divide_by_last_lane(a: glam::Vec4) -> (r: glam::Vec4)
    ensures
        r == lanes_over_last(a),
{
    a / a.w()
}

/// `Vec4::reciprocal`: one divided by each lane.
#[verifier::external_body]
pub(crate) fn recip_lanes(a: glam::Vec4) -> (r: glam::Vec4)
    ensures
        r == lanes_reciprocal(a),
{
    a.reciprocal()
}

/// `glam`'s `PartialEq` for `Vec4`: true when all four lanes compare equal.
#[verifier::external_body]
pub(crate) fn eq_lanes(a: glam::Vec4, b: glam::Vec4) -> (r: bool)
    ensures
        r == lanes_equal(a, b),
{
    a == b
}

/// `Vec4::cmplt`: the lane-wise `<` comparison.
#[verifier::external_body]
pub(crate) fn less_lanes(a: glam::Vec4, b: glam::Vec4) -> (r: glam::Vec4Mask)
    ensures
        r == lanes_less(a, b),
{
    a.cmplt(b)
}

/// `Vec4::cmpgt`: the lane-wise `>` comparison.
#[verifier::external_body]
pub(crate) fn greater_lanes(a: glam::Vec4, b: glam::Vec4) -> (r: glam::Vec4Mask)
    ensures
        r == lanes_greater(a, b),
{
    a.cmpgt(b)
}

/// `Vec4Mask::select`: picks each lane from `a` or `b` as the mask says.
#[verifier::external_body]
pub(crate) fn select_lanes(mask: glam::Vec4Mask, a: glam::Vec4, b: glam::Vec4) -> (r: glam::Vec4)
    ensures
        r == lanes_select(mask, a, b),
{
    mask.select(a, b)
}

/// `Vec4Mask::new`: the mask with the four lanes set as given.
#[verifier::external_body]
pub(crate) fn mask_of(x: bool, y: bool, z: bool, w: bool) -> (r: glam::Vec4Mask)
    ensures
        r == lanes_mask(x, y, z, w),
{
    glam::Vec4Mask::new(x, y, z, w)
}

/// `Vec4Mask::select` against `Vec4::zero`: keeps the lanes of `a` where the
/// mask is set and has zero in the others.
#[verifier::external_body]
pub(crate) fn keep_lanes(mask: glam::Vec4Mask, a: glam::Vec4) -> (r: glam::Vec4)
    ensures
        r == lanes_kept(mask, a),
{
    mask.select(a, glam::Vec4::zero())
}

/// `Vec4::cmpge` against `Vec4::zero`: the lane-wise `>=` comparison with
/// zero.
#[verifier::external_body]
pub(crate) fn nonneg_lanes(a: glam::Vec4) -> (r: glam::Vec4Mask)
    ensures
        r == lanes_nonneg(a),
{
    a.cmpge(glam::Vec4::zero())
}

/// std's `is_sign_positive` on one lane of a `Vec4`, the lane taken out
/// with `glam`'s `Index`: whether the lane's sign bit is clear, which it is
/// for `+0.0` and not for `-0.0`.  `Index` panics for a lane beyond the
/// fourth, so the lane must be one of the four.
#[verifier::external_body]
pub(crate) fn sign_positive(a: glam::Vec4, lane: usize) -> (r: bool)
    requires
        lane < 4,
    ensures
        r == lane_sign_positive(a, lane as int),
{
    a[lane].is_sign_positive()
}

/// `Vec4Mask::bitmask`: lane `i` of the mask goes to bit `i`; only the lowest
/// four bits can be set.
#[verifier::external_body]
pub(crate) fn mask_to_bits(mask: glam::Vec4Mask) -> (r: u32)
    ensures
        r == mask_bits(mask),
        r < 16,
{
    mask.bitmask()
}

/// `Vec3::cross` on the first three lanes (`Vec4::truncate`), widened back
/// with `Vec3::extend` and a zero last lane.
#[verifier::external_body]
pub(crate) fn cross_lanes(a: glam::Vec4, b: glam::Vec4) -> (r: glam::Vec4)
    ensures
        r == lanes_cross(a, b),
{
    a.truncate().cross(b.truncate()).extend(glam::Vec4::zero().w())
}

/// `Mat4::mul_vec4`: the matrix applied to a column vector.
#[verifier::external_body]
pub(crate) fn apply_matrix(m: &glam::Mat4, v: glam::Vec4) -> (r: glam::Vec4)
    ensures
        r == matrix_apply(*m, v),
{
    m.mul_vec4(v)
}

/// `Mat4::mul_mat4`: the matrix product.
#[verifier::external_body]
pub(crate) fn multiply_matrices(a: &glam::Mat4, b: &glam::Mat4) -> (r: glam::Mat4)
    ensures
        r == matrix_product(*a, *b),
{
    a.mul_mat4(b)
}

} // verus!

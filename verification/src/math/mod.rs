pub mod lanes;
pub mod matrix;
pub mod point;
pub mod vector;

pub use self::matrix::Matrix4x4;
pub use self::point::Point;
pub use self::vector::Vector;

use vstd::prelude::*;

verus! {

/// Trait for calculating cross products.
pub trait CrossProduct: Sized {
    fn cross(self, other: Self) -> Self;
}

/// The cross product of `a` and `b`, as their type computes it.
pub fn cross<T: CrossProduct>(a: T, b: T) -> (r: T)
    ensures
        call_ensures(T::cross, (a, b), r),
{
    a.cross(b)
}

} // verus!

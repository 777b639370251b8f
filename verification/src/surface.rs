use vstd::prelude::*;
use crate::math::{Matrix4x4, Point, Vector};
use crate::ray::{AccelRay, Ray};

verus! {

/// What became of a ray.  In a hit, `t` and `uv` hold the bit patterns of
/// single-precision numbers.
#[derive(Debug, Copy, Clone)]
pub enum SurfaceIntersection {
    Miss,
    Occlude,
    Hit { t: u32, pos: Point, nor: Vector, local_space: Matrix4x4, uv: (u32, u32) },
}

/// Something that rays can be intersected with.
pub trait Surface {
    /// What `intersect_rays` may make of rays and results: whether, called
    /// with the rays `rays0` and the results `isects0`, it can leave the
    /// rays `rays1` and the results `isects1`.  Every surface says this of
    /// itself; a surface that says nothing allows anything.
    open spec fn intersected(
        &self,
        rays0: Seq<AccelRay>,
        wrays: Seq<Ray>,
        isects0: Seq<SurfaceIntersection>,
        space: Seq<Matrix4x4>,
        rays1: Seq<AccelRay>,
        isects1: Seq<SurfaceIntersection>,
    ) -> bool {
        true
    }

    /// Intersects the rays `accel_rays`, which are in the surface's own
    /// space, with the surface.  `wrays` are the world rays and
    /// `isects` the results so far, both found by a ray's `id`; `space`
    /// is the motion slice of transforms that lead into the surface's space.
    ///
    /// A slice keeps its length whatever is done to its elements; beyond
    /// that the contract only gives what was done its name, `intersected`.
    fn intersect_rays(
        &self,
        accel_rays: &mut [AccelRay],
        wrays: &[Ray],
        isects: &mut [SurfaceIntersection],
        space: &[Matrix4x4],
    )
        requires
            old(accel_rays)@.len() > 0,
            wrays@.len() == old(isects)@.len(),
        ensures
            final(accel_rays)@.len() == old(accel_rays)@.len(),
            final(isects)@.len() == old(isects)@.len(),
            self.intersected(
                old(accel_rays)@,
                wrays@,
                old(isects)@,
                space@,
                final(accel_rays)@,
                final(isects)@,
            ),
    ;
}

} // verus!

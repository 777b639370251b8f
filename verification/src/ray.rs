pub use crate::ray_batch::RayBatch;
pub use crate::ray_stack::RayStack;

use vstd::prelude::*;
use crate::math::lanes::{
    lane_sign_positive, lanes_nonneg, lanes_reciprocal, mask_bits, mask_to_bits, matrix_apply,
    nonneg_lanes, recip_lanes, sign_positive,
};
use crate::math::{Matrix4x4, Point, Vector};

verus! {

/// Flag bit of a ray that only asks whether anything is hit.
pub const OCCLUSION_FLAG: u8 = 1;

/// Flag bit of a ray that has finished traversal.
pub const DONE_FLAG: u8 = 2;

/// Setting the done bit sets it, keeps every other bit, and setting it twice
/// changes nothing more.
pub proof fn lemma_done_bit(flags: u8)
    ensures
        (flags | DONE_FLAG) & DONE_FLAG != 0,
        (flags | DONE_FLAG) & OCCLUSION_FLAG == flags & OCCLUSION_FLAG,
        (flags | DONE_FLAG) | DONE_FLAG == flags | DONE_FLAG,
{
    assert((flags | 2) & 2 != 0) by (bit_vector);
    assert((flags | 2) & 1 == flags & 1) by (bit_vector);
    assert((flags | 2) | 2 == flags | 2) by (bit_vector);
}

/// Setting the occlusion bit sets it, keeps every other bit, and setting it
/// twice changes nothing more.
pub proof fn lemma_occlusion_bit(flags: u8)
    ensures
        (flags | OCCLUSION_FLAG) & OCCLUSION_FLAG != 0,
        (flags | OCCLUSION_FLAG) & DONE_FLAG == flags & DONE_FLAG,
        (flags | OCCLUSION_FLAG) | OCCLUSION_FLAG == flags | OCCLUSION_FLAG,
{
    assert((flags | 1) & 1 != 0) by (bit_vector);
    assert((flags | 1) & 2 == flags & 2) by (bit_vector);
    assert((flags | 1) | 1 == flags | 1) by (bit_vector);
}

/// The flags of a fresh ray: the occlusion bit alone if asked for, and
/// never the done bit.
pub proof fn lemma_fresh_flags()
    ensures
        0u8 & DONE_FLAG == 0,
        0u8 & OCCLUSION_FLAG == 0,
        OCCLUSION_FLAG & DONE_FLAG == 0,
        OCCLUSION_FLAG & OCCLUSION_FLAG != 0,
{
    assert(0u8 & 2 == 0) by (bit_vector);
    assert(0u8 & 1 == 0) by (bit_vector);
    assert(1u8 & 2 == 0) by (bit_vector);
    assert(1u8 & 1 != 0) by (bit_vector);
}

/// A ray in world space, as a sampler hands it over.
///
/// `time`, `wavelength` and `max_t` hold the bit patterns of
/// single-precision numbers; nothing here computes with them.
#[derive(Debug, Copy, Clone)]
pub struct Ray {
    pub orig: Point,
    pub dir: Vector,
    pub time: u32,
    pub wavelength: u32,
    pub max_t: u32,
}

/// A ray as traversal sees it: origin and reciprocal direction in the space
/// currently being traversed, flag bits, and the position of the world ray
/// it was made from.
///
/// `max_t` and `time` hold the bit patterns of single-precision numbers.
#[derive(Debug, Copy, Clone)]
pub struct AccelRay {
    pub orig: Point,
    pub dir_inv: Vector,
    pub max_t: u32,
    pub time: u32,
    pub flags: u8,
    pub id: u32,
}

impl AccelRay {
    /// Whether the done bit is set.
    pub open spec fn done(self) -> bool {
        self.flags & DONE_FLAG != 0
    }

    /// Whether the occlusion bit is set.
    pub open spec fn occlusion(self) -> bool {
        self.flags & OCCLUSION_FLAG != 0
    }

    /// The ray's origin and reciprocal direction as given by the world ray
    /// `wr` seen through `space`, everything else as in `self`.
    pub open spec fn relocated(self, wr: Ray, space: Option<Matrix4x4>) -> AccelRay {
        match space {
            Some(mat) => AccelRay {
                orig: Point { co: matrix_apply(mat.m, wr.orig.co) },
                dir_inv: Vector { co: lanes_reciprocal(matrix_apply(mat.m, wr.dir.co)) },
                ..self
            },
            None => AccelRay {
                orig: wr.orig,
                dir_inv: Vector { co: lanes_reciprocal(wr.dir.co) },
                ..self
            },
        }
    }

    /// The traversal ray of world ray `wr`, with no flag set.
    pub fn new(wr: &Ray, id: u32) -> (r: AccelRay)
        ensures
            r == (AccelRay {
                orig: wr.orig,
                dir_inv: Vector { co: lanes_reciprocal(wr.dir.co) },
                max_t: wr.max_t,
                time: wr.time,
                flags: 0,
                id,
            }),
            !r.done(),
            !r.occlusion(),
    {
        proof {
            lemma_fresh_flags();
        }
        AccelRay {
            orig: wr.orig,
            dir_inv: Vector { co: recip_lanes(wr.dir.co) },
            max_t: wr.max_t,
            time: wr.time,
            flags: 0,
            id,
        }
    }

    /// Puts the ray back into world space.
    pub fn update_from_world_ray(&mut self, wr: &Ray)
        ensures
            *final(self) == old(self).relocated(*wr, None),
    {
        self.orig = wr.orig;
        self.dir_inv = Vector { co: recip_lanes(wr.dir.co) };
    }

    /// Puts the ray into the space that `mat` leads to.
    pub fn update_from_xformed_world_ray(&mut self, wr: &Ray, mat: &Matrix4x4)
        ensures
            *final(self) == old(self).relocated(*wr, Some(*mat)),
    {
        self.orig = wr.orig * *mat;
        self.dir_inv = Vector { co: recip_lanes((wr.dir * *mat).co) };
    }

    /// Returns whether this is an occlusion ray.
    pub fn is_occlusion(&self) -> (r: bool)
        ensures
            r == self.occlusion(),
    {
        (self.flags & OCCLUSION_FLAG) != 0
    }

    /// Returns whether the ray has finished traversal.
    pub fn is_done(&self) -> (r: bool)
        ensures
            r == self.done(),
    {
        (self.flags & DONE_FLAG) != 0
    }

    /// Marks the ray as having finished traversal.  Nothing else changes, and
    /// a ray that is done stays done.
    pub fn mark_done(&mut self)
        ensures
            *final(self) == (AccelRay { flags: old(self).flags | DONE_FLAG, ..*old(self) }),
            final(self).done(),
            final(self).occlusion() == old(self).occlusion(),
    {
        proof {
            lemma_done_bit(self.flags);
        }
        self.flags = self.flags | DONE_FLAG;
    }

    /// Whether the reciprocal direction has its sign bit clear along `axis`:
    /// zero counts by its sign, so `-0.0` does not have it clear.
    pub fn dir_sign_positive(&self, axis: usize) -> (r: bool)
        requires
            axis < 3,
        ensures
            r == lane_sign_positive(self.dir_inv.co, axis as int),
    {
        sign_positive(self.dir_inv.co, axis)
    }

    /// Bit `k` (for `k` in 0, 1, 2) says that the reciprocal direction is
    /// greater than or equal to zero along axis `k`: zero counts as such
    /// whatever its sign.
    pub fn dir_signs(&self) -> (bits: u32)
        ensures
            bits == mask_bits(lanes_nonneg(self.dir_inv.co)),
            bits < 16,
    {
        mask_to_bits(nonneg_lanes(self.dir_inv.co))
    }
}

/// The function that takes a ray to its `id`.
pub open spec fn id_of() -> spec_fn(AccelRay) -> u32 {
    |r: AccelRay| r.id
}

/// The `id`s of rays, in the order of the rays.
pub open spec fn ids(rays: Seq<AccelRay>) -> Seq<u32> {
    rays.map_values(id_of())
}

} // verus!

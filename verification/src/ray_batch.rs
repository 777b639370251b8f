use vstd::prelude::*;
use crate::algorithm::swapped;
use crate::math::lanes::{lanes_reciprocal, matrix_apply, recip_lanes};
use crate::math::{Matrix4x4, Point, Vector};
use crate::ray::{lemma_done_bit, lemma_occlusion_bit, Ray, DONE_FLAG, OCCLUSION_FLAG};

verus! {

/// The hot (frequently accessed) parts of ray data.
#[derive(Debug, Copy, Clone)]
struct RayHot {
    orig_local: Point,
    dir_inv_local: Vector,
    max_t: u32,
    time: u32,
    flags: u8,
}

/// The cold (infrequently accessed) parts of ray data.
#[derive(Debug, Copy, Clone)]
struct RayCold {
    orig: Point,
    dir: Vector,
    wavelength: u32,
}

/// Everything a batch holds of one ray: origin and direction in world
/// space, origin and reciprocal direction in the space being traversed, and
/// the flag bits.  `wavelength`, `max_t` and `time` are the bit patterns of
/// single-precision numbers.
pub struct BatchRay {
    pub orig: Point,
    pub dir: Vector,
    pub wavelength: u32,
    pub orig_local: Point,
    pub dir_inv_local: Vector,
    pub max_t: u32,
    pub time: u32,
    pub flags: u8,
}

impl BatchRay {
    /// Whether the done bit is set.
    pub open spec fn done(self) -> bool {
        self.flags & DONE_FLAG != 0
    }

    /// Whether the occlusion bit is set.
    pub open spec fn occlusion(self) -> bool {
        self.flags & OCCLUSION_FLAG != 0
    }

    /// What a slot holds once it has been set from the world ray `ray`.
    pub open spec fn from_ray(ray: Ray, is_occlusion: bool) -> BatchRay {
        BatchRay {
            orig: ray.orig,
            dir: ray.dir,
            wavelength: ray.wavelength,
            orig_local: ray.orig,
            dir_inv_local: Vector { co: lanes_reciprocal(ray.dir.co) },
            max_t: ray.max_t,
            time: ray.time,
            flags: if is_occlusion {
                OCCLUSION_FLAG
            } else {
                0
            },
        }
    }

    /// What a slot holds right after the world ray `ray` has been pushed:
    /// the local origin and reciprocal direction are placeholders, namely the
    /// world origin and the world direction.
    pub open spec fn pushed(ray: Ray, is_occlusion: bool) -> BatchRay {
        BatchRay { dir_inv_local: ray.dir, ..BatchRay::from_ray(ray, is_occlusion) }
    }

    /// The ray seen through `xform`: local origin and reciprocal direction
    /// recomputed from the world ones, everything else as it was.
    pub open spec fn seen_through(self, xform: Matrix4x4) -> BatchRay {
        BatchRay {
            orig_local: Point { co: matrix_apply(xform.m, self.orig.co) },
            dir_inv_local: Vector { co: lanes_reciprocal(matrix_apply(xform.m, self.dir.co)) },
            ..self
        }
    }
}

/// A batch of rays, separated into hot and cold parts.
#[derive(Debug)]
pub struct RayBatch {
    hot: Vec<RayHot>,
    cold: Vec<RayCold>,
}

impl View for RayBatch {
    type V = Seq<BatchRay>;

    /// The rays of the batch, each put together from its hot and its cold
    /// part.
    closed spec fn view(&self) -> Seq<BatchRay> {
        Seq::new(
            self.hot@.len(),
            |i: int|
                BatchRay {
                    orig: self.cold@[i].orig,
                    dir: self.cold@[i].dir,
                    wavelength: self.cold@[i].wavelength,
                    orig_local: self.hot@[i].orig_local,
                    dir_inv_local: self.hot@[i].dir_inv_local,
                    max_t: self.hot@[i].max_t,
                    time: self.hot@[i].time,
                    flags: self.hot@[i].flags,
                },
        )
    }
}

impl RayBatch {
    /// The invariant: the hot and the cold array hold the same number of
    /// rays.
    pub closed spec fn wf(self) -> bool {
        self.hot@.len() == self.cold@.len()
    }

    /// The number of hot records.
    pub closed spec fn hot_len(self) -> nat {
        self.hot@.len()
    }

    /// The number of cold records.
    pub closed spec fn cold_len(self) -> nat {
        self.cold@.len()
    }

    /// In a batch that satisfies its invariant there are as many hot records
    /// as cold records, and as many as rays.
    pub proof fn lemma_synced(self)
        requires
            self.wf(),
        ensures
            self.hot_len() == self.cold_len(),
            self.hot_len() == self@.len(),
    {
    }

    /// Creates a new empty ray batch.
    pub fn new() -> (batch: RayBatch)
        ensures
            batch.wf(),
            batch@ == Seq::<BatchRay>::empty(),
    {
        let batch = RayBatch { hot: Vec::new(), cold: Vec::new() };
        assert(batch@ =~= Seq::<BatchRay>::empty());
        batch
    }

    /// Creates a new empty ray batch, with pre-allocated capacity for
    /// `n` rays.
    pub fn with_capacity(n: usize) -> (batch: RayBatch)
        ensures
            batch.wf(),
            batch@ == Seq::<BatchRay>::empty(),
    {
        let batch = RayBatch { hot: Vec::with_capacity(n), cold: Vec::with_capacity(n) };
        assert(batch@ =~= Seq::<BatchRay>::empty());
        batch
    }

    /// Appends a ray.  Its local origin and reciprocal direction are
    /// placeholders until `update_local` or `set_from_ray` is called for it.
    pub fn push(&mut self, ray: Ray, is_occlusion: bool)
        requires
            old(self).wf(),
        ensures
            final(self).wf(),
            final(self)@ == old(self)@.push(BatchRay::pushed(ray, is_occlusion)),
    {
        self.hot.push(
            RayHot {
                orig_local: ray.orig,
                dir_inv_local: ray.dir,
                max_t: ray.max_t,
                time: ray.time,
                flags: if is_occlusion {
                    OCCLUSION_FLAG
                } else {
                    0
                },
            },
        );
        self.cold.push(RayCold { orig: ray.orig, dir: ray.dir, wavelength: ray.wavelength });
        assert(self@ =~= old(self)@.push(BatchRay::pushed(ray, is_occlusion)));
    }

    /// Exchanges the rays at `a` and `b`, hot and cold parts alike.
    pub fn swap(&mut self, a: usize, b: usize)
        requires
            old(self).wf(),
            a < old(self)@.len(),
            b < old(self)@.len(),
        ensures
            final(self).wf(),
            final(self)@ == swapped(old(self)@, a as int, b as int),
    {
        self.hot.as_mut_slice().swap(a, b);
        self.cold.as_mut_slice().swap(a, b);
        assert(self@ =~= swapped(old(self)@, a as int, b as int));
    }

    /// Sets the slot `idx` from the world ray `ray`, all of it: the local
    /// origin is the world origin, and the local reciprocal direction is the
    /// reciprocal of the world direction.
    pub fn set_from_ray(&mut self, ray: &Ray, is_occlusion: bool, idx: usize)
        requires
            old(self).wf(),
            idx < old(self)@.len(),
        ensures
            final(self).wf(),
            final(self)@ == old(self)@.update(idx as int, BatchRay::from_ray(*ray, is_occlusion)),
    {
        self.hot[idx] = RayHot {
            orig_local: ray.orig,
            dir_inv_local: Vector { co: recip_lanes(ray.dir.co) },
            max_t: ray.max_t,
            time: ray.time,
            flags: if is_occlusion {
                OCCLUSION_FLAG
            } else {
                0
            },
        };
        self.cold[idx] = RayCold { orig: ray.orig, dir: ray.dir, wavelength: ray.wavelength };
        assert(self@ =~= old(self)@.update(idx as int, BatchRay::from_ray(*ray, is_occlusion)));
    }

    /// Keeps the first `len` rays and drops the rest; a batch of no more
    /// than `len` rays stays as it is.
    pub fn truncate(&mut self, len: usize)
        requires
            old(self).wf(),
        ensures
            final(self).wf(),
            final(self)@ == if len <= old(self)@.len() {
                old(self)@.take(len as int)
            } else {
                old(self)@
            },
    {
        self.hot.truncate(len);
        self.cold.truncate(len);
        assert(self@ =~= if len <= old(self)@.len() {
            old(self)@.take(len as int)
        } else {
            old(self)@
        });
    }

    /// Clear all rays, settings the size of the batch back to zero.
    pub fn clear(&mut self)
        requires
            old(self).wf(),
        ensures
            final(self).wf(),
            final(self)@ == Seq::<BatchRay>::empty(),
    {
        self.hot.clear();
        self.cold.clear();
        assert(self@ =~= Seq::<BatchRay>::empty());
    }

    /// The number of rays in the batch.
    pub fn len(&self) -> (n: usize)
        requires
            self.wf(),
        ensures
            n == self@.len(),
    {
        self.hot.len()
    }

    /// Updates the accel data of the given ray (at index `idx`) with the
    /// given world-to-local-space transform matrix.
    ///
    /// This should be called when entering (and exiting) traversal of a
    /// new transform space.
    pub fn update_local(&mut self, idx: usize, xform: &Matrix4x4)
        requires
            old(self).wf(),
            idx < old(self)@.len(),
        ensures
            final(self).wf(),
            final(self)@ == old(self)@.update(idx as int, old(self)@[idx as int].seen_through(*xform)),
    {
        let cold = self.cold[idx];
        let mut hot = self.hot[idx];
        hot.orig_local = cold.orig * *xform;
        hot.dir_inv_local = Vector { co: recip_lanes((cold.dir * *xform).co) };
        self.hot[idx] = hot;
        assert(self@ =~= old(self)@.update(
            idx as int,
            old(self)@[idx as int].seen_through(*xform),
        ));
    }

    /// The world-space origin of the ray at `idx`.
    pub fn orig(&self, idx: usize) -> (r: Point)
        requires
            self.wf(),
            idx < self@.len(),
        ensures
            r == self@[idx as int].orig,
    {
        self.cold[idx].orig
    }

    /// The world-space direction of the ray at `idx`.
    pub fn dir(&self, idx: usize) -> (r: Vector)
        requires
            self.wf(),
            idx < self@.len(),
        ensures
            r == self@[idx as int].dir,
    {
        self.cold[idx].dir
    }

    /// The local-space origin of the ray at `idx`.
    pub fn orig_local(&self, idx: usize) -> (r: Point)
        requires
            self.wf(),
            idx < self@.len(),
        ensures
            r == self@[idx as int].orig_local,
    {
        self.hot[idx].orig_local
    }

    /// The local-space reciprocal direction of the ray at `idx`.
    pub fn dir_inv_local(&self, idx: usize) -> (r: Vector)
        requires
            self.wf(),
            idx < self@.len(),
        ensures
            r == self@[idx as int].dir_inv_local,
    {
        self.hot[idx].dir_inv_local
    }

    /// The bits of the shutter time of the ray at `idx`.
    pub fn time(&self, idx: usize) -> (r: u32)
        requires
            self.wf(),
            idx < self@.len(),
        ensures
            r == self@[idx as int].time,
    {
        self.hot[idx].time
    }

    /// The bits of the furthest distance at which the ray at `idx` still hits.
    pub fn max_t(&self, idx: usize) -> (r: u32)
        requires
            self.wf(),
            idx < self@.len(),
        ensures
            r == self@[idx as int].max_t,
    {
        self.hot[idx].max_t
    }

    /// Sets the bits of the furthest distance at which the ray at `idx` still
    /// hits.
    pub fn set_max_t(&mut self, idx: usize, new_max_t: u32)
        requires
            old(self).wf(),
            idx < old(self)@.len(),
        ensures
            final(self).wf(),
            final(self)@ == old(self)@.update(
                idx as int,
                BatchRay { max_t: new_max_t, ..old(self)@[idx as int] },
            ),
    {
        let mut hot = self.hot[idx];
        hot.max_t = new_max_t;
        self.hot[idx] = hot;
        assert(self@ =~= old(self)@.update(
            idx as int,
            BatchRay { max_t: new_max_t, ..old(self)@[idx as int] },
        ));
    }

    /// The bits of the wavelength of the ray at `idx`.
    pub fn wavelength(&self, idx: usize) -> (r: u32)
        requires
            self.wf(),
            idx < self@.len(),
        ensures
            r == self@[idx as int].wavelength,
    {
        self.cold[idx].wavelength
    }

    /// Returns whether the given ray (at index `idx`) is an occlusion ray.
    pub fn is_occlusion(&self, idx: usize) -> (r: bool)
        requires
            self.wf(),
            idx < self@.len(),
        ensures
            r == self@[idx as int].occlusion(),
    {
        (self.hot[idx].flags & OCCLUSION_FLAG) != 0
    }

    /// Returns whether the given ray (at index `idx`) has finished traversal.
    pub fn is_done(&self, idx: usize) -> (r: bool)
        requires
            self.wf(),
            idx < self@.len(),
        ensures
            r == self@[idx as int].done(),
    {
        (self.hot[idx].flags & DONE_FLAG) != 0
    }

    /// Marks the given ray (at index `idx`) as an occlusion ray.  The done
    /// bit stays as it was.
    pub fn mark_occlusion(&mut self, idx: usize)
        requires
            old(self).wf(),
            idx < old(self)@.len(),
        ensures
            final(self).wf(),
            final(self)@ == old(self)@.update(
                idx as int,
                BatchRay {
                    flags: old(self)@[idx as int].flags | OCCLUSION_FLAG,
                    ..old(self)@[idx as int]
                },
            ),
            final(self)@[idx as int].occlusion(),
            final(self)@[idx as int].done() == old(self)@[idx as int].done(),
    {
        let mut hot = self.hot[idx];
        proof {
            lemma_occlusion_bit(hot.flags);
        }
        hot.flags = hot.flags | OCCLUSION_FLAG;
        self.hot[idx] = hot;
        assert(self@ =~= old(self)@.update(
            idx as int,
            BatchRay {
                flags: old(self)@[idx as int].flags | OCCLUSION_FLAG,
                ..old(self)@[idx as int]
            },
        ));
    }

    /// Marks the given ray (at index `idx`) as having finished traversal.
    /// The occlusion bit stays as it was.
    pub fn mark_done(&mut self, idx: usize)
        requires
            old(self).wf(),
            idx < old(self)@.len(),
        ensures
            final(self).wf(),
            final(self)@ == old(self)@.update(
                idx as int,
                BatchRay { flags: old(self)@[idx as int].flags | DONE_FLAG, ..old(self)@[idx as int] },
            ),
            final(self)@[idx as int].done(),
            final(self)@[idx as int].occlusion() == old(self)@[idx as int].occlusion(),
    {
        let mut hot = self.hot[idx];
        proof {
            lemma_done_bit(hot.flags);
        }
        hot.flags = hot.flags | DONE_FLAG;
        self.hot[idx] = hot;
        assert(self@ =~= old(self)@.update(
            idx as int,
            BatchRay { flags: old(self)@[idx as int].flags | DONE_FLAG, ..old(self)@[idx as int] },
        ));
    }
}

} // verus!

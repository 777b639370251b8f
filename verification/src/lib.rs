//! The ray-batch traversal core of a path tracer.
//!
//! * [`accel`] builds a bounding volume hierarchy over motion slices of
//!   bounds and traverses it with whole batches of rays.
//! * [`tracer`] walks a graph of [`assembly`] instances with such batches,
//!   keeping a stack of transforms, and hands the rays to each [`surface`]
//!   they reach.
//! * [`ray`] holds the rays: world rays, traversal rays, the hot/cold ray
//!   batch, and the stack of lanes and tasks that sorts ray indices.
//! * [`math`] holds points, vectors and matrices.
//!
//! The library never computes with coordinates itself.  Points, vectors and
//! matrices are lanes that only [`math::lanes`] looks into, single numbers
//! are carried as bit patterns, and whatever needs arithmetic on them (does
//! this ray meet these bounds, what is the union of two boxes, what is a
//! transform at a given time) is asked of functions that the caller hands
//! in.  What is proved is everything around those answers: that every
//! object ends up in exactly one leaf, that no tree is too deep, that a
//! traversal ends and misses nothing, that the transform stack is left as it
//! was found, that lanes and tasks stay consistent.

pub mod accel;
pub mod algorithm;
pub mod assembly;
pub mod boundable;
pub mod math;
pub mod ray;
pub mod ray_batch;
pub mod ray_stack;
pub mod surface;
pub mod tracer;

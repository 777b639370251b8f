use vstd::prelude::*;

verus! {

/// Something that has a motion slice of bounds of type `B`: one sample for
/// each of a number of equally spaced moments of the shutter time.
pub trait Boundable<B> {
    fn bounds(&self) -> &[B];
}

} // verus!

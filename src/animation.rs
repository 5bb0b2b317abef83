use vstd::prelude::*;

verus! {

/// Number of frames of the water sprite's animation cycle.
pub const WATER_FRAMES: usize = 4;

/// The first and last frame of a sprite's animation cycle.
#[derive(Clone, Copy, Debug, PartialEq, Eq, Structural)]
pub struct AnimationIndices {
    pub first: usize,
    pub last: usize,
}

/// The frame shown after `index`: the next one, or back to the first after
/// the last.
pub fn next_frame(indices: &AnimationIndices, index: usize) -> (r: usize)
    requires
        index != indices.last ==> index < usize::MAX,
    ensures
        r == (if index == indices.last {
            indices.first
        } else {
            (index + 1) as usize
        }),
{
    if index == indices.last {
        indices.first
    } else {
        index + 1
    }
}

} // verus!

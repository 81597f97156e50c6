//! Settings of the second estimator, which keeps its thresholds fixed.
use vstd::prelude::*;

verus! {

/// A keyframe is forced once more than this many frames went by without one.
pub const MAX_FRAMES_BETWEEN_KEYFRAMES: u64 = 10;

/// Reserved hook for adding a single point to the map; it does nothing.
pub fn try_add_point() {
}

} // verus!

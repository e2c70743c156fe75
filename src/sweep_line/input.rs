//! The segments of one computation, addressed by their index.
use vstd::prelude::*;
use crate::geometry::LineSegment;

verus! {

/// Index of a segment in an [`Input`].
pub type LineSegmentId = usize;

/// Largest number of segments of one computation: pairs of ids are packed
/// into 64 bits.
pub const MAX_SEGMENTS: usize = 0xFFFF_FFFF;

/// The segments of one computation; the id of a segment is its index.
pub struct Input {
    pub segments: Vec<LineSegment>,
}

impl Input {
    pub open spec fn wf(&self) -> bool {
        &&& self.segments@.len() <= MAX_SEGMENTS
        &&& forall|i: int| 0 <= i < self.segments@.len() ==> (#[trigger] self.segments@[i]).wf()
    }
}

} // verus!

//! The sweep-line strategy: an event queue ordered by the sweep, the
//! left-to-right status of the segments that the sweep line crosses, a cache
//! of pairwise intersection tests, and the executor that drives them.
use vstd::prelude::*;
use crate::geometry::{Point, LineSegment};
use crate::brute_force::segments_wf;
use crate::strategy::LineSegmentIntersectionResult;
use self::distinct_point::strictly_ordered;
use crate::geometry::spec_intersection;
use self::executor::{Executor, meeting_point, shared_endpoint, reported, crossing_inside};
use self::input::{Input, MAX_SEGMENTS};

pub mod distinct_point;
pub mod event_queue;
pub mod executor;
pub mod input;
pub mod intersection_map;
pub mod status;

verus! {

/// What the sweep promises of its result: distinct points in increasing
/// order of x, then y, each lying on two distinct segments; among them every
/// point that is an endpoint of two distinct segments, and, for two segments
/// that cross inside both, their crossing.
pub open spec fn sweep_result_ok(segs: Seq<LineSegment>, out: Seq<Point>) -> bool {
    &&& strictly_ordered(out)
    &&& forall|i: int| 0 <= i < out.len() ==> (#[trigger] out[i]).wf() && meeting_point(segs, out[i])
    &&& forall|p: Point| p.wf() && #[trigger] shared_endpoint(segs, p) ==> reported(out, p)
    &&& crossing_inside(segs) ==> reported(out, spec_intersection(segs[0], segs[1])->0)
}

/// Every distinct point where two or more segments meet, found by sweeping
/// the plane from top to bottom.
pub fn calc_intersections(vals: &[LineSegment]) -> (r: LineSegmentIntersectionResult)
    requires
        segments_wf(vals@),
        vals@.len() <= MAX_SEGMENTS,
    ensures
        sweep_result_ok(vals@, r.intersections@),
{
    let mut segments: Vec<LineSegment> = Vec::new();
    let mut i: usize = 0;
    while i < vals.len()
        invariant
            i <= vals@.len(),
            segments@ == vals@.take(i as int),
        decreases vals@.len() - i,
    {
        segments.push(vals[i]);
        i += 1;
        proof {
            assert(segments@ == vals@.take(i as int));
        }
    }
    proof {
        assert(vals@.take(vals@.len() as int) == vals@);
    }
    let input = Input { segments };
    let executor = Executor::new(&input);
    executor.calc_result()
}

} // verus!

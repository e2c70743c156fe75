//! Choice of strategy behind one call shape.
use vstd::prelude::*;
use crate::geometry::{Point, LineSegment, lies_on, same_point, crosses, isect_den,
    spec_intersection, lemma_common_point_is_intersection, lemma_intersection_lies_on_both,
    lemma_sweep_trans, lemma_sweep_total, lemma_lies_on_same_point};
use crate::brute_force::{calc_intersections_brute_force, brute_force_result, segments_wf,
    all_hits, row_hits, hit_seq, lemma_all_hits_contains, lemma_all_hits_sound};
use crate::sweep_line::executor::{meeting_point, is_endpoint, shared_endpoint, reported,
    lemma_endpoints_lie_on, crossing_inside};
use crate::sweep_line::{calc_intersections, sweep_result_ok};
use crate::sweep_line::input::MAX_SEGMENTS;

verus! {

/// The points where the segments of one computation meet.
pub struct LineSegmentIntersectionResult {
    pub intersections: Vec<Point>,
}

/// How the meeting points are found.
#[derive(Clone, Copy, Debug, PartialEq, Eq, Structural)]
pub enum LineSegmentIntersectionStrategy {
    /// Every pair tested once; one point per meeting pair, in pair order.
    BruteForce,
    /// One sweep from top to bottom; each distinct point once, by x then y.
    SweepLine,
}

/// Computes meeting points with a chosen strategy.
pub struct LineSegmentIntersectionBuilder {
    strategy: LineSegmentIntersectionStrategy,
}

/// What `strategy` promises of its result `out` on `segs`.
pub open spec fn result_ok(strategy: LineSegmentIntersectionStrategy, segs: Seq<LineSegment>, out: Seq<Point>) -> bool {
    match strategy {
        LineSegmentIntersectionStrategy::BruteForce => out == brute_force_result(segs),
        LineSegmentIntersectionStrategy::SweepLine => sweep_result_ok(segs, out),
    }
}

/// No two segments that have a point in common lie on parallel lines. This
/// holds where no segments share an endpoint or overlap along a line.
pub open spec fn no_parallel_contact(segs: Seq<LineSegment>) -> bool {
    forall|i: int, j: int, p: Point|
        0 <= i < segs.len() && 0 <= j < segs.len() && i != j && p.wf()
            && #[trigger] lies_on(p, segs[i]) && #[trigger] lies_on(p, segs[j])
            ==> isect_den(segs[i], segs[j]) != 0
}

/// Every point that brute force reports lies on two distinct segments.
pub proof fn lemma_brute_force_points_meet(segs: Seq<LineSegment>, k: int)
    requires
        segments_wf(segs),
        0 <= k < brute_force_result(segs).len(),
    ensures
        brute_force_result(segs)[k].wf(),
        meeting_point(segs, brute_force_result(segs)[k]),
{
    lemma_all_hits_sound(segs, segs.len() as int, k);
    let (i, j) = choose|i: int, j: int| 0 <= i < j < segs.len()
        && #[trigger] spec_intersection(segs[i], segs[j]) == Some(brute_force_result(segs)[k]);
    lemma_intersection_lies_on_both(segs[i], segs[j]);
}

/// Where no two touching segments are parallel, each point that the sweep
/// reports is also reported by brute force.
pub proof fn lemma_sweep_points_in_brute_force(segs: Seq<LineSegment>, out: Seq<Point>, k: int)
    requires
        segments_wf(segs),
        no_parallel_contact(segs),
        sweep_result_ok(segs, out),
        0 <= k < out.len(),
    ensures
        exists|x: int| 0 <= x < brute_force_result(segs).len() && same_point(out[k], #[trigger] brute_force_result(segs)[x]),
{
    let p = out[k];
    assert(p.wf() && meeting_point(segs, p));
    let (i, j) = choose|i: int, j: int| 0 <= i < segs.len() && 0 <= j < segs.len() && i != j
        && #[trigger] lies_on(p, segs[i]) && #[trigger] lies_on(p, segs[j]);
    let (lo, hi) = if i < j { (i, j) } else { (j, i) };
    assert(isect_den(segs[lo], segs[hi]) != 0);
    lemma_common_point_is_intersection(p, segs[lo], segs[hi]);
    lemma_all_hits_contains(segs, segs.len() as int, lo, hi);
    let bf = brute_force_result(segs);
    let x = choose|x: int| 0 <= x < bf.len() && bf[x] == spec_intersection(segs[lo], segs[hi])->0;
    assert(same_point(p, bf[x]));
}

/// Brute force depends on the segments alone: two runs on the same segments
/// give the same points in the same order.
pub proof fn lemma_brute_force_repeatable(segs: Seq<LineSegment>, out1: Seq<Point>, out2: Seq<Point>)
    requires
        result_ok(LineSegmentIntersectionStrategy::BruteForce, segs, out1),
        result_ok(LineSegmentIntersectionStrategy::BruteForce, segs, out2),
    ensures
        out1 == out2,
{
}

proof fn lemma_two_segments_hits(s1: LineSegment, s2: LineSegment)
    ensures
        brute_force_result(seq![s1, s2]) == hit_seq(spec_intersection(s1, s2)),
{
    let segs = seq![s1, s2];
    assert(all_hits(segs, 0) == Seq::<Point>::empty());
    assert(row_hits(segs, 0, 1) == Seq::<Point>::empty());
    assert(row_hits(segs, 0, 2) == row_hits(segs, 0, 1) + hit_seq(spec_intersection(s1, s2)));
    assert(row_hits(segs, 1, 2) == Seq::<Point>::empty());
    assert(all_hits(segs, 1) == all_hits(segs, 0) + row_hits(segs, 0, 2));
    assert(all_hits(segs, 2) == all_hits(segs, 1) + row_hits(segs, 1, 2));
    assert(all_hits(segs, 2) =~= hit_seq(spec_intersection(s1, s2)));
}

/// With no segment, or one, neither strategy reports a point.
pub proof fn lemma_fewer_than_two_segments(strategy: LineSegmentIntersectionStrategy, segs: Seq<LineSegment>, out: Seq<Point>)
    requires
        segs.len() <= 1,
        result_ok(strategy, segs, out),
    ensures
        out.len() == 0,
{
    assert(all_hits(segs, 0) == Seq::<Point>::empty());
    if segs.len() == 1 {
        assert(row_hits(segs, 0, 1) == Seq::<Point>::empty());
        assert(all_hits(segs, 1) =~= all_hits(segs, 0) + row_hits(segs, 0, 1));
    }
    if out.len() > 0 && strategy == LineSegmentIntersectionStrategy::SweepLine {
        assert(meeting_point(segs, out[0]));
    }
}

/// Two segments with no point in common: neither strategy reports a point.
pub proof fn lemma_two_segments_apart(strategy: LineSegmentIntersectionStrategy, s1: LineSegment, s2: LineSegment, out: Seq<Point>)
    requires
        s1.wf(),
        s2.wf(),
        forall|p: Point| p.wf() ==> !(#[trigger] lies_on(p, s1) && lies_on(p, s2)),
        result_ok(strategy, seq![s1, s2], out),
    ensures
        out.len() == 0,
{
    let segs = seq![s1, s2];
    lemma_two_segments_hits(s1, s2);
    if crosses(s1, s2) {
        lemma_intersection_lies_on_both(s1, s2);
        let q = spec_intersection(s1, s2)->0;
        assert(!(lies_on(q, s1) && lies_on(q, s2)));
    }
    if out.len() > 0 && strategy == LineSegmentIntersectionStrategy::SweepLine {
        assert(meeting_point(segs, out[0]));
        let (i, j) = choose|i: int, j: int| 0 <= i < segs.len() && 0 <= j < segs.len() && i != j
            && #[trigger] lies_on(out[0], segs[i]) && #[trigger] lies_on(out[0], segs[j]);
        assert(lies_on(out[0], s1) && lies_on(out[0], s2));
    }
}

/// Two segments whose lines cross at a point of both: brute force reports
/// exactly that point, and the sweep reports no other.
pub proof fn lemma_two_segments_crossing(strategy: LineSegmentIntersectionStrategy, s1: LineSegment, s2: LineSegment, out: Seq<Point>)
    requires
        s1.wf(),
        s2.wf(),
        crosses(s1, s2),
        result_ok(strategy, seq![s1, s2], out),
    ensures
        strategy == LineSegmentIntersectionStrategy::BruteForce ==> out == seq![spec_intersection(s1, s2)->0],
        strategy == LineSegmentIntersectionStrategy::SweepLine ==> out.len() <= 1
            && forall|k: int| 0 <= k < out.len() ==> same_point(#[trigger] out[k], spec_intersection(s1, s2)->0),
{
    let segs = seq![s1, s2];
    lemma_two_segments_hits(s1, s2);
    lemma_intersection_lies_on_both(s1, s2);
    let q = spec_intersection(s1, s2)->0;
    if strategy == LineSegmentIntersectionStrategy::SweepLine {
        assert forall|k: int| 0 <= k < out.len() implies same_point(#[trigger] out[k], q) by {
            assert(meeting_point(segs, out[k]));
            let (i, j) = choose|i: int, j: int| 0 <= i < segs.len() && 0 <= j < segs.len() && i != j
                && #[trigger] lies_on(out[k], segs[i]) && #[trigger] lies_on(out[k], segs[j]);
            assert(lies_on(out[k], s1) && lies_on(out[k], s2));
            lemma_common_point_is_intersection(out[k], s1, s2);
        }
        if out.len() > 1 {
            lemma_sweep_total(out[1], q);
            lemma_sweep_trans(out[0], q, out[1]);
            lemma_sweep_total(out[0], out[1]);
        }
    }
}

/// Two segments that cross at a point that is an endpoint of neither: both
/// strategies report exactly that point.
pub proof fn lemma_two_segments_crossing_inside(strategy: LineSegmentIntersectionStrategy, s1: LineSegment, s2: LineSegment, out: Seq<Point>)
    requires
        s1.wf(),
        s2.wf(),
        crosses(s1, s2),
        !is_endpoint(spec_intersection(s1, s2)->0, s1),
        !is_endpoint(spec_intersection(s1, s2)->0, s2),
        result_ok(strategy, seq![s1, s2], out),
    ensures
        out.len() == 1,
        same_point(out[0], spec_intersection(s1, s2)->0),
{
    let segs = seq![s1, s2];
    assert(segs[0] == s1 && segs[1] == s2);
    lemma_two_segments_crossing(strategy, s1, s2, out);
    lemma_intersection_lies_on_both(s1, s2);
    if strategy == LineSegmentIntersectionStrategy::SweepLine {
        assert(crossing_inside(segs));
        assert(reported(out, spec_intersection(s1, s2)->0));
    } else {
        lemma_sweep_total(out[0], spec_intersection(s1, s2)->0);
    }
}

/// Two segments that share an endpoint and have no other point in common:
/// the sweep reports that point exactly once, and so does brute force where
/// the two are not parallel.
pub proof fn lemma_shared_endpoint_once(
    strategy: LineSegmentIntersectionStrategy,
    s1: LineSegment,
    s2: LineSegment,
    p: Point,
    out: Seq<Point>,
)
    requires
        s1.wf(),
        s2.wf(),
        p.wf(),
        is_endpoint(p, s1),
        is_endpoint(p, s2),
        forall|q: Point| q.wf() && #[trigger] lies_on(q, s1) && lies_on(q, s2) ==> same_point(q, p),
        strategy == LineSegmentIntersectionStrategy::BruteForce ==> isect_den(s1, s2) != 0,
        result_ok(strategy, seq![s1, s2], out),
    ensures
        out.len() == 1,
        same_point(out[0], p),
{
    let segs = seq![s1, s2];
    lemma_endpoints_lie_on(s1);
    lemma_endpoints_lie_on(s2);
    lemma_sweep_total(p, s1.p1);
    lemma_sweep_total(p, s2.p1);
    if same_point(p, s1.p1) {
        lemma_lies_on_same_point(s1.p1, p, s1);
    } else {
        lemma_lies_on_same_point(s1.p2, p, s1);
    }
    if same_point(p, s2.p1) {
        lemma_lies_on_same_point(s2.p1, p, s2);
    } else {
        lemma_lies_on_same_point(s2.p2, p, s2);
    }
    if strategy == LineSegmentIntersectionStrategy::BruteForce {
        lemma_two_segments_hits(s1, s2);
        lemma_common_point_is_intersection(p, s1, s2);
        let q = spec_intersection(s1, s2)->0;
        lemma_sweep_total(p, q);
    } else {
        assert(is_endpoint(p, segs[0]) && is_endpoint(p, segs[1]));
        assert(shared_endpoint(segs, p));
        assert forall|k: int| 0 <= k < out.len() implies same_point(#[trigger] out[k], p) by {
            assert(meeting_point(segs, out[k]));
            let (i, j) = choose|i: int, j: int| 0 <= i < segs.len() && 0 <= j < segs.len() && i != j
                && #[trigger] lies_on(out[k], segs[i]) && #[trigger] lies_on(out[k], segs[j]);
            assert(lies_on(out[k], s1) && lies_on(out[k], s2));
        }
        if out.len() > 1 {
            lemma_sweep_total(out[1], p);
            lemma_sweep_trans(out[0], p, out[1]);
            lemma_sweep_total(out[0], out[1]);
        }
    }
}

impl LineSegmentIntersectionBuilder {
    pub closed spec fn spec_strategy(&self) -> LineSegmentIntersectionStrategy {
        self.strategy
    }

    /// A builder that uses brute force.
    pub fn new() -> (r: LineSegmentIntersectionBuilder)
        ensures
            r.spec_strategy() == LineSegmentIntersectionStrategy::BruteForce,
    {
        LineSegmentIntersectionBuilder { strategy: LineSegmentIntersectionStrategy::BruteForce }
    }

    /// The builder with `strategy` in place of its own.
    pub fn strategy(self, strategy: LineSegmentIntersectionStrategy) -> (r: LineSegmentIntersectionBuilder)
        ensures
            r.spec_strategy() == strategy,
    {
        LineSegmentIntersectionBuilder { strategy }
    }

    /// The meeting points of `vals`, found with the chosen strategy.
    pub fn build_from_iter(&self, vals: &[LineSegment]) -> (r: LineSegmentIntersectionResult)
        requires
            segments_wf(vals@),
            vals@.len() <= MAX_SEGMENTS,
        ensures
            result_ok(self.spec_strategy(), vals@, r.intersections@),
    {
        self.calc_by_strategy(vals)
    }

    fn calc_by_strategy(&self, vals: &[LineSegment]) -> (r: LineSegmentIntersectionResult)
        requires
            segments_wf(vals@),
            vals@.len() <= MAX_SEGMENTS,
        ensures
            result_ok(self.spec_strategy(), vals@, r.intersections@),
    {
        match self.strategy {
            LineSegmentIntersectionStrategy::BruteForce => calc_intersections_brute_force(vals),
            LineSegmentIntersectionStrategy::SweepLine => calc_intersections(vals),
        }
    }
}

} // verus!

//! The brute-force strategy: every unordered pair is tested once.
use vstd::prelude::*;
use crate::geometry::{Point, LineSegment, spec_intersection};
use crate::strategy::LineSegmentIntersectionResult;

verus! {

pub open spec fn hit_seq(o: Option<Point>) -> Seq<Point> {
    match o {
        Some(p) => seq![p],
        None => Seq::empty(),
    }
}

/// The meeting points of segment `i` with segments `i + 1 .. j`, in order.
pub open spec fn row_hits(segs: Seq<LineSegment>, i: int, j: int) -> Seq<Point>
    decreases j - i,
{
    if j <= i + 1 {
        Seq::empty()
    } else {
        row_hits(segs, i, j - 1) + hit_seq(spec_intersection(segs[i], segs[j - 1]))
    }
}

/// The meeting points of the pairs whose first segment is one of `0 .. i`,
/// pair by pair in lexicographic order.
pub open spec fn all_hits(segs: Seq<LineSegment>, i: int) -> Seq<Point>
    decreases i,
{
    if i <= 0 {
        Seq::empty()
    } else {
        all_hits(segs, i - 1) + row_hits(segs, i - 1, segs.len() as int)
    }
}

/// The meeting points of all unordered pairs of `segs`.
pub open spec fn brute_force_result(segs: Seq<LineSegment>) -> Seq<Point> {
    all_hits(segs, segs.len() as int)
}

pub open spec fn segments_wf(segs: Seq<LineSegment>) -> bool {
    forall|i: int| 0 <= i < segs.len() ==> (#[trigger] segs[i]).wf()
}

proof fn lemma_row_hits_contains(segs: Seq<LineSegment>, i: int, j: int, k: int)
    requires
        i < k < j,
        spec_intersection(segs[i], segs[k]) is Some,
    ensures
        row_hits(segs, i, j).contains(spec_intersection(segs[i], segs[k])->0),
    decreases j - i,
{
    let p = spec_intersection(segs[i], segs[k])->0;
    let prev = row_hits(segs, i, j - 1);
    if k == j - 1 {
        assert(row_hits(segs, i, j)[prev.len() as int] == p);
    } else {
        lemma_row_hits_contains(segs, i, j - 1, k);
        let x = choose|x: int| 0 <= x < prev.len() && prev[x] == p;
        assert(row_hits(segs, i, j)[x] == p);
    }
}

/// The meeting point of any pair `i < k` is among the brute-force points.
pub proof fn lemma_all_hits_contains(segs: Seq<LineSegment>, n: int, i: int, k: int)
    requires
        0 <= i < k < segs.len(),
        i < n,
        spec_intersection(segs[i], segs[k]) is Some,
    ensures
        all_hits(segs, n).contains(spec_intersection(segs[i], segs[k])->0),
    decreases n,
{
    let p = spec_intersection(segs[i], segs[k])->0;
    let prev = all_hits(segs, n - 1);
    if i == n - 1 {
        lemma_row_hits_contains(segs, i, segs.len() as int, k);
        let row = row_hits(segs, n - 1, segs.len() as int);
        let x = choose|x: int| 0 <= x < row.len() && row[x] == p;
        assert(all_hits(segs, n)[prev.len() + x] == p);
    } else {
        lemma_all_hits_contains(segs, n - 1, i, k);
        let x = choose|x: int| 0 <= x < prev.len() && prev[x] == p;
        assert(all_hits(segs, n)[x] == p);
    }
}

proof fn lemma_row_hits_sound(segs: Seq<LineSegment>, i: int, j: int, x: int)
    requires
        segments_wf(segs),
        0 <= i,
        j <= segs.len(),
        0 <= x < row_hits(segs, i, j).len(),
    ensures
        exists|k: int| i < k < j && #[trigger] spec_intersection(segs[i], segs[k]) == Some(row_hits(segs, i, j)[x]),
    decreases j - i,
{
    let prev = row_hits(segs, i, j - 1);
    if x < prev.len() {
        lemma_row_hits_sound(segs, i, j - 1, x);
        assert(row_hits(segs, i, j)[x] == prev[x]);
    } else {
        assert(spec_intersection(segs[i], segs[j - 1]) == Some(row_hits(segs, i, j)[x]));
    }
}

/// Every brute-force point is the meeting point of a pair `i < k`.
pub proof fn lemma_all_hits_sound(segs: Seq<LineSegment>, n: int, x: int)
    requires
        segments_wf(segs),
        n <= segs.len(),
        0 <= x < all_hits(segs, n).len(),
    ensures
        exists|i: int, k: int| 0 <= i < k < segs.len() && #[trigger] spec_intersection(segs[i], segs[k]) == Some(all_hits(segs, n)[x]),
    decreases n,
{
    let prev = all_hits(segs, n - 1);
    if x < prev.len() {
        lemma_all_hits_sound(segs, n - 1, x);
        assert(all_hits(segs, n)[x] == prev[x]);
    } else {
        lemma_row_hits_sound(segs, n - 1, segs.len() as int, x - prev.len());
        assert(all_hits(segs, n)[x] == row_hits(segs, n - 1, segs.len() as int)[x - prev.len()]);
    }
}

/// Tests every unordered pair of `segments` once and returns the points where
/// a pair meets, pair by pair in lexicographic order of the indices.
pub fn calc_intersections_brute_force(segments: &[LineSegment]) -> (r: LineSegmentIntersectionResult)
    requires
        segments_wf(segments@),
    ensures
        r.intersections@ == brute_force_result(segments@),
{
    let ghost segs = segments@;
    let n = segments.len();
    let mut intersections: Vec<Point> = Vec::new();
    let mut i: usize = 0;
    while i < n
        invariant
            segs == segments@,
            n == segs.len(),
            segments_wf(segs),
            i <= n,
            intersections@ == all_hits(segs, i as int),
        decreases n - i,
    {
        let mut j: usize = i + 1;
        while j < n
            invariant
                segs == segments@,
                n == segs.len(),
                segments_wf(segs),
                i < n,
                i + 1 <= j <= n,
                intersections@ == all_hits(segs, i as int) + row_hits(segs, i as int, j as int),
            decreases n - j,
        {
            let ghost before = intersections@;
            let found = LineSegment::find_intersection(&segments[i], &segments[j]);
            if let Some(intersection) = found {
                intersections.push(intersection);
            }
            proof {
                assert(row_hits(segs, i as int, j + 1) == row_hits(segs, i as int, j as int)
                    + hit_seq(spec_intersection(segs[i as int], segs[j as int])));
                assert(intersections@ == all_hits(segs, i as int) + row_hits(segs, i as int, j + 1));
            }
            j += 1;
        }
        proof {
            assert(all_hits(segs, i + 1) == all_hits(segs, i as int) + row_hits(segs, i as int, n as int));
        }
        i += 1;
    }
    LineSegmentIntersectionResult { intersections }
}

} // verus!

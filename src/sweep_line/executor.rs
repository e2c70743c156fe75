//! The sweep: events are handled in sweep order until the queue is empty.
use vstd::prelude::*;
use std::cmp::Ordering;
use crate::geometry::{Point, LineSegment, cross, isect_den, crosses, lemma_inner_point_between, same_point, sweep_before, sweep_cmp, lies_on,
    spec_intersection, lemma_intersection_lies_on_both, lemma_lies_on_same_point,
    lemma_sweep_trans, lemma_sweep_total};
use crate::brute_force::{brute_force_result, segments_wf, lemma_all_hits_contains,
    lemma_all_hits_sound};
use crate::strategy::LineSegmentIntersectionResult;
use super::event_queue::{EventQueue, EventData, EventKind, data_ok, ids_ok, event_ok, queue_ok,
    inserted};
use super::status::{Status, StatusItem, item_ok, first_index_of};
use super::intersection_map::{IntersectionMap, pair_key, lemma_pair_key_injective};
use super::distinct_point::{DistinctPointSet, strictly_ordered};
use super::input::{Input, LineSegmentId};

verus! {

/// Every point at which the sweep may stop: the endpoints, then the meeting
/// points of the pairs.
pub open spec fn candidates(segs: Seq<LineSegment>) -> Seq<Point> {
    Seq::new(segs.len(), |i: int| segs[i].p1) + Seq::new(segs.len(), |i: int| segs[i].p2)
        + brute_force_result(segs)
}

/// `p` lies on two distinct segments of `segs`.
pub open spec fn meeting_point(segs: Seq<LineSegment>, p: Point) -> bool {
    exists|i: int, j: int| 0 <= i < segs.len() && 0 <= j < segs.len() && i != j
        && #[trigger] lies_on(p, segs[i]) && #[trigger] lies_on(p, segs[j])
}

/// `p` is an endpoint of `s`.
pub open spec fn is_endpoint(p: Point, s: LineSegment) -> bool {
    same_point(p, s.p1) || same_point(p, s.p2)
}

/// `p` is an endpoint of two distinct segments of `segs`.
pub open spec fn shared_endpoint(segs: Seq<LineSegment>, p: Point) -> bool {
    exists|i: int, j: int| 0 <= i < segs.len() && 0 <= j < segs.len() && i != j
        && #[trigger] is_endpoint(p, segs[i]) && #[trigger] is_endpoint(p, segs[j])
}

/// `out` holds a point that is the same as `p`.
pub open spec fn reported(out: Seq<Point>, p: Point) -> bool {
    exists|k: int| 0 <= k < out.len() && same_point(#[trigger] out[k], p)
}

/// Segment `id` starts or ends at the point of `d`.
pub open spec fn registered(d: EventData, id: LineSegmentId) -> bool {
    d.as_upper_endpoint@.contains(id) || d.as_lower_endpoint@.contains(id)
}

/// Each point where two segments have an endpoint is reported already, or
/// is still queued with both of them registered.
pub open spec fn pending_ok(segs: Seq<LineSegment>, out: Seq<Point>, q: Seq<(Point, EventData)>) -> bool {
    forall|i: LineSegmentId, j: LineSegmentId, p: Point|
        i < segs.len() && j < segs.len() && i != j && p.wf()
            && #[trigger] is_endpoint(p, segs[i as int]) && #[trigger] is_endpoint(p, segs[j as int])
            ==> reported(out, p) || exists|e: int| 0 <= e < q.len() && same_point(#[trigger] q[e].0, p)
                && registered(q[e].1, i) && registered(q[e].1, j)
}

/// `big` holds every point of `small`.
pub open spec fn keeps_all(small: Seq<Point>, big: Seq<Point>) -> bool {
    forall|x: Point| #[trigger] small.contains(x) ==> big.contains(x)
}

/// Every registration of `q0` is still in `q1`, under the same point.
pub open spec fn keeps_registrations(q0: Seq<(Point, EventData)>, q1: Seq<(Point, EventData)>) -> bool {
    forall|j: int, k: EventKind, id: LineSegmentId| 0 <= j < q0.len() && #[trigger] q0[j].1.ids(k).contains(id) ==>
        exists|i: int| 0 <= i < q1.len() && q1[i].0 == q0[j].0 && q1[i].1.ids(k).contains(id)
}

proof fn lemma_reported_kept(out0: Seq<Point>, out1: Seq<Point>, p: Point)
    requires
        keeps_all(out0, out1),
        reported(out0, p),
    ensures
        reported(out1, p),
{
    let k = choose|k: int| 0 <= k < out0.len() && same_point(#[trigger] out0[k], p);
    assert(out0.contains(out0[k]));
    let k2 = choose|k2: int| 0 <= k2 < out1.len() && out1[k2] == out0[k];
    assert(same_point(out1[k2], p));
}

proof fn lemma_pending_preserved(
    segs: Seq<LineSegment>,
    out0: Seq<Point>,
    q0: Seq<(Point, EventData)>,
    out1: Seq<Point>,
    q1: Seq<(Point, EventData)>,
)
    requires
        pending_ok(segs, out0, q0),
        queue_ok(segs, q1),
        keeps_all(out0, out1),
        keeps_registrations(q0, q1),
    ensures
        pending_ok(segs, out1, q1),
{
    assert forall|i: LineSegmentId, j: LineSegmentId, p: Point|
        i < segs.len() && j < segs.len() && i != j && p.wf()
            && #[trigger] is_endpoint(p, segs[i as int]) && #[trigger] is_endpoint(p, segs[j as int])
        implies reported(out1, p) || exists|e: int| 0 <= e < q1.len() && same_point(#[trigger] q1[e].0, p)
            && registered(q1[e].1, i) && registered(q1[e].1, j) by {
        if reported(out0, p) {
            lemma_reported_kept(out0, out1, p);
        } else {
            let e = choose|e: int| 0 <= e < q0.len() && same_point(#[trigger] q0[e].0, p)
                && registered(q0[e].1, i) && registered(q0[e].1, j);
            let ki = if q0[e].1.as_upper_endpoint@.contains(i) { EventKind::AsUpperEndpoint } else { EventKind::AsLowerEndpoint };
            let kj = if q0[e].1.as_upper_endpoint@.contains(j) { EventKind::AsUpperEndpoint } else { EventKind::AsLowerEndpoint };
            assert(q0[e].1.ids(ki).contains(i));
            assert(q0[e].1.ids(kj).contains(j));
            let b1 = choose|b: int| 0 <= b < q1.len() && q1[b].0 == q0[e].0 && q1[b].1.ids(ki).contains(i);
            let b2 = choose|b: int| 0 <= b < q1.len() && q1[b].0 == q0[e].0 && q1[b].1.ids(kj).contains(j);
            if b1 < b2 {
                assert(sweep_before(q1[b1].0, q1[b2].0));
            } else if b2 < b1 {
                assert(sweep_before(q1[b2].0, q1[b1].0));
            }
            assert(registered(q1[b1].1, i) && registered(q1[b1].1, j));
        }
    }
}

proof fn lemma_keeps_registrations_trans(a: Seq<(Point, EventData)>, b: Seq<(Point, EventData)>, c: Seq<(Point, EventData)>)
    requires
        keeps_registrations(a, b),
        keeps_registrations(b, c),
    ensures
        keeps_registrations(a, c),
{
    assert forall|j: int, k: EventKind, id: LineSegmentId| 0 <= j < a.len() && #[trigger] a[j].1.ids(k).contains(id) implies
        exists|i: int| 0 <= i < c.len() && c[i].0 == a[j].0 && c[i].1.ids(k).contains(id) by {
        let i1 = choose|i: int| 0 <= i < b.len() && b[i].0 == a[j].0 && b[i].1.ids(k).contains(id);
        assert(b[i1].1.ids(k).contains(id));
    }
}

proof fn lemma_keeps_own_registrations(q: Seq<(Point, EventData)>)
    ensures
        keeps_registrations(q, q),
{
    assert forall|j: int, k: EventKind, id: LineSegmentId| 0 <= j < q.len() && #[trigger] q[j].1.ids(k).contains(id) implies
        exists|i: int| 0 <= i < q.len() && q[i].0 == q[j].0 && q[i].1.ids(k).contains(id) by {
        assert(q[j].0 == q[j].0);
    }
}

proof fn lemma_keeps_all_own(out: Seq<Point>)
    ensures
        keeps_all(out, out),
{

}

proof fn lemma_two_registrations(d: EventData, i: LineSegmentId, j: LineSegmentId)
    requires
        registered(d, i),
        registered(d, j),
        i != j,
    ensures
        d.as_upper_endpoint@.len() + d.as_lower_endpoint@.len() + d.as_interior@.len() > 1,
{
    let (u, l) = (d.as_upper_endpoint@, d.as_lower_endpoint@);
    if u.contains(i) && u.contains(j) {
        let (a, b) = (choose|a: int| 0 <= a < u.len() && u[a] == i, choose|b: int| 0 <= b < u.len() && u[b] == j);
        assert(a != b);
    } else if l.contains(i) && l.contains(j) {
        let (a, b) = (choose|a: int| 0 <= a < l.len() && l[a] == i, choose|b: int| 0 <= b < l.len() && l[b] == j);
        assert(a != b);
    }
}

/// The meeting point of segments `a` and `b`, tested in increasing order of
/// their ids.
pub open spec fn pair_hit(segs: Seq<LineSegment>, a: LineSegmentId, b: LineSegmentId) -> Option<Point> {
    if a < b {
        spec_intersection(segs[a as int], segs[b as int])
    } else {
        spec_intersection(segs[b as int], segs[a as int])
    }
}

/// Segments `a` and `b` are distinct and meet after `cur` in sweep order.
pub open spec fn hit_ahead(segs: Seq<LineSegment>, a: LineSegmentId, b: LineSegmentId, cur: Point) -> bool {
    &&& a != b
    &&& pair_hit(segs, a, b) is Some
    &&& sweep_before(cur, pair_hit(segs, a, b)->0)
}

/// Every meeting point that the cache holds has been reported.
pub open spec fn hits_reported(segs: Seq<LineSegment>, m: Map<u64, Option<Point>>, out: Seq<Point>) -> bool {
    forall|a: LineSegmentId, b: LineSegmentId| a < b < segs.len() && #[trigger] m.contains_key(pair_key(a, b))
        && spec_intersection(segs[a as int], segs[b as int]) is Some
        ==> reported(out, spec_intersection(segs[a as int], segs[b as int])->0)
}

/// The pair `a`, `b` has been tested (or is one segment twice).
pub open spec fn tested(m: Map<u64, Option<Point>>, a: LineSegmentId, b: LineSegmentId) -> bool {
    a == b || m.contains_key(pair_key(a, b))
}

/// Every two neighbors in the status have been tested against each other.
pub open spec fn adjacent_tested(st: Seq<StatusItem>, m: Map<u64, Option<Point>>) -> bool {
    forall|i: int| 0 <= i < st.len() - 1 ==> tested(m, (#[trigger] st[i]).line_segment_id, st[i + 1].line_segment_id)
}

/// `m1` holds every key of `m0`.
pub open spec fn cache_grows(m0: Map<u64, Option<Point>>, m1: Map<u64, Option<Point>>) -> bool {
    forall|k: u64| #[trigger] m0.contains_key(k) ==> m1.contains_key(k)
}

proof fn lemma_adjacent_cache_grows(st: Seq<StatusItem>, m0: Map<u64, Option<Point>>, m1: Map<u64, Option<Point>>)
    requires
        adjacent_tested(st, m0),
        cache_grows(m0, m1),
    ensures
        adjacent_tested(st, m1),
{
    assert forall|i: int| 0 <= i < st.len() - 1 implies tested(m1, (#[trigger] st[i]).line_segment_id, st[i + 1].line_segment_id) by {
        assert(tested(m0, st[i].line_segment_id, st[i + 1].line_segment_id));
        if st[i].line_segment_id != st[i + 1].line_segment_id {
            assert(m0.contains_key(pair_key(st[i].line_segment_id, st[i + 1].line_segment_id)));
        }
    }
}

proof fn lemma_adjacent_after_remove(st0: Seq<StatusItem>, idx: int, m: Map<u64, Option<Point>>)
    requires
        adjacent_tested(st0, m),
        0 <= idx < st0.len(),
        0 < idx && idx + 1 < st0.len() ==> tested(m, st0[idx - 1].line_segment_id, st0[idx + 1].line_segment_id),
    ensures
        adjacent_tested(st0.remove(idx), m),
{
    let st1 = st0.remove(idx);
    assert forall|i: int| 0 <= i < st1.len() - 1 implies tested(m, (#[trigger] st1[i]).line_segment_id, st1[i + 1].line_segment_id) by {
        if i < idx - 1 {
            assert(st1[i] == st0[i] && st1[i + 1] == st0[i + 1]);
        } else if i == idx - 1 {
            assert(st1[i] == st0[idx - 1] && st1[i + 1] == st0[idx + 1]);
        } else {
            assert(st1[i] == st0[i + 1] && st1[i + 1] == st0[i + 2]);
        }
    }
}

proof fn lemma_adjacent_after_insert(st0: Seq<StatusItem>, idx: int, item: StatusItem, m: Map<u64, Option<Point>>)
    requires
        adjacent_tested(st0, m),
        0 <= idx <= st0.len(),
        idx > 0 ==> tested(m, item.line_segment_id, st0[idx - 1].line_segment_id),
        idx < st0.len() ==> tested(m, item.line_segment_id, st0[idx].line_segment_id),
    ensures
        adjacent_tested(st0.insert(idx, item), m),
{
    let st1 = st0.insert(idx, item);
    assert forall|i: int| 0 <= i < st1.len() - 1 implies tested(m, (#[trigger] st1[i]).line_segment_id, st1[i + 1].line_segment_id) by {
        if i < idx - 1 {
            assert(st1[i] == st0[i] && st1[i + 1] == st0[i + 1]);
        } else if i == idx - 1 {
            assert(st1[i] == st0[idx - 1] && st1[i + 1] == item);
            assert(pair_key(st0[idx - 1].line_segment_id, item.line_segment_id) == pair_key(item.line_segment_id, st0[idx - 1].line_segment_id));
        } else if i == idx {
            assert(st1[i] == item && st1[i + 1] == st0[idx]);
        } else {
            assert(st1[i] == st0[i - 1] && st1[i + 1] == st0[i]);
        }
    }
}

/// Two neighbors in the status whose segments meet have their meeting point
/// reported.
pub proof fn lemma_adjacent_hits_reported(
    segs: Seq<LineSegment>,
    st: Seq<StatusItem>,
    m: Map<u64, Option<Point>>,
    out: Seq<Point>,
    i: int,
)
    requires
        adjacent_tested(st, m),
        hits_reported(segs, m, out),
        0 <= i < st.len() - 1,
        st[i].line_segment_id < segs.len(),
        st[i + 1].line_segment_id < segs.len(),
        pair_hit(segs, st[i].line_segment_id, st[i + 1].line_segment_id) is Some,
    ensures
        reported(out, pair_hit(segs, st[i].line_segment_id, st[i + 1].line_segment_id)->0),
{
    let (a, b) = (st[i].line_segment_id, st[i + 1].line_segment_id);
    assert(tested(m, a, b));
    if a == b {
        assert(spec_intersection(segs[a as int], segs[a as int]) is None) by {
            let s0 = segs[a as int];
            assert(isect_den(s0, s0) == 0) by (nonlinear_arith)
                requires isect_den(s0, s0) == cross(s0.p2.x - s0.p1.x, s0.p2.y - s0.p1.y, s0.p2.x - s0.p1.x, s0.p2.y - s0.p1.y);
        }
    } else if a < b {
        assert(m.contains_key(pair_key(a, b)));
    } else {
        assert(m.contains_key(pair_key(b, a)));
    }
}

/// Segment `id` is in the status.
pub open spec fn in_status(st: Seq<StatusItem>, id: LineSegmentId) -> bool {
    exists|i: int| 0 <= i < st.len() && (#[trigger] st[i]).line_segment_id == id
}

/// No segment is in the status twice.
pub open spec fn ids_unique(st: Seq<StatusItem>) -> bool {
    forall|i: int, j: int| 0 <= i < j < st.len() ==> (#[trigger] st[i]).line_segment_id != (#[trigger] st[j]).line_segment_id
}

proof fn lemma_remove_unique(st: Seq<StatusItem>, idx: int)
    requires
        ids_unique(st),
        0 <= idx < st.len(),
    ensures
        ids_unique(st.remove(idx)),
        forall|x: LineSegmentId| #[trigger] in_status(st.remove(idx), x) <==> (in_status(st, x) && x != st[idx].line_segment_id),
{
    let st1 = st.remove(idx);
    assert forall|i: int, j: int| 0 <= i < j < st1.len() implies (#[trigger] st1[i]).line_segment_id != (#[trigger] st1[j]).line_segment_id by {
        let i0 = if i < idx { i } else { i + 1 };
        let j0 = if j < idx { j } else { j + 1 };
        assert(st1[i] == st[i0] && st1[j] == st[j0]);
    }
    assert forall|x: LineSegmentId| #[trigger] in_status(st1, x) <==> (in_status(st, x) && x != st[idx].line_segment_id) by {
        if in_status(st1, x) {
            let i = choose|i: int| 0 <= i < st1.len() && (#[trigger] st1[i]).line_segment_id == x;
            let i0 = if i < idx { i } else { i + 1 };
            assert(st1[i] == st[i0]);
        }
        if in_status(st, x) && x != st[idx].line_segment_id {
            let i = choose|i: int| 0 <= i < st.len() && (#[trigger] st[i]).line_segment_id == x;
            if i < idx {
                assert(st1[i] == st[i]);
            } else {
                assert(st1[i - 1] == st[i]);
            }
        }
    }
}

proof fn lemma_insert_fresh(st: Seq<StatusItem>, idx: int, item: StatusItem)
    requires
        ids_unique(st),
        0 <= idx <= st.len(),
        !in_status(st, item.line_segment_id),
    ensures
        ids_unique(st.insert(idx, item)),
        forall|x: LineSegmentId| #[trigger] in_status(st.insert(idx, item), x) <==> (in_status(st, x) || x == item.line_segment_id),
{
    let st1 = st.insert(idx, item);
    assert forall|i: int, j: int| 0 <= i < j < st1.len() implies (#[trigger] st1[i]).line_segment_id != (#[trigger] st1[j]).line_segment_id by {
        if i != idx && j != idx {
            let i0 = if i < idx { i } else { i - 1 };
            let j0 = if j < idx { j } else { j - 1 };
            assert(st1[i] == st[i0] && st1[j] == st[j0]);
        } else if i == idx {
            assert(st1[j] == st[j - 1]);
        } else {
            assert(st1[i] == st[i]);
        }
    }
    assert forall|x: LineSegmentId| #[trigger] in_status(st1, x) <==> (in_status(st, x) || x == item.line_segment_id) by {
        if in_status(st1, x) {
            let i = choose|i: int| 0 <= i < st1.len() && (#[trigger] st1[i]).line_segment_id == x;
            if i < idx {
                assert(st1[i] == st[i]);
            } else if i > idx {
                assert(st1[i] == st[i - 1]);
            }
        }
        if in_status(st, x) {
            let i = choose|i: int| 0 <= i < st.len() && (#[trigger] st[i]).line_segment_id == x;
            if i < idx {
                assert(st1[i] == st[i]);
            } else {
                assert(st1[i + 1] == st[i]);
            }
        }
        if x == item.line_segment_id {
            assert(st1[idx] == item);
        }
    }
}

proof fn lemma_with_id_contains(v: Seq<LineSegmentId>, id: LineSegmentId, x: LineSegmentId)
    ensures
        v.push(id).contains(x) <==> (v.contains(x) || x == id),
{
    if v.contains(x) {
        let i = choose|i: int| 0 <= i < v.len() && v[i] == x;
        assert(v.push(id)[i] == x);
    }
    if x == id {
        assert(v.push(id)[v.len() as int] == x);
    }
    if v.push(id).contains(x) {
        let i = choose|i: int| 0 <= i < v.len() + 1 && v.push(id)[i] == x;
        if i < v.len() {
            assert(v[i] == x);
        }
    }
}

proof fn lemma_keeps_all_trans(a: Seq<Point>, b: Seq<Point>, c: Seq<Point>)
    requires
        keeps_all(a, b),
        keeps_all(b, c),
    ensures
        keeps_all(a, c),
{
    assert forall|x: Point| #[trigger] a.contains(x) implies c.contains(x) by {
        assert(b.contains(x));
    }
}

proof fn lemma_hits_reported_kept(segs: Seq<LineSegment>, m: Map<u64, Option<Point>>, out0: Seq<Point>, out1: Seq<Point>)
    requires
        hits_reported(segs, m, out0),
        keeps_all(out0, out1),
    ensures
        hits_reported(segs, m, out1),
{
    assert forall|a: LineSegmentId, b: LineSegmentId| a < b < segs.len() && #[trigger] m.contains_key(pair_key(a, b))
        && spec_intersection(segs[a as int], segs[b as int]) is Some
        implies reported(out1, spec_intersection(segs[a as int], segs[b as int])->0) by {
        lemma_reported_kept(out0, out1, spec_intersection(segs[a as int], segs[b as int])->0);
    }
}

/// Every recorded test result is the true one.
pub open spec fn cache_ok(segs: Seq<LineSegment>, m: Map<u64, Option<Point>>) -> bool {
    forall|a: LineSegmentId, b: LineSegmentId| a < b < segs.len() && #[trigger] m.contains_key(pair_key(a, b))
        ==> m[pair_key(a, b)] == spec_intersection(segs[a as int], segs[b as int])
}

/// Number of points of `s` that come after `cur` in sweep order.
pub open spec fn count_after(s: Seq<Point>, cur: Point) -> nat
    decreases s.len(),
{
    if s.len() == 0 {
        0
    } else {
        count_after(s.drop_last(), cur) + if sweep_before(cur, s.last()) { 1nat } else { 0nat }
    }
}

proof fn lemma_count_after_le(s: Seq<Point>, cur: Point)
    ensures
        count_after(s, cur) <= s.len(),
    decreases s.len(),
{
    if s.len() > 0 {
        lemma_count_after_le(s.drop_last(), cur);
    }
}

/// Advancing the sweep to a later point of `s` leaves fewer points ahead.
proof fn lemma_count_after_decreases(s: Seq<Point>, cur: Point, nxt: Point)
    requires
        forall|i: int| 0 <= i < s.len() ==> (#[trigger] s[i]).wf(),
        cur.wf(),
        nxt.wf(),
        sweep_before(cur, nxt),
    ensures
        count_after(s, nxt) <= count_after(s, cur),
        s.contains(nxt) ==> count_after(s, nxt) < count_after(s, cur),
    decreases s.len(),
{
    if s.len() > 0 {
        let e = s.last();
        assert(e.wf());
        assert forall|i: int| 0 <= i < s.drop_last().len() implies (#[trigger] s.drop_last()[i]).wf() by {
            assert(s.drop_last()[i] == s[i]);
        }
        lemma_count_after_decreases(s.drop_last(), cur, nxt);
        lemma_sweep_trans(cur, nxt, e);
        lemma_sweep_total(nxt, e);
        if s.contains(nxt) && e != nxt {
            let i = choose|i: int| 0 <= i < s.len() && s[i] == nxt;
            assert(s.drop_last()[i] == nxt);
        }
    }
}

/// Both endpoints of a segment lie on it.
pub proof fn lemma_endpoints_lie_on(s: LineSegment)
    requires
        s.wf(),
    ensures
        lies_on(s.p1, s),
        lies_on(s.p2, s),
        lies_on(s.upper(), s),
        lies_on(s.lower(), s),
{
    assert(s.p1.x * s.p1.w == s.p1.x && s.p1.y * s.p1.w == s.p1.y);
    assert(s.p2.x * s.p2.w == s.p2.x && s.p2.y * s.p2.w == s.p2.y);
    assert(s.p1.x * s.p2.w == s.p1.x && s.p1.y * s.p2.w == s.p1.y);
    assert(s.p2.x * s.p1.w == s.p2.x && s.p2.y * s.p1.w == s.p2.y);
    let (dx, dy) = (s.p2.x - s.p1.x, s.p2.y - s.p1.y);
    assert(cross(0, 0, dx, dy) == 0);
    assert(cross(dx, dy, dx, dy) == 0) by (nonlinear_arith);
}

proof fn lemma_candidates_wf(segs: Seq<LineSegment>)
    requires
        segments_wf(segs),
    ensures
        forall|i: int| 0 <= i < candidates(segs).len() ==> (#[trigger] candidates(segs)[i]).wf(),
{
    let n = segs.len() as int;
    let c = candidates(segs);
    assert forall|i: int| 0 <= i < c.len() implies (#[trigger] c[i]).wf() by {
        if i < n {
            assert(segs[i].wf());
        } else if i < 2 * n {
            assert(segs[i - n].wf());
        } else {
            lemma_all_hits_sound(segs, n, i - 2 * n);
            let (a, b) = choose|a: int, b: int| 0 <= a < b < segs.len() && #[trigger] spec_intersection(segs[a], segs[b]) == Some(brute_force_result(segs)[i - 2 * n]);
            lemma_intersection_lies_on_both(segs[a], segs[b]);
        }
    }
}

/// A point with two registrations in its event data is a meeting point.
proof fn lemma_event_meeting_point(segs: Seq<LineSegment>, p: Point, d: EventData)
    requires
        segments_wf(segs),
        data_ok(segs, p, d),
        d.as_upper_endpoint@.len() + d.as_lower_endpoint@.len() + d.as_interior@.len() > 1,
    ensures
        meeting_point(segs, p),
{
    assert(ids_ok(segs, p, d, EventKind::AsUpperEndpoint));
    assert(ids_ok(segs, p, d, EventKind::AsLowerEndpoint));
    assert(ids_ok(segs, p, d, EventKind::AsIntersection));
    let (u, l, x) = (d.as_upper_endpoint@, d.as_lower_endpoint@, d.as_interior@);
    if u.len() >= 2 {
        lemma_upper_lies_on(segs, p, d, 0);
        lemma_upper_lies_on(segs, p, d, 1);
        assert(lies_on(p, segs[u[0] as int]) && lies_on(p, segs[u[1] as int]));
    } else if l.len() >= 2 {
        lemma_lower_lies_on(segs, p, d, 0);
        lemma_lower_lies_on(segs, p, d, 1);
        assert(lies_on(p, segs[l[0] as int]) && lies_on(p, segs[l[1] as int]));
    } else if x.len() >= 2 {
        assert(event_ok(segs, p, EventKind::AsIntersection, x[0]));
        assert(event_ok(segs, p, EventKind::AsIntersection, x[1]));
        assert(lies_on(p, segs[x[0] as int]) && lies_on(p, segs[x[1] as int]));
    } else {
        assert(u.len() == 1 && l.len() == 1);
        lemma_upper_lies_on(segs, p, d, 0);
        lemma_lower_lies_on(segs, p, d, 0);
        let (a, b) = (u[0], l[0]);
        if a == b {
            let s = segs[a as int];
            assert(event_ok(segs, p, EventKind::AsUpperEndpoint, a));
            assert(event_ok(segs, p, EventKind::AsLowerEndpoint, b));
            assert(s.wf());
            lemma_sweep_total(p, s.upper());
            lemma_sweep_trans(s.upper(), p, s.lower());
            assert(same_point(s.upper(), s.lower()));
            assert(s.p1.x * s.p2.w == s.p1.x && s.p2.x * s.p1.w == s.p2.x);
            assert(s.p1.y * s.p2.w == s.p1.y && s.p2.y * s.p1.w == s.p2.y);
        }
        assert(lies_on(p, segs[a as int]) && lies_on(p, segs[b as int]));
    }
}

proof fn lemma_upper_lies_on(segs: Seq<LineSegment>, p: Point, d: EventData, i: int)
    requires
        segments_wf(segs),
        data_ok(segs, p, d),
        0 <= i < d.as_upper_endpoint@.len(),
    ensures
        lies_on(p, segs[d.as_upper_endpoint@[i] as int]),
{
    assert(ids_ok(segs, p, d, EventKind::AsUpperEndpoint));
    let id = d.as_upper_endpoint@[i];
    assert(d.ids(EventKind::AsUpperEndpoint)[i] == id);
    assert(event_ok(segs, p, EventKind::AsUpperEndpoint, id));
    let s = segs[id as int];
    assert(s.wf());
    lemma_endpoints_lie_on(s);
    lemma_sweep_total(p, s.upper());
    lemma_lies_on_same_point(s.upper(), p, s);
}

proof fn lemma_lower_lies_on(segs: Seq<LineSegment>, p: Point, d: EventData, i: int)
    requires
        segments_wf(segs),
        data_ok(segs, p, d),
        0 <= i < d.as_lower_endpoint@.len(),
    ensures
        lies_on(p, segs[d.as_lower_endpoint@[i] as int]),
{
    assert(ids_ok(segs, p, d, EventKind::AsLowerEndpoint));
    let id = d.as_lower_endpoint@[i];
    assert(d.ids(EventKind::AsLowerEndpoint)[i] == id);
    assert(event_ok(segs, p, EventKind::AsLowerEndpoint, id));
    let s = segs[id as int];
    assert(s.wf());
    lemma_endpoints_lie_on(s);
    lemma_sweep_total(p, s.upper());
    lemma_lies_on_same_point(s.lower(), p, s);
}

/// Segment `i` is registered at its upper and at its lower endpoint.
pub open spec fn endpoints_queued(segs: Seq<LineSegment>, q: Seq<(Point, EventData)>, i: int) -> bool {
    &&& exists|e: int| 0 <= e < q.len() && same_point(q[e].0, segs[i].upper())
        && #[trigger] q[e].1.ids(EventKind::AsUpperEndpoint).contains(i as LineSegmentId)
    &&& exists|e: int| 0 <= e < q.len() && same_point(q[e].0, segs[i].lower())
        && #[trigger] q[e].1.ids(EventKind::AsLowerEndpoint).contains(i as LineSegmentId)
}

proof fn lemma_queued_at_endpoint(segs: Seq<LineSegment>, q: Seq<(Point, EventData)>, i: int, p: Point) -> (e: int)
    requires
        segments_wf(segs),
        queue_ok(segs, q),
        0 <= i < segs.len(),
        endpoints_queued(segs, q, i),
        p.wf(),
        is_endpoint(p, segs[i]),
    ensures
        0 <= e < q.len(),
        same_point(q[e].0, p),
        registered(q[e].1, i as LineSegmentId),
{
    let s = segs[i];
    assert(s.wf());
    let e1 = choose|e: int| 0 <= e < q.len() && same_point(q[e].0, s.upper())
        && #[trigger] q[e].1.ids(EventKind::AsUpperEndpoint).contains(i as LineSegmentId);
    let e2 = choose|e: int| 0 <= e < q.len() && same_point(q[e].0, s.lower())
        && #[trigger] q[e].1.ids(EventKind::AsLowerEndpoint).contains(i as LineSegmentId);
    assert(q[e1].0.wf() && q[e2].0.wf());
    lemma_sweep_total(p, s.upper());
    lemma_sweep_total(p, s.lower());
    if same_point(p, s.upper()) {
        lemma_sweep_trans(q[e1].0, s.upper(), p);
        e1
    } else {
        lemma_sweep_trans(q[e2].0, s.lower(), p);
        e2
    }
}

/// The sweep has reached or passed `x`.
pub open spec fn swept(last: Option<Point>, x: Point) -> bool {
    match last {
        Some(l) => !sweep_before(l, x),
        None => false,
    }
}

/// The status holds, once each, exactly the segments whose upper endpoint
/// the sweep has reached and whose lower endpoint it has not.
pub open spec fn presence(segs: Seq<LineSegment>, st: Seq<StatusItem>, last: Option<Point>) -> bool {
    &&& ids_unique(st)
    &&& forall|id: LineSegmentId| id < segs.len() ==> (#[trigger] in_status(st, id)
        <==> (swept(last, segs[id as int].upper()) && !swept(last, segs[id as int].lower())))
}

/// Each endpoint that the sweep has not reached is still queued with its
/// segment registered.
pub open spec fn endpoint_pending(segs: Seq<LineSegment>, q: Seq<(Point, EventData)>, last: Option<Point>, id: LineSegmentId) -> bool {
    &&& !swept(last, segs[id as int].upper()) ==> exists|e: int| 0 <= e < q.len() && same_point(q[e].0, segs[id as int].upper())
        && #[trigger] q[e].1.ids(EventKind::AsUpperEndpoint).contains(id)
    &&& !swept(last, segs[id as int].lower()) ==> exists|e: int| 0 <= e < q.len() && same_point(q[e].0, segs[id as int].lower())
        && #[trigger] q[e].1.ids(EventKind::AsLowerEndpoint).contains(id)
}

pub open spec fn pending_reg(segs: Seq<LineSegment>, q: Seq<(Point, EventData)>, last: Option<Point>) -> bool {
    forall|id: LineSegmentId| id < segs.len() ==> #[trigger] endpoint_pending(segs, q, last, id)
}

/// Handling `p`, the first queued point, moves the sweep from `last` to
/// `p`: presence and pending registrations carry over.
proof fn lemma_advance(
    segs: Seq<LineSegment>,
    q_full: Seq<(Point, EventData)>,
    q_rest: Seq<(Point, EventData)>,
    q_final: Seq<(Point, EventData)>,
    st0: Seq<StatusItem>,
    st1: Seq<StatusItem>,
    last: Option<Point>,
)
    requires
        segments_wf(segs),
        queue_ok(segs, q_full),
        q_full.len() > 0,
        q_rest == q_full.drop_first(),
        last matches Some(l) ==> l.wf() && sweep_before(l, q_full[0].0),
        presence(segs, st0, last),
        pending_reg(segs, q_full, last),
        keeps_registrations(q_rest, q_final),
        ids_unique(st0) && (forall|id: LineSegmentId| #[trigger] q_full[0].1.as_upper_endpoint@.contains(id) ==> !in_status(st0, id))
            ==> ids_unique(st1) && forall|id: LineSegmentId| #[trigger] in_status(st1, id) <==> (
                (in_status(st0, id) && !q_full[0].1.as_lower_endpoint@.contains(id))
                || q_full[0].1.as_upper_endpoint@.contains(id)),
    ensures
        presence(segs, st1, Some(q_full[0].0)),
        pending_reg(segs, q_final, Some(q_full[0].0)),
        forall|id: LineSegmentId, kind: EventKind| id < segs.len() && (kind == EventKind::AsUpperEndpoint || kind == EventKind::AsLowerEndpoint)
            ==> #[trigger] endpoint_step(segs, q_full, last, id, kind),
{
    let p = q_full[0].0;
    let d = q_full[0].1;
    assert(data_ok(segs, p, d));
    assert(ids_ok(segs, p, d, EventKind::AsUpperEndpoint));
    assert(ids_ok(segs, p, d, EventKind::AsLowerEndpoint));
    // an endpoint the sweep had not reached is reached now exactly when it is `p`
    assert forall|id: LineSegmentId, kind: EventKind| id < segs.len() && (kind == EventKind::AsUpperEndpoint || kind == EventKind::AsLowerEndpoint)
        implies #[trigger] endpoint_step(segs, q_full, last, id, kind) by {
        let s = segs[id as int];
        assert(s.wf());
        let x = if kind == EventKind::AsUpperEndpoint { s.upper() } else { s.lower() };
        assert(endpoint_pending(segs, q_full, last, id));
        lemma_sweep_total(p, x);
        if let Some(l) = last {
            lemma_sweep_trans(x, l, p);
            lemma_sweep_total(x, l);
            lemma_sweep_trans(l, p, x);
        }
        if !swept(last, x) {
            let e = choose|e: int| 0 <= e < q_full.len() && same_point(q_full[e].0, x)
                && #[trigger] q_full[e].1.ids(kind).contains(id);
            lemma_sweep_total(q_full[e].0, x);
            if e > 0 {
                assert(sweep_before(p, q_full[e].0));
                lemma_sweep_trans(p, q_full[e].0, x);
                assert(q_rest[e - 1] == q_full[e]);
                let i = choose|i: int| 0 <= i < q_final.len() && q_final[i].0 == q_rest[e - 1].0 && q_final[i].1.ids(kind).contains(id);
                assert(q_final[i].1.ids(kind).contains(id));
            } else {
                lemma_sweep_trans(p, q_full[0].0, x);
                assert(same_point(p, x));
            }
        }
        if same_point(p, x) {
            if kind == EventKind::AsUpperEndpoint {
                assert(!swept(last, x));
            } else {
                assert(!swept(last, x));
            }
        }
        if kind == EventKind::AsUpperEndpoint && d.as_upper_endpoint@.contains(id) {
            let i = choose|i: int| 0 <= i < d.as_upper_endpoint@.len() && d.as_upper_endpoint@[i] == id;
            assert(event_ok(segs, p, EventKind::AsUpperEndpoint, d.ids(EventKind::AsUpperEndpoint)[i]));
        }
        if kind == EventKind::AsLowerEndpoint && d.as_lower_endpoint@.contains(id) {
            let i = choose|i: int| 0 <= i < d.as_lower_endpoint@.len() && d.as_lower_endpoint@[i] == id;
            assert(event_ok(segs, p, EventKind::AsLowerEndpoint, d.ids(EventKind::AsLowerEndpoint)[i]));
        }
    }
    assert forall|id: LineSegmentId| #[trigger] d.as_upper_endpoint@.contains(id) implies !in_status(st0, id) by {
        let i = choose|i: int| 0 <= i < d.as_upper_endpoint@.len() && d.as_upper_endpoint@[i] == id;
        assert(event_ok(segs, p, EventKind::AsUpperEndpoint, d.ids(EventKind::AsUpperEndpoint)[i]));
        assert(endpoint_step(segs, q_full, last, id, EventKind::AsUpperEndpoint));
    }
    assert forall|id: LineSegmentId| id < segs.len() implies (#[trigger] in_status(st1, id)
        <==> (swept(Some(p), segs[id as int].upper()) && !swept(Some(p), segs[id as int].lower()))) by {
        let s = segs[id as int];
        assert(s.wf());
        assert(endpoint_step(segs, q_full, last, id, EventKind::AsUpperEndpoint));
        assert(endpoint_step(segs, q_full, last, id, EventKind::AsLowerEndpoint));
        lemma_sweep_total(s.p1, s.p2);
        lemma_sweep_total(p, s.upper());
        lemma_sweep_trans(p, s.upper(), s.lower());
        lemma_sweep_total(p, s.lower());
        if let Some(l) = last {
            lemma_sweep_trans(s.lower(), l, s.upper());
            lemma_sweep_total(s.upper(), s.lower());
        }
        if same_point(p, s.upper()) && same_point(p, s.lower()) {
            lemma_sweep_trans(s.upper(), p, s.lower());
        }
    }
    assert forall|id: LineSegmentId| id < segs.len() implies #[trigger] endpoint_pending(segs, q_final, Some(p), id) by {
        lemma_step_kept(segs, q_full, q_rest, q_final, last, id, EventKind::AsUpperEndpoint);
        lemma_step_kept(segs, q_full, q_rest, q_final, last, id, EventKind::AsLowerEndpoint);
    }
}

proof fn lemma_step_kept(
    segs: Seq<LineSegment>,
    q_full: Seq<(Point, EventData)>,
    q_rest: Seq<(Point, EventData)>,
    q_final: Seq<(Point, EventData)>,
    last: Option<Point>,
    id: LineSegmentId,
    kind: EventKind,
)
    requires
        q_full.len() > 0,
        q_rest == q_full.drop_first(),
        keeps_registrations(q_rest, q_final),
        endpoint_step(segs, q_full, last, id, kind),
    ensures
        ({
            let s = segs[id as int];
            let x = if kind == EventKind::AsUpperEndpoint { s.upper() } else { s.lower() };
            !swept(Some(q_full[0].0), x) ==> exists|e: int| 0 <= e < q_final.len() && same_point(q_final[e].0, x)
                && #[trigger] q_final[e].1.ids(kind).contains(id)
        }),
{
    let s = segs[id as int];
    let x = if kind == EventKind::AsUpperEndpoint { s.upper() } else { s.lower() };
    if !swept(Some(q_full[0].0), x) {
        let e = choose|e: int| 0 <= e < q_full.len() - 1 && same_point(q_full[e + 1].0, x)
            && #[trigger] q_full[e + 1].1.ids(kind).contains(id);
        assert(q_rest[e] == q_full[e + 1]);
        assert(q_rest[e].1.ids(kind).contains(id));
        let i = choose|i: int| 0 <= i < q_final.len() && q_final[i].0 == q_rest[e].0 && q_final[i].1.ids(kind).contains(id);
        assert(q_final[i].1.ids(kind).contains(id));
    }
}

/// For one endpoint: reached at `p` exactly when it was not reached before
/// and is the same as `p`, registered at `p` exactly then, and otherwise still
/// queued after `p` if not reached.
pub open spec fn endpoint_step(segs: Seq<LineSegment>, q_full: Seq<(Point, EventData)>, last: Option<Point>, id: LineSegmentId, kind: EventKind) -> bool {
    let s = segs[id as int];
    let x = if kind == EventKind::AsUpperEndpoint { s.upper() } else { s.lower() };
    let p = q_full[0].0;
    &&& swept(Some(p), x) <==> (swept(last, x) || same_point(p, x))
    &&& q_full[0].1.ids(kind).contains(id) <==> (!swept(last, x) && same_point(p, x))
    &&& !swept(Some(p), x) ==> exists|e: int| 0 <= e < q_full.len() - 1 && same_point(q_full[e + 1].0, x)
        && #[trigger] q_full[e + 1].1.ids(kind).contains(id)
}

/// Two segments that cross at a point that is an endpoint of neither.
pub open spec fn crossing_inside(segs: Seq<LineSegment>) -> bool {
    &&& segs.len() == 2
    &&& crosses(segs[0], segs[1])
    &&& !is_endpoint(spec_intersection(segs[0], segs[1])->0, segs[0])
    &&& !is_endpoint(spec_intersection(segs[0], segs[1])->0, segs[1])
}

proof fn lemma_both_in_status(segs: Seq<LineSegment>, st: Seq<StatusItem>)
    requires
        segs.len() == 2,
        ids_unique(st),
        forall|i: int| 0 <= i < st.len() ==> (#[trigger] st[i]).line_segment_id < 2,
        in_status(st, 0),
        in_status(st, 1),
    ensures
        st.len() == 2,
        pair_hit(segs, st[0].line_segment_id, st[1].line_segment_id) == spec_intersection(segs[0], segs[1]),
{
    let i0 = choose|i: int| 0 <= i < st.len() && (#[trigger] st[i]).line_segment_id == 0;
    let i1 = choose|i: int| 0 <= i < st.len() && (#[trigger] st[i]).line_segment_id == 1;
    assert(i0 != i1);
    if st.len() > 2 {
        assert(st[0].line_segment_id != st[1].line_segment_id);
        assert(st[0].line_segment_id != st[2].line_segment_id);
        assert(st[1].line_segment_id != st[2].line_segment_id);
    }
    assert(st[0].line_segment_id != st[1].line_segment_id);
}

/// The state of one sweep over the segments of an [`Input`].
pub struct Executor<'a> {
    input: &'a Input,
    event_queue: EventQueue<'a>,
    status: Status<'a>,
    intersection_cache: IntersectionMap,
    output: DistinctPointSet,
}

impl<'a> Executor<'a> {
    /// The segments of the sweep.
    pub closed spec fn segs(&self) -> Seq<LineSegment> {
        self.input.segments@
    }

    /// Nothing has been swept yet.
    pub closed spec fn fresh(&self) -> bool {
        &&& self.inv()
        &&& self.event_queue@.len() == 0
        &&& self.output@.len() == 0
        &&& self.status@.len() == 0
    }

    closed spec fn inv(&self) -> bool {
        let segs = self.segs();
        &&& self.input.wf()
        &&& self.event_queue.wf()
        &&& self.event_queue.segs() == segs
        &&& self.status.wf()
        &&& self.status.segs() == segs
        &&& cache_ok(segs, self.intersection_cache@)
        &&& hits_reported(segs, self.intersection_cache@, self.output@)
        &&& self.output.wf()
        &&& forall|i: int| 0 <= i < self.output@.len() ==> meeting_point(segs, #[trigger] self.output@[i])
    }

    /// Every queued point is a candidate.
    closed spec fn queued_candidates(&self) -> bool {
        forall|i: int| 0 <= i < self.event_queue@.len() ==> candidates(self.segs()).contains(#[trigger] self.event_queue@[i].0)
    }

    /// Every queued point is a candidate that comes after `cur`.
    closed spec fn ahead_of(&self, cur: Point) -> bool {
        &&& self.queued_candidates()
        &&& forall|i: int| 0 <= i < self.event_queue@.len() ==> sweep_before(cur, #[trigger] self.event_queue@[i].0)
    }

    /// A sweep over the segments of `input`.
    pub fn new(input: &'a Input) -> (r: Executor<'a>)
        requires
            input.wf(),
        ensures
            r.fresh(),
            r.segs() == input.segments@,
    {
        Executor {
            input,
            event_queue: EventQueue::new(input),
            status: Status::new(input),
            intersection_cache: IntersectionMap::new(),
            output: DistinctPointSet::new(),
        }
    }

    /// Runs the sweep to the end and returns each distinct point where two
    /// or more segments meet, in increasing order of x, then y.
    pub fn calc_result(self) -> (r: LineSegmentIntersectionResult)
        requires
            self.fresh(),
        ensures
            strictly_ordered(r.intersections@),
            forall|i: int| 0 <= i < r.intersections@.len() ==> (#[trigger] r.intersections@[i]).wf()
                && meeting_point(self.segs(), r.intersections@[i]),
            forall|p: Point| p.wf() && #[trigger] shared_endpoint(self.segs(), p) ==> reported(r.intersections@, p),
            crossing_inside(self.segs()) ==> reported(r.intersections@, spec_intersection(self.segs()[0], self.segs()[1])->0),
    {
        let mut this = self;
        let ghost segs = this.segs();
        let ghost cands = candidates(segs);
        proof {
            lemma_candidates_wf(segs);
        }
        this.initialize_event_queue();
        let ghost mut last: Option<Point> = None;
        proof {
            assert forall|id: LineSegmentId| id < segs.len() implies (#[trigger] in_status(this.status@, id)
                <==> (swept(last, segs[id as int].upper()) && !swept(last, segs[id as int].lower()))) by {}
        }
        loop
            invariant
                this.inv(),
                this.segs() == segs,
                cands == candidates(segs),
                forall|i: int| 0 <= i < cands.len() ==> (#[trigger] cands[i]).wf(),
                this.queued_candidates(),
                last matches Some(l) ==> l.wf() && this.ahead_of(l),
                pending_ok(segs, this.output@, this.event_queue@),
                adjacent_tested(this.status@, this.intersection_cache@),
                presence(segs, this.status@, last),
                pending_reg(segs, this.event_queue@, last),
                crossing_inside(segs) ==> (swept(last, segs[0].upper()) && swept(last, segs[1].upper())
                    ==> reported(this.output@, spec_intersection(segs[0], segs[1])->0)),
            ensures
                this.inv(),
                this.segs() == segs,
                pending_ok(segs, this.output@, this.event_queue@),
                this.event_queue@.len() == 0,
                crossing_inside(segs) ==> reported(this.output@, spec_intersection(segs[0], segs[1])->0),
            decreases
                match last {
                    Some(l) => count_after(cands, l),
                    None => cands.len() + 1,
                },
        {
            let ghost before = this.event_queue@;
            let ghost st0 = this.status@;
            proof {
                assert(queue_ok(segs, before));
            }
            match this.event_queue.dequeue_point() {
                None => {
                    proof {
                        if crossing_inside(segs) {
                            assert(endpoint_pending(segs, this.event_queue@, last, 0));
                            assert(endpoint_pending(segs, this.event_queue@, last, 1));
                        }
                    }
                    break;
                },
                Some((point, data)) => {
                    proof {
                        assert(before =~= this.event_queue@.insert(0, (point, data)));
                        assert(point == before[0].0);
                        assert(cands.contains(point));
                        assert(data_ok(segs, point, data));
                        assert forall|i: int| 0 <= i < this.event_queue@.len() implies
                            cands.contains(#[trigger] this.event_queue@[i].0) by {
                            assert(this.event_queue@[i] == before[i + 1]);
                        }
                        match last {
                            Some(l) => {
                                assert(sweep_before(l, point));
                                lemma_count_after_decreases(cands, l, point);
                            },
                            None => {
                                lemma_count_after_le(cands, point);
                            },
                        }
                    }
                    let ghost q_rest = this.event_queue@;
                    let ghost out_b = this.output@;
                    this.handle_event_point(point, data);
                    proof {
                        assert(q_rest == before.drop_first());
                        assert(before[0] == (point, data));
                        lemma_advance(segs, before, q_rest, this.event_queue@, st0, this.status@, last);
                        if crossing_inside(segs) {
                            let hit = spec_intersection(segs[0], segs[1])->0;
                            let (u0, u1, l0, l1) = (segs[0].upper(), segs[1].upper(), segs[0].lower(), segs[1].lower());
                            lemma_intersection_lies_on_both(segs[0], segs[1]);
                            assert(segs[0].wf() && segs[1].wf());
                            lemma_inner_point_between(hit, segs[0]);
                            lemma_inner_point_between(hit, segs[1]);
                            assert(endpoint_step(segs, before, last, 0, EventKind::AsUpperEndpoint));
                            assert(endpoint_step(segs, before, last, 1, EventKind::AsUpperEndpoint));
                            assert(endpoint_step(segs, before, last, 0, EventKind::AsLowerEndpoint));
                            assert(endpoint_step(segs, before, last, 1, EventKind::AsLowerEndpoint));
                            if swept(Some(point), u0) && swept(Some(point), u1) {
                                if swept(last, u0) && swept(last, u1) {
                                    lemma_reported_kept(out_b, this.output@, hit);
                                } else {
                                    let u = if !swept(last, u0) { u0 } else { u1 };
                                    assert(same_point(point, u));
                                    lemma_sweep_total(point, u);
                                    lemma_sweep_trans(point, u, hit);
                                    lemma_sweep_trans(point, hit, l0);
                                    lemma_sweep_trans(point, hit, l1);
                                    lemma_sweep_total(point, l0);
                                    lemma_sweep_total(point, l1);
                                    assert(in_status(this.status@, 0));
                                    assert(in_status(this.status@, 1));
                                    let st = this.status@;
                                    assert forall|i: int| 0 <= i < st.len() implies (#[trigger] st[i]).line_segment_id < 2 by {
                                        assert(item_ok(segs, st[i]));
                                    }
                                    lemma_both_in_status(segs, st);
                                    assert(0 <= 0 < st.len() - 1);
                                    assert(pair_hit(segs, st[0].line_segment_id, st[1].line_segment_id) is Some);
                                }
                            }
                        }
                        last = Some(point);
                    }
                },
            }
        }
        proof {
            assert forall|p: Point| p.wf() && #[trigger] shared_endpoint(segs, p) implies reported(this.output@, p) by {
                let (i, j) = choose|i: int, j: int| 0 <= i < segs.len() && 0 <= j < segs.len() && i != j
                    && #[trigger] is_endpoint(p, segs[i]) && #[trigger] is_endpoint(p, segs[j]);
                assert(is_endpoint(p, segs[(i as LineSegmentId) as int]));
                assert(is_endpoint(p, segs[(j as LineSegmentId) as int]));
            }
        }
        LineSegmentIntersectionResult { intersections: this.output.to_vec() }
    }

    fn initialize_event_queue(&mut self)
        requires
            old(self).fresh(),
        ensures
            final(self).inv(),
            final(self).segs() == old(self).segs(),
            final(self).queued_candidates(),
            pending_ok(final(self).segs(), final(self).output@, final(self).event_queue@),
            final(self).status@.len() == 0,
            pending_reg(final(self).segs(), final(self).event_queue@, None),
    {
        let ghost segs = self.segs();
        let ghost out0 = self.output@;
        let n = self.input.segments.len();
        let mut id: usize = 0;
        while id < n
            invariant
                self.inv(),
                self.segs() == segs,
                n == segs.len(),
                id <= n,
                self.queued_candidates(),
                self.output@ == out0,
                out0.len() == 0,
                self.status@.len() == 0,
                forall|i: int| 0 <= i < id ==> #[trigger] endpoints_queued(segs, self.event_queue@, i),
            decreases n - id,
        {
            let ghost before = self.event_queue@;
            self.event_queue.insert_segment(id);
            proof {
                assert forall|i: int| 0 <= i < id + 1 implies #[trigger] endpoints_queued(segs, self.event_queue@, i) by {
                    if i < id {
                        assert(endpoints_queued(segs, before, i));
                        let e1 = choose|e: int| 0 <= e < before.len() && same_point(before[e].0, segs[i].upper())
                            && #[trigger] before[e].1.ids(EventKind::AsUpperEndpoint).contains(i as LineSegmentId);
                        let e2 = choose|e: int| 0 <= e < before.len() && same_point(before[e].0, segs[i].lower())
                            && #[trigger] before[e].1.ids(EventKind::AsLowerEndpoint).contains(i as LineSegmentId);
                        let f1 = choose|f: int| 0 <= f < self.event_queue@.len() && self.event_queue@[f].0 == before[e1].0
                            && self.event_queue@[f].1.ids(EventKind::AsUpperEndpoint).contains(i as LineSegmentId);
                        let f2 = choose|f: int| 0 <= f < self.event_queue@.len() && self.event_queue@[f].0 == before[e2].0
                            && self.event_queue@[f].1.ids(EventKind::AsLowerEndpoint).contains(i as LineSegmentId);
                        assert(same_point(self.event_queue@[f1].0, segs[i].upper()));
                        assert(same_point(self.event_queue@[f2].0, segs[i].lower()));
                    } else {
                        let q = self.event_queue@;
                        let f1 = choose|f: int| 0 <= f < q.len() && same_point(#[trigger] q[f].0, segs[id as int].upper())
                            && q[f].1.as_upper_endpoint@.contains(id);
                        let f2 = choose|f: int| 0 <= f < q.len() && same_point(#[trigger] q[f].0, segs[id as int].lower())
                            && q[f].1.as_lower_endpoint@.contains(id);
                        assert(q[f1].1.ids(EventKind::AsUpperEndpoint).contains(i as LineSegmentId));
                        assert(q[f2].1.ids(EventKind::AsLowerEndpoint).contains(i as LineSegmentId));
                    }
                }
                let cands = candidates(segs);
                assert(cands[id as int] == segs[id as int].p1);
                assert(cands[n + id] == segs[id as int].p2);
                assert forall|i: int| 0 <= i < self.event_queue@.len() implies
                    cands.contains(#[trigger] self.event_queue@[i].0) by {
                    if self.event_queue@[i].0 != segs[id as int].p1 && self.event_queue@[i].0 != segs[id as int].p2 {
                        let j = choose|j: int| 0 <= j < before.len() && before[j].0 == self.event_queue@[i].0;
                        assert(cands.contains(before[j].0));
                    }
                }
            }
            id += 1;
        }
        proof {
            let q = self.event_queue@;
            assert forall|id: LineSegmentId| id < segs.len() implies #[trigger] endpoint_pending(segs, q, None, id) by {
                assert(endpoints_queued(segs, q, id as int));
            }
            assert forall|i: LineSegmentId, j: LineSegmentId, p: Point|
                i < segs.len() && j < segs.len() && i != j && p.wf()
                    && #[trigger] is_endpoint(p, segs[i as int]) && #[trigger] is_endpoint(p, segs[j as int])
                implies reported(self.output@, p) || exists|e: int| 0 <= e < q.len() && same_point(#[trigger] q[e].0, p)
                    && registered(q[e].1, i) && registered(q[e].1, j) by {
                let ei = lemma_queued_at_endpoint(segs, q, i as int, p);
                let ej = lemma_queued_at_endpoint(segs, q, j as int, p);
                lemma_sweep_total(q[ei].0, p);
                lemma_sweep_total(q[ej].0, p);
                lemma_sweep_trans(q[ei].0, p, q[ej].0);
                lemma_sweep_total(q[ei].0, q[ej].0);
                if ei < ej {
                    assert(sweep_before(q[ei].0, q[ej].0));
                } else if ej < ei {
                    assert(sweep_before(q[ej].0, q[ei].0));
                }
            }
        }
    }

    /// Handles one event point: reports it if two or more registrations
    /// meet there, takes out the segments that end there, re-seats those that
    /// cross there, puts in those that start there, and tests each pair that
    /// became adjacent.
    fn handle_event_point(&mut self, point: Point, event_point: EventData)
        requires
            old(self).inv(),
            data_ok(old(self).segs(), point, event_point),
            old(self).ahead_of(point),
            pending_ok(old(self).segs(), old(self).output@, old(self).event_queue@.insert(0, (point, event_point))),
            adjacent_tested(old(self).status@, old(self).intersection_cache@),
        ensures
            final(self).inv(),
            final(self).segs() == old(self).segs(),
            final(self).ahead_of(point),
            pending_ok(final(self).segs(), final(self).output@, final(self).event_queue@),
            adjacent_tested(final(self).status@, final(self).intersection_cache@),
            keeps_all(old(self).output@, final(self).output@),
            keeps_registrations(old(self).event_queue@, final(self).event_queue@),
            event_point.as_upper_endpoint@.len() + event_point.as_lower_endpoint@.len() + event_point.as_interior@.len() > 1
                ==> reported(final(self).output@, point),
            forall|i: int| 0 <= i < final(self).status@.len() - 1
                && pair_hit(final(self).segs(), (#[trigger] final(self).status@[i]).line_segment_id, final(self).status@[i + 1].line_segment_id) is Some
                ==> reported(final(self).output@, pair_hit(final(self).segs(), final(self).status@[i].line_segment_id, final(self).status@[i + 1].line_segment_id)->0),
            ids_unique(old(self).status@)
                && (forall|id: LineSegmentId| #[trigger] event_point.as_upper_endpoint@.contains(id) ==> !in_status(old(self).status@, id))
                ==> ids_unique(final(self).status@) && forall|id: LineSegmentId| #[trigger] in_status(final(self).status@, id) <==> (
                    (in_status(old(self).status@, id) && !event_point.as_lower_endpoint@.contains(id))
                    || event_point.as_upper_endpoint@.contains(id)),
    {
        let ghost st_start = self.status@;
        let ghost given = ids_unique(st_start)
            && (forall|id: LineSegmentId| #[trigger] event_point.as_upper_endpoint@.contains(id) ==> !in_status(st_start, id));
        let ghost lower = event_point.as_lower_endpoint@;
        let ghost upper = event_point.as_upper_endpoint@;
        let ghost segs = self.segs();
        let ghost out0 = self.output@;
        let ghost q = self.event_queue@;
        let ghost full = q.insert(0, (point, event_point));
        let upper_count = event_point.as_upper_endpoint.len() as u128;
        let lower_count = event_point.as_lower_endpoint.len() as u128;
        let interior_count = event_point.as_interior.len() as u128;
        if upper_count + lower_count + interior_count > 1 {
            proof {
                lemma_event_meeting_point(segs, point, event_point);
            }
            self.output_insert(point);
        } else {
            proof {
                lemma_keeps_all_own(self.output@);
            }
        }
        proof {
            assert forall|i: LineSegmentId, j: LineSegmentId, p: Point|
                i < segs.len() && j < segs.len() && i != j && p.wf()
                    && #[trigger] is_endpoint(p, segs[i as int]) && #[trigger] is_endpoint(p, segs[j as int])
                implies reported(self.output@, p) || exists|e: int| 0 <= e < q.len() && same_point(#[trigger] q[e].0, p)
                    && registered(q[e].1, i) && registered(q[e].1, j) by {
                if reported(out0, p) {
                    lemma_reported_kept(out0, self.output@, p);
                } else {
                    let e = choose|e: int| 0 <= e < full.len() && same_point(#[trigger] full[e].0, p)
                        && registered(full[e].1, i) && registered(full[e].1, j);
                    if e == 0 {
                        lemma_two_registrations(event_point, i, j);
                        let k = choose|k: int| 0 <= k < self.output@.len() && same_point(#[trigger] self.output@[k], point);
                        assert(self.output@[k].wf());
                        lemma_sweep_trans(self.output@[k], point, p);
                    } else {
                        assert(full[e] == q[e - 1]);
                    }
                }
            }
        }
        proof {
            assert(ids_ok(segs, point, event_point, EventKind::AsUpperEndpoint));
            assert(ids_ok(segs, point, event_point, EventKind::AsLowerEndpoint));
            assert(ids_ok(segs, point, event_point, EventKind::AsIntersection));
        }
        let ghost out1 = self.output@;
        proof {
            lemma_keeps_own_registrations(q);
        }
        let ghost many = event_point.as_upper_endpoint@.len() + event_point.as_lower_endpoint@.len()
            + event_point.as_interior@.len() > 1;
        proof {
            if many {
                assert(reported(out1, point));
            }
        }
        let mut k: usize = 0;
        while k < event_point.as_lower_endpoint.len()
            invariant
                self.inv(),
                self.segs() == segs,
                self.ahead_of(point),
                point.wf(),
                data_ok(segs, point, event_point),
                pending_ok(segs, self.output@, self.event_queue@),
                adjacent_tested(self.status@, self.intersection_cache@),
                keeps_all(out0, self.output@),
                keeps_registrations(q, self.event_queue@),
                many ==> reported(self.output@, point),
                given ==> ids_unique(self.status@),
                given ==> forall|x: LineSegmentId| #[trigger] in_status(self.status@, x) <==> (in_status(st_start, x) && !lower.take(k as int).contains(x)),
                lower == event_point.as_lower_endpoint@,
                k <= lower.len(),
            decreases event_point.as_lower_endpoint@.len() - k,
        {
            let id = event_point.as_lower_endpoint[k];
            let ghost st0 = self.status@;
            let ghost ob = self.output@;
            let ghost qb = self.event_queue@;
            if let Some((left, right, _)) = self.status.remove(id) {
                proof {
                    let idx = choose|idx: int| #[trigger] first_index_of(st0, id, idx) && st0.remove(idx) == self.status@;
                    if given {
                        lemma_remove_unique(st0, idx);
                    }
                }
                self.test_exposed_pair(left, right, point, Ghost(st0));
            } else {
                proof {
                    lemma_keeps_all_own(self.output@);
                }
            }
            proof {
                if qb == self.event_queue@ {
                    lemma_keeps_own_registrations(qb);
                }
                lemma_keeps_registrations_trans(q, qb, self.event_queue@);
                assert(lower.take(k + 1) == lower.take(k as int).push(id));
                if given {
                    assert forall|x: LineSegmentId| #[trigger] in_status(self.status@, x) <==> (in_status(st_start, x) && !lower.take(k + 1).contains(x)) by {
                        lemma_with_id_contains(lower.take(k as int), id, x);
                        if x == id && in_status(st0, x) {
                            let i = choose|i: int| 0 <= i < st0.len() && (#[trigger] st0[i]).line_segment_id == x;
                            assert(st0[i].line_segment_id == id);
                        }
                    }
                }
                lemma_keeps_all_trans(out0, ob, self.output@);
                if many {
                    lemma_reported_kept(ob, self.output@, point);
                }
            }
            k += 1;
        }
        proof {
            assert(lower.take(lower.len() as int) == lower);
        }
        let mut k: usize = 0;
        while k < event_point.as_interior.len()
            invariant
                self.inv(),
                self.segs() == segs,
                self.ahead_of(point),
                point.wf(),
                data_ok(segs, point, event_point),
                pending_ok(segs, self.output@, self.event_queue@),
                adjacent_tested(self.status@, self.intersection_cache@),
                keeps_all(out0, self.output@),
                keeps_registrations(q, self.event_queue@),
                many ==> reported(self.output@, point),
                given ==> ids_unique(self.status@),
                given ==> forall|x: LineSegmentId| #[trigger] in_status(self.status@, x) <==> (in_status(st_start, x) && !lower.contains(x)),
                lower == event_point.as_lower_endpoint@,
            decreases event_point.as_interior@.len() - k,
        {
            let id = event_point.as_interior[k];
            proof {
                assert(event_ok(segs, point, EventKind::AsIntersection, event_point.ids(EventKind::AsIntersection)[k as int]));
            }
            let ghost st0 = self.status@;
            let ghost ob = self.output@;
            let ghost qb = self.event_queue@;
            proof {
                lemma_keeps_own_registrations(qb);
            }
            if let Some((left0, right0, item)) = self.status.remove(id) {
                let ghost idx = choose|idx: int| #[trigger] first_index_of(st0, id, idx) && st0.remove(idx) == self.status@;
                proof {
                    if given {
                        lemma_remove_unique(st0, idx);
                    }
                }
                self.test_exposed_pair(left0, right0, point, Ghost(st0));
                let ghost om = self.output@;
                let ghost qm = self.event_queue@;
                let ghost st_mid = self.status@;
                proof {
                    let idx = choose|idx: int| #[trigger] first_index_of(st0, id, idx) && st0.remove(idx) == self.status@;
                    assert(item_ok(segs, st0[idx]));
                }
                self.insert_and_test(item, point);
                proof {
                    lemma_keeps_all_trans(ob, om, self.output@);
                    lemma_keeps_registrations_trans(qb, qm, self.event_queue@);
                    if given {
                        let idx2 = choose|idx2: int| 0 <= idx2 <= st_mid.len() && #[trigger] st_mid.insert(idx2, item) == self.status@;
                        assert(item == st0[idx]);
                        lemma_insert_fresh(st_mid, idx2, item);
                        assert forall|x: LineSegmentId| #[trigger] in_status(self.status@, x) <==> in_status(st0, x) by {
                            if x == id {
                                assert(st0[idx].line_segment_id == id);
                            }
                        }
                    }
                }
            } else {
                proof {
                    lemma_keeps_all_own(self.output@);
                }
            }
            proof {
                lemma_keeps_all_trans(out0, ob, self.output@);
                lemma_keeps_registrations_trans(q, qb, self.event_queue@);
                if many {
                    lemma_reported_kept(ob, self.output@, point);
                }
            }
            k += 1;
        }
        let mut k: usize = 0;
        while k < event_point.as_upper_endpoint.len()
            invariant
                self.inv(),
                self.segs() == segs,
                self.ahead_of(point),
                point.wf(),
                data_ok(segs, point, event_point),
                pending_ok(segs, self.output@, self.event_queue@),
                adjacent_tested(self.status@, self.intersection_cache@),
                keeps_all(out0, self.output@),
                keeps_registrations(q, self.event_queue@),
                many ==> reported(self.output@, point),
                given ==> ids_unique(self.status@),
                given ==> forall|x: LineSegmentId| #[trigger] in_status(self.status@, x) <==> ((in_status(st_start, x) && !lower.contains(x)) || upper.take(k as int).contains(x)),
                lower == event_point.as_lower_endpoint@,
                upper == event_point.as_upper_endpoint@,
                given ==> forall|id: LineSegmentId| #[trigger] upper.contains(id) ==> !in_status(st_start, id),
                k <= upper.len(),
            decreases event_point.as_upper_endpoint@.len() - k,
        {
            let id = event_point.as_upper_endpoint[k];
            proof {
                assert(event_ok(segs, point, EventKind::AsUpperEndpoint, event_point.ids(EventKind::AsUpperEndpoint)[k as int]));
                assert(segs[id as int].wf());
            }
            let dir = self.input.segments[id].downward_direction();
            let item = StatusItem::new(id, dir);
            let ghost ob = self.output@;
            let ghost qb = self.event_queue@;
            let ghost st0 = self.status@;
            proof {
                assert(upper[k as int] == id);
                assert(upper.contains(id));
                if given {
                    assert(!upper.take(k as int).contains(id)) by {
                        if upper.take(k as int).contains(id) {
                            let j = choose|j: int| 0 <= j < k && upper.take(k as int)[j] == id;
                            assert(upper[j] == upper[k as int]);
                        }
                    }
                    assert(!in_status(st0, id));
                }
            }
            self.insert_and_test(item, point);
            proof {
                lemma_keeps_registrations_trans(q, qb, self.event_queue@);
                assert(upper.take(k + 1) == upper.take(k as int).push(id));
                if given {
                    let idx2 = choose|idx2: int| 0 <= idx2 <= st0.len() && #[trigger] st0.insert(idx2, item) == self.status@;
                    lemma_insert_fresh(st0, idx2, item);
                    assert forall|x: LineSegmentId| #[trigger] in_status(self.status@, x) <==> ((in_status(st_start, x) && !lower.contains(x)) || upper.take(k + 1).contains(x)) by {
                        lemma_with_id_contains(upper.take(k as int), id, x);
                    }
                }
                lemma_keeps_all_trans(out0, ob, self.output@);
                if many {
                    lemma_reported_kept(ob, self.output@, point);
                }
            }
            k += 1;
        }
        proof {
            assert(upper.take(upper.len() as int) == upper);
            let st = self.status@;
            assert forall|i: int| 0 <= i < st.len() - 1
                && pair_hit(segs, (#[trigger] st[i]).line_segment_id, st[i + 1].line_segment_id) is Some
                implies reported(self.output@, pair_hit(segs, st[i].line_segment_id, st[i + 1].line_segment_id)->0) by {
                assert(item_ok(segs, st[i]) && item_ok(segs, st[i + 1]));
                lemma_adjacent_hits_reported(segs, st, self.intersection_cache@, self.output@, i);
            }
        }
    }

    /// After a removal from the status, tests the two segments that became
    /// neighbors, if there are two.
    fn test_exposed_pair(&mut self, left: Option<StatusItem>, right: Option<StatusItem>, point: Point, Ghost(st0): Ghost<Seq<StatusItem>>)
        requires
            old(self).inv(),
            old(self).ahead_of(point),
            point.wf(),
            pending_ok(old(self).segs(), old(self).output@, old(self).event_queue@),
            adjacent_tested(st0, old(self).intersection_cache@),
            exists|idx: int| 0 <= idx < st0.len() && #[trigger] st0.remove(idx) == old(self).status@ && {
                &&& left == if idx > 0 { Some(st0[idx - 1]) } else { None::<StatusItem> }
                &&& right == if idx + 1 < st0.len() { Some(st0[idx + 1]) } else { None::<StatusItem> }
            },
        ensures
            final(self).inv(),
            final(self).segs() == old(self).segs(),
            final(self).ahead_of(point),
            pending_ok(final(self).segs(), final(self).output@, final(self).event_queue@),
            final(self).status@ == old(self).status@,
            adjacent_tested(final(self).status@, final(self).intersection_cache@),
            keeps_all(old(self).output@, final(self).output@),
            keeps_registrations(old(self).event_queue@, final(self).event_queue@),
    {
        proof {
            lemma_keeps_own_registrations(self.event_queue@);
        }
        let ghost m0 = self.intersection_cache@;
        match (left, right) {
            (Some(l), Some(r)) => {
                proof {
                    let idx = choose|idx: int| 0 <= idx < st0.len() && #[trigger] st0.remove(idx) == self.status@ && {
                        &&& left == if idx > 0 { Some(st0[idx - 1]) } else { None::<StatusItem> }
                        &&& right == if idx + 1 < st0.len() { Some(st0[idx + 1]) } else { None::<StatusItem> }
                    };
                    assert(self.status@[idx - 1] == st0[idx - 1]);
                    assert(self.status@[idx] == st0[idx + 1]);
                    assert(item_ok(self.segs(), self.status@[idx - 1]));
                    assert(item_ok(self.segs(), self.status@[idx]));
                }
                self.find_new_event(l.line_segment_id, r.line_segment_id, point);
            },
            _ => {
                proof {
                    lemma_keeps_all_own(self.output@);
                }
            },
        }
        proof {
            let idx = choose|idx: int| 0 <= idx < st0.len() && #[trigger] st0.remove(idx) == self.status@ && {
                &&& left == if idx > 0 { Some(st0[idx - 1]) } else { None::<StatusItem> }
                &&& right == if idx + 1 < st0.len() { Some(st0[idx + 1]) } else { None::<StatusItem> }
            };
            assert(cache_grows(m0, self.intersection_cache@));
            lemma_adjacent_cache_grows(st0, m0, self.intersection_cache@);
            lemma_adjacent_after_remove(st0, idx, self.intersection_cache@);
        }
    }

    /// Inserts `item` into the status at `point` and tests it against its new
    /// neighbors.
    fn insert_and_test(&mut self, item: StatusItem, point: Point)
        requires
            old(self).inv(),
            old(self).ahead_of(point),
            point.wf(),
            item_ok(old(self).segs(), item),
            pending_ok(old(self).segs(), old(self).output@, old(self).event_queue@),
            adjacent_tested(old(self).status@, old(self).intersection_cache@),
        ensures
            final(self).inv(),
            final(self).segs() == old(self).segs(),
            final(self).ahead_of(point),
            pending_ok(final(self).segs(), final(self).output@, final(self).event_queue@),
            exists|idx: int| 0 <= idx <= old(self).status@.len() && #[trigger] old(self).status@.insert(idx, item) == final(self).status@,
            adjacent_tested(final(self).status@, final(self).intersection_cache@),
            keeps_all(old(self).output@, final(self).output@),
            keeps_registrations(old(self).event_queue@, final(self).event_queue@),
    {
        let ghost q0 = self.event_queue@;
        proof {
            lemma_keeps_own_registrations(q0);
        }
        let ghost m0 = self.intersection_cache@;
        let ghost out0 = self.output@;
        let ghost st0 = self.status@;
        let (left, right) = self.status.insert(item, point);
        let ghost st1 = self.status@;
        let ghost idx = choose|idx: int| 0 <= idx <= st0.len() && #[trigger] st0.insert(idx, item) == st1 && {
            &&& left == if idx > 0 { Some(st1[idx - 1]) } else { None::<StatusItem> }
            &&& right == if idx + 1 < st1.len() { Some(st1[idx + 1]) } else { None::<StatusItem> }
        };
        let id = item.line_segment_id;
        if let Some(left) = left {
            proof {
                assert(item_ok(self.segs(), st1[idx - 1]));
            }
            self.find_new_event(id, left.line_segment_id, point);
        } else {
            proof {
                lemma_keeps_all_own(self.output@);
            }
        }
        let ghost out1 = self.output@;
        let ghost m1 = self.intersection_cache@;
        let ghost q1 = self.event_queue@;
        if let Some(right) = right {
            proof {
                assert(item_ok(self.segs(), st1[idx + 1]));
            }
            self.find_new_event(id, right.line_segment_id, point);
        } else {
            proof {
                lemma_keeps_all_own(self.output@);
            }
        }
        proof {
            let m2 = self.intersection_cache@;
            assert(cache_grows(m0, m2));
            assert(cache_grows(m1, m2));
            lemma_adjacent_cache_grows(st0, m0, m2);
            if idx > 0 {
                assert(st1[idx - 1] == st0[idx - 1]);
                assert(tested(m1, id, st0[idx - 1].line_segment_id));
            }
            if idx < st0.len() {
                assert(st1[idx + 1] == st0[idx]);
            }
            lemma_adjacent_after_insert(st0, idx, item, m2);
            lemma_keeps_all_trans(out0, out1, self.output@);
            lemma_keeps_registrations_trans(q0, q1, self.event_queue@);
        }
    }

    fn output_insert(&mut self, p: Point)
        requires
            old(self).inv(),
            p.wf(),
            meeting_point(old(self).segs(), p),
        ensures
            final(self).inv(),
            final(self).segs() == old(self).segs(),
            final(self).event_queue@ == old(self).event_queue@,
            final(self).status@ == old(self).status@,
            final(self).intersection_cache@ == old(self).intersection_cache@,
            keeps_all(old(self).output@, final(self).output@),
            reported(final(self).output@, p),
    {
        let ghost before = self.output@;
        let added = self.output.insert(p);
        proof {
            if added {
                let k = choose|k: int| 0 <= k <= before.len() && self.output@ == before.insert(k, p);
                assert forall|x: Point| #[trigger] before.contains(x) implies self.output@.contains(x) by {
                    let j = choose|j: int| 0 <= j < before.len() && before[j] == x;
                    if j < k {
                        assert(self.output@[j] == before[j]);
                    } else {
                        assert(self.output@[j + 1] == before[j]);
                    }
                }
            } else {
                lemma_keeps_all_own(before);
            }
            let i = choose|i: int| 0 <= i < self.output@.len() && same_point(#[trigger] self.output@[i], p);
            assert(same_point(self.output@[i], p));
            lemma_hits_reported_kept(self.segs(), self.intersection_cache@, before, self.output@);
            assert forall|i: int| 0 <= i < self.output@.len() implies meeting_point(self.segs(), #[trigger] self.output@[i]) by {
                if self.output@[i] != p {
                    let j = choose|j: int| 0 <= j < before.len() && before[j] == self.output@[i];
                    assert(meeting_point(self.segs(), before[j]));
                }
            }
        }
    }

    /// Tests segments `s1_id` and `s2_id`, each test at most once per pair;
    /// a newly found meeting point is reported, and one that lies ahead of
    /// `current_point` becomes an event.
    #[verifier::rlimit(100)]
    #[verifier::spinoff_prover]
    fn find_new_event(&mut self, s1_id: LineSegmentId, s2_id: LineSegmentId, current_point: Point)
        requires
            old(self).inv(),
            s1_id < old(self).segs().len(),
            s2_id < old(self).segs().len(),
            current_point.wf(),
            old(self).ahead_of(current_point),
            pending_ok(old(self).segs(), old(self).output@, old(self).event_queue@),
        ensures
            final(self).inv(),
            final(self).segs() == old(self).segs(),
            final(self).ahead_of(current_point),
            pending_ok(final(self).segs(), final(self).output@, final(self).event_queue@),
            final(self).status@ == old(self).status@,
            keeps_all(old(self).output@, final(self).output@),
            s1_id == s2_id ==> final(self).intersection_cache@ == old(self).intersection_cache@
                && final(self).output@ == old(self).output@,
            s1_id != s2_id ==> final(self).intersection_cache@
                == old(self).intersection_cache@.insert(pair_key(s1_id, s2_id), pair_hit(old(self).segs(), s1_id, s2_id)),
            s1_id != s2_id && pair_hit(old(self).segs(), s1_id, s2_id) is Some
                ==> reported(final(self).output@, pair_hit(old(self).segs(), s1_id, s2_id)->0),
            hit_ahead(old(self).segs(), s1_id, s2_id, current_point) ==> inserted(old(self).event_queue@,
                final(self).event_queue@, pair_hit(old(self).segs(), s1_id, s2_id)->0, EventKind::AsIntersection, s1_id, s2_id),
            !hit_ahead(old(self).segs(), s1_id, s2_id, current_point) ==> final(self).event_queue@ == old(self).event_queue@,
            keeps_registrations(old(self).event_queue@, final(self).event_queue@),
    {
        proof {
            lemma_keeps_own_registrations(self.event_queue@);
        }
        if s1_id == s2_id {
            proof {
                lemma_keeps_all_own(self.output@);
            }
            return;
        }
        let ghost out_start = self.output@;
        let ghost m_start = self.intersection_cache@;
        let ghost segs = self.segs();
        let (lo, hi) = if s1_id < s2_id { (s1_id, s2_id) } else { (s2_id, s1_id) };
        let found = match self.intersection_cache.get(lo, hi) {
            Some(cached) => cached,
            None => {
                proof {
                    assert(segs[lo as int].wf());
                    assert(segs[hi as int].wf());
                }
                let computed = LineSegment::find_intersection(&self.input.segments[lo], &self.input.segments[hi]);
                if let Some(p) = computed {
                    proof {
                        lemma_intersection_lies_on_both(segs[lo as int], segs[hi as int]);
                        assert(lies_on(p, segs[lo as int]) && lies_on(p, segs[hi as int]));
                    }
                    let ghost out0 = self.output@;
                    self.output_insert(p);
                    proof {
                        lemma_keeps_own_registrations(self.event_queue@);
                        lemma_pending_preserved(segs, out0, self.event_queue@, self.output@, self.event_queue@);
                    }
                } else {
                    proof {
                        lemma_keeps_all_own(self.output@);
                    }
                }
                let ghost m0 = self.intersection_cache@;
                self.intersection_cache.record(lo, hi, computed);
                proof {
                    assert forall|a: LineSegmentId, b: LineSegmentId| a < b < segs.len() && #[trigger] self.intersection_cache@.contains_key(pair_key(a, b))
                        && spec_intersection(segs[a as int], segs[b as int]) is Some
                        implies reported(self.output@, spec_intersection(segs[a as int], segs[b as int])->0) by {
                        if pair_key(a, b) == pair_key(lo, hi) {
                            lemma_pair_key_injective(a, b, lo, hi);
                        } else {
                            assert(m0.contains_key(pair_key(a, b)));
                        }
                    }
                    assert forall|a: LineSegmentId, b: LineSegmentId| a < b < segs.len() && #[trigger] self.intersection_cache@.contains_key(pair_key(a, b))
                        implies self.intersection_cache@[pair_key(a, b)] == spec_intersection(segs[a as int], segs[b as int]) by {
                        if pair_key(a, b) == pair_key(lo, hi) {
                            lemma_pair_key_injective(a, b, lo, hi);
                        } else {
                            assert(m0.contains_key(pair_key(a, b)));
                        }
                    }
                }
                computed
            },
        };
        proof {
            assert(pair_key(s1_id, s2_id) == pair_key(lo, hi));
            assert(pair_hit(segs, s1_id, s2_id) == spec_intersection(segs[lo as int], segs[hi as int]));
            if m_start.contains_key(pair_key(lo, hi)) {
                assert(self.intersection_cache@ == m_start);
                assert(m_start.insert(pair_key(lo, hi), m_start[pair_key(lo, hi)]) =~= m_start);
                lemma_keeps_all_own(self.output@);
            }
            assert(self.intersection_cache@ == m_start.insert(pair_key(s1_id, s2_id), pair_hit(segs, s1_id, s2_id)));
            assert(keeps_all(out_start, self.output@));
            if found is Some {
                assert(self.intersection_cache@.contains_key(pair_key(lo, hi)));
                assert(reported(self.output@, found->0));
            }
        }
        let ghost out_mid = self.output@;
        if let Some(p) = found {
            proof {
                assert(found == spec_intersection(segs[lo as int], segs[hi as int]));
                lemma_intersection_lies_on_both(segs[lo as int], segs[hi as int]);
            }
            if matches!(sweep_cmp(&current_point, &p), Ordering::Less) {
                let ghost before = self.event_queue@;
                self.event_queue.insert_intersection(p, s1_id, s2_id);
                proof {
                    assert(keeps_registrations(before, self.event_queue@));
                    lemma_keeps_all_own(self.output@);
                    assert(self.output@ == out_mid);
                    lemma_pending_preserved(segs, self.output@, before, self.output@, self.event_queue@);
                    lemma_all_hits_contains(segs, segs.len() as int, lo as int, hi as int);
                    let cands = candidates(segs);
                    let bf = brute_force_result(segs);
                    let x = choose|x: int| 0 <= x < bf.len() && bf[x] == p;
                    assert(cands[2 * segs.len() + x] == p);
                    assert forall|i: int| 0 <= i < self.event_queue@.len() implies
                        cands.contains(#[trigger] self.event_queue@[i].0) && sweep_before(current_point, self.event_queue@[i].0) by {
                        if self.event_queue@[i].0 != p {
                            let j = choose|j: int| 0 <= j < before.len() && before[j].0 == self.event_queue@[i].0;
                            assert(cands.contains(before[j].0));
                            assert(sweep_before(current_point, before[j].0));
                        }
                    }
                }
            }
        }
    }
}

} // verus!

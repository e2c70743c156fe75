//! Memo of the intersection test per unordered pair of segment ids.
use vstd::prelude::*;
use std::collections::HashMap;
use crate::geometry::Point;
use super::input::{LineSegmentId, MAX_SEGMENTS};

verus! {

broadcast use vstd::std_specs::hash::group_hash_axioms;

/// Packs an unordered pair of distinct ids into one key: the smaller id in
/// the high half, the larger in the low half.
pub open spec fn pair_key(id1: LineSegmentId, id2: LineSegmentId) -> u64 {
    if id1 < id2 {
        (id1 * 0x1_0000_0000 + id2) as u64
    } else {
        (id2 * 0x1_0000_0000 + id1) as u64
    }
}

/// Two pairs share a key only if they are the same unordered pair.
pub proof fn lemma_pair_key_injective(a: LineSegmentId, b: LineSegmentId, c: LineSegmentId, d: LineSegmentId)
    requires
        a < b <= MAX_SEGMENTS,
        c < d <= MAX_SEGMENTS,
        pair_key(a, b) == pair_key(c, d),
    ensures
        a == c && b == d,
{
    let k: int = 0x1_0000_0000;
    assert(0 <= a * k <= MAX_SEGMENTS * k) by (nonlinear_arith)
        requires 0 <= a <= MAX_SEGMENTS, k > 0;
    assert(0 <= c * k <= MAX_SEGMENTS * k) by (nonlinear_arith)
        requires 0 <= c <= MAX_SEGMENTS, k > 0;
    assert(a * k + b == c * k + d);
    assert(a == c) by (nonlinear_arith)
        requires a * k + b == c * k + d, 0 <= b < k, 0 <= d < k, k > 0;
}

/// Id pair built from two distinct ids, smaller first.
#[derive(Clone, Copy, Debug, PartialEq, Eq, Structural)]
pub struct SegmentPair(pub LineSegmentId, pub LineSegmentId);

impl SegmentPair {
    /// The pair of `id1` and `id2` in increasing order.
    pub fn new(id1: LineSegmentId, id2: LineSegmentId) -> (r: SegmentPair)
        requires
            id1 != id2,
        ensures
            r.0 < r.1,
            (r.0 == id1 && r.1 == id2) || (r.0 == id2 && r.1 == id1),
    {
        if id1 < id2 {
            SegmentPair(id1, id2)
        } else {
            SegmentPair(id2, id1)
        }
    }

    fn key(&self) -> (r: u64)
        requires
            self.0 < self.1 <= MAX_SEGMENTS,
        ensures
            r == pair_key(self.0, self.1),
    {
        let k: u64 = 0x1_0000_0000;
        proof {
            assert(self.0 * k <= MAX_SEGMENTS * k) by (nonlinear_arith)
                requires self.0 <= MAX_SEGMENTS, k > 0;
        }
        (self.0 as u64) * k + (self.1 as u64)
    }
}

/// Results of the intersection test, by unordered pair of ids: `Some(p)`
/// where the pair meets at `p`, `None` where it was tested and does not meet.
pub struct IntersectionMap {
    map: HashMap<u64, Option<Point>>,
}

impl View for IntersectionMap {
    type V = Map<u64, Option<Point>>;

    closed spec fn view(&self) -> Map<u64, Option<Point>> {
        self.map@
    }
}

impl IntersectionMap {
    /// A cache in which no pair was tested.
    pub fn new() -> (r: IntersectionMap)
        ensures
            r@ == Map::<u64, Option<Point>>::empty(),
    {
        IntersectionMap { map: HashMap::new() }
    }

    /// The recorded result for the pair, if it was tested.
    pub fn get(&self, id1: LineSegmentId, id2: LineSegmentId) -> (r: Option<Option<Point>>)
        requires
            id1 != id2,
            id1 <= MAX_SEGMENTS,
            id2 <= MAX_SEGMENTS,
        ensures
            r == if self@.contains_key(pair_key(id1, id2)) {
                Some(self@[pair_key(id1, id2)])
            } else {
                None
            },
    {
        let k = SegmentPair::new(id1, id2).key();
        match self.map.get(&k) {
            Some(r) => Some(*r),
            None => None,
        }
    }

    /// The point where the pair meets, if it was tested and found to meet.
    pub fn lookup(&self, id1: LineSegmentId, id2: LineSegmentId) -> (r: Option<Point>)
        requires
            id1 != id2,
            id1 <= MAX_SEGMENTS,
            id2 <= MAX_SEGMENTS,
        ensures
            r == if self@.contains_key(pair_key(id1, id2)) {
                self@[pair_key(id1, id2)]
            } else {
                None
            },
    {
        match self.get(id1, id2) {
            Some(r) => r,
            None => None,
        }
    }

    /// Records the result of testing the pair, in either order of the ids.
    pub fn record(&mut self, id1: LineSegmentId, id2: LineSegmentId, result: Option<Point>)
        requires
            id1 != id2,
            id1 <= MAX_SEGMENTS,
            id2 <= MAX_SEGMENTS,
        ensures
            final(self)@ == old(self)@.insert(pair_key(id1, id2), result),
    {
        let k = SegmentPair::new(id1, id2).key();
        self.map.insert(k, result);
    }

    /// Records that the pair meets at `point`.
    pub fn insert(&mut self, id1: LineSegmentId, id2: LineSegmentId, point: Point)
        requires
            id1 != id2,
            id1 <= MAX_SEGMENTS,
            id2 <= MAX_SEGMENTS,
        ensures
            final(self)@ == old(self)@.insert(pair_key(id1, id2), Some(point)),
    {
        self.record(id1, id2, Some(point));
    }
}

} // verus!

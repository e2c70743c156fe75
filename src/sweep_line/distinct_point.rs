//! Points compared exactly, and the set of distinct output points.
use vstd::prelude::*;
use std::cmp::Ordering;
use crate::geometry::{Point, same_point, output_before, output_cmp, lemma_output_trans,
    lemma_sweep_total};

verus! {

/// A point ordered by x, then by y.
#[derive(Clone, Copy, Debug)]
pub struct DistinctPoint(pub Point);

impl DistinctPoint {
    pub fn new(point: Point) -> (r: DistinctPoint)
        requires
            point.wf(),
        ensures
            r.0 == point,
    {
        DistinctPoint(point)
    }

    /// `Less` when `self` has the smaller x, or the same x and the smaller y.
    pub fn cmp(&self, other: &DistinctPoint) -> (r: Ordering)
        ensures
            (r == Ordering::Less) <==> output_before(self.0, other.0),
            (r == Ordering::Equal) <==> same_point(self.0, other.0),
            (r == Ordering::Greater) <==> output_before(other.0, self.0),
    {
        output_cmp(&self.0, &other.0)
    }
}

/// Points strictly increasing by x, then y: each location at most once.
pub open spec fn strictly_ordered(v: Seq<Point>) -> bool {
    forall|i: int, j: int| 0 <= i < j < v.len() ==> output_before(#[trigger] v[i], #[trigger] v[j])
}

/// A set of distinct points, kept in increasing order.
pub struct DistinctPointSet {
    points: Vec<Point>,
}

impl View for DistinctPointSet {
    type V = Seq<Point>;

    closed spec fn view(&self) -> Seq<Point> {
        self.points@
    }
}

impl DistinctPointSet {
    pub open spec fn wf(&self) -> bool {
        &&& strictly_ordered(self@)
        &&& forall|i: int| 0 <= i < self@.len() ==> (#[trigger] self@[i]).wf()
    }

    pub fn new() -> (r: DistinctPointSet)
        ensures
            r.wf(),
            r@.len() == 0,
    {
        DistinctPointSet { points: Vec::new() }
    }

    /// Adds `p` unless the set holds the same point; returns whether it was
    /// added.
    pub fn insert(&mut self, p: Point) -> (r: bool)
        requires
            old(self).wf(),
            p.wf(),
        ensures
            final(self).wf(),
            r == !(exists|i: int| 0 <= i < old(self)@.len() && same_point(#[trigger] old(self)@[i], p)),
            !r ==> final(self)@ == old(self)@,
            r ==> exists|k: int| 0 <= k <= old(self)@.len() && final(self)@ == old(self)@.insert(k, p),
            forall|i: int| 0 <= i < final(self)@.len() ==> (#[trigger] final(self)@[i]) == p
                || old(self)@.contains(final(self)@[i]),
            exists|i: int| 0 <= i < final(self)@.len() && same_point(#[trigger] final(self)@[i], p),
    {
        let ghost v = self@;
        let mut k: usize = 0;
        while k < self.points.len() && matches!(output_cmp(&self.points[k], &p), Ordering::Less)
            invariant
                self@ == v,
                k <= v.len(),
                forall|j: int| 0 <= j < k ==> output_before(#[trigger] v[j], p),
            decreases v.len() - k,
        {
            k += 1;
        }
        if k < self.points.len() && matches!(output_cmp(&self.points[k], &p), Ordering::Equal) {
            proof {
                assert forall|i: int| 0 <= i < v.len() implies !same_point(#[trigger] v[i], p) || i == k by {
                    lemma_sweep_total(v[i], p);
                    if i < k {
                        assert(output_before(v[i], p));
                    } else if i > k {
                        lemma_output_trans(v[k as int], v[i], p);
                        lemma_sweep_total(v[k as int], v[i]);
                        if same_point(v[i], p) {
                            lemma_output_trans(v[k as int], v[i], p);
                            lemma_sweep_total(v[i], p);
                        }
                    }
                }
                assert forall|i: int| 0 <= i < self@.len() implies (#[trigger] self@[i]) == p || v.contains(self@[i]) by {
                    assert(v[i] == self@[i]);
                }
            }
            false
        } else {
            proof {
                if k < v.len() {
                    lemma_sweep_total(v[k as int], p);
                    assert forall|j: int| k < j < v.len() implies output_before(p, #[trigger] v[j]) by {
                        lemma_output_trans(p, v[k as int], v[j]);
                    }
                }
                assert forall|i: int| 0 <= i < v.len() implies !same_point(#[trigger] v[i], p) by {
                    lemma_sweep_total(v[i], p);
                }
            }
            self.points.insert(k, p);
            proof {
                assert(self@ == v.insert(k as int, p));
                assert(same_point(self@[k as int], p));
                assert forall|i: int| 0 <= i < self@.len() implies (#[trigger] self@[i]) == p || v.contains(self@[i]) by {
                    if i < k {
                        assert(v[i] == self@[i]);
                    } else if i > k {
                        assert(v[i - 1] == self@[i]);
                    }
                }
            }
            true
        }
    }

    /// The points, in increasing order.
    pub fn to_vec(&self) -> (r: Vec<Point>)
        ensures
            r@ == self@,
    {
        let mut r: Vec<Point> = Vec::new();
        let mut i: usize = 0;
        while i < self.points.len()
            invariant
                i <= self@.len(),
                r@ == self@.take(i as int),
            decreases self@.len() - i,
        {
            r.push(self.points[i]);
            i += 1;
            proof {
                assert(r@ == self@.take(i as int));
            }
        }
        proof {
            assert(self@.take(self@.len() as int) == self@);
        }
        r
    }
}

} // verus!

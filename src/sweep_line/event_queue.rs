//! The event queue: the points where the sweep must stop, in sweep order,
//! each with the segments that start, end or cross there.
use vstd::prelude::*;
use std::cmp::Ordering;
use crate::geometry::{Point, LineSegment, same_point, sweep_before, sweep_cmp, lies_on,
    lemma_sweep_trans, lemma_sweep_total, lemma_lies_on_same_point};
use super::input::{Input, LineSegmentId};

verus! {

/// How a segment relates to an event point.
#[derive(PartialEq, Eq, Structural, Clone, Copy, Debug)]
pub enum EventKind {
    AsUpperEndpoint,
    AsLowerEndpoint,
    AsIntersection,
}

/// The segments that meet one event point, by how they meet it. Each list
/// holds an id at most once.
pub struct EventData {
    pub as_upper_endpoint: Vec<LineSegmentId>,
    pub as_lower_endpoint: Vec<LineSegmentId>,
    pub as_interior: Vec<LineSegmentId>,
}

/// `v` with `id` appended unless it holds it already.
pub open spec fn with_id(v: Seq<LineSegmentId>, id: LineSegmentId) -> Seq<LineSegmentId> {
    if v.contains(id) {
        v
    } else {
        v.push(id)
    }
}

proof fn lemma_with_id(v: Seq<LineSegmentId>, id: LineSegmentId)
    ensures
        with_id(v, id).contains(id),
        forall|x: LineSegmentId| v.contains(x) ==> with_id(v, id).contains(x),
        v.no_duplicates() ==> with_id(v, id).no_duplicates(),
        v.len() <= with_id(v, id).len() <= v.len() + 1,
        v.len() == 0 ==> with_id(v, id) == seq![id],
{
    if !v.contains(id) {
        assert(v.push(id)[v.len() as int] == id);
        assert forall|x: LineSegmentId| v.contains(x) implies with_id(v, id).contains(x) by {
            let i = choose|i: int| 0 <= i < v.len() && v[i] == x;
            assert(v.push(id)[i] == x);
        }
    }
    if v.len() == 0 {
        assert(v.push(id) == seq![id]);
    }
}

fn add_id(v: &mut Vec<LineSegmentId>, id: LineSegmentId)
    ensures
        final(v)@ == with_id(old(v)@, id),
{
    let mut i: usize = 0;
    while i < v.len()
        invariant
            i <= v@.len(),
            forall|j: int| 0 <= j < i ==> v@[j] != id,
        decreases v@.len() - i,
    {
        if v[i] == id {
            return;
        }
        i += 1;
    }
    v.push(id);
}

impl EventData {
    /// Data of a point that no segment meets yet.
    pub fn new() -> (r: EventData)
        ensures
            r.as_upper_endpoint@.len() == 0,
            r.as_lower_endpoint@.len() == 0,
            r.as_interior@.len() == 0,
    {
        EventData { as_upper_endpoint: Vec::new(), as_lower_endpoint: Vec::new(), as_interior: Vec::new() }
    }

    /// The ids registered under `kind`.
    pub open spec fn ids(self, kind: EventKind) -> Seq<LineSegmentId> {
        match kind {
            EventKind::AsUpperEndpoint => self.as_upper_endpoint@,
            EventKind::AsLowerEndpoint => self.as_lower_endpoint@,
            EventKind::AsIntersection => self.as_interior@,
        }
    }

    /// Registers `id` under `kind`; a second registration changes nothing.
    fn add(&mut self, kind: EventKind, id: LineSegmentId)
        ensures
            final(self).ids(kind) == with_id(old(self).ids(kind), id),
            forall|k: EventKind| k != kind ==> final(self).ids(k) == old(self).ids(k),
    {
        match kind {
            EventKind::AsUpperEndpoint => add_id(&mut self.as_upper_endpoint, id),
            EventKind::AsLowerEndpoint => add_id(&mut self.as_lower_endpoint, id),
            EventKind::AsIntersection => add_id(&mut self.as_interior, id),
        }
    }
}

/// `d1` is `d0` with `id1` and `id2` registered under `kind`, and nothing
/// else changed.
pub open spec fn merged(d0: EventData, d1: EventData, kind: EventKind, id1: LineSegmentId, id2: LineSegmentId) -> bool {
    &&& d1.ids(kind) == with_id(with_id(d0.ids(kind), id1), id2)
    &&& forall|k: EventKind| k != kind ==> #[trigger] d1.ids(k) == d0.ids(k)
}

/// `d` holds only `id1` and `id2`, registered under `kind`.
pub open spec fn fresh_with(d: EventData, kind: EventKind, id1: LineSegmentId, id2: LineSegmentId) -> bool {
    &&& d.ids(kind) == with_id(with_id(Seq::empty(), id1), id2)
    &&& forall|k: EventKind| k != kind ==> (#[trigger] d.ids(k)).len() == 0
}

/// `after` is `before` with `id1` and `id2` registered under `kind` at `p`:
/// merged into the entry of the same point if there is one, else in a new
/// entry at its place in sweep order; every other entry is unchanged.
pub open spec fn inserted(
    before: Seq<(Point, EventData)>,
    after: Seq<(Point, EventData)>,
    p: Point,
    kind: EventKind,
    id1: LineSegmentId,
    id2: LineSegmentId,
) -> bool {
    if exists|k: int| 0 <= k < before.len() && #[trigger] same_point(before[k].0, p) {
        exists|k: int| 0 <= k < before.len() && #[trigger] same_point(before[k].0, p)
            && after.len() == before.len() && after[k].0 == before[k].0
            && merged(before[k].1, after[k].1, kind, id1, id2)
            && forall|i: int| 0 <= i < before.len() && i != k ==> #[trigger] after[i] == before[i]
    } else {
        exists|k: int| 0 <= k <= before.len() && after.len() == before.len() + 1
            && (#[trigger] after[k]).0 == p && fresh_with(after[k].1, kind, id1, id2)
            && (forall|i: int| 0 <= i < k ==> #[trigger] after[i] == before[i])
            && (forall|i: int| k < i < after.len() ==> #[trigger] after[i] == before[i - 1])
    }
}

/// `p` relates to segment `id` as `kind` says.
pub open spec fn event_ok(segs: Seq<LineSegment>, p: Point, kind: EventKind, id: LineSegmentId) -> bool {
    &&& id < segs.len()
    &&& match kind {
        EventKind::AsUpperEndpoint => same_point(p, segs[id as int].upper()),
        EventKind::AsLowerEndpoint => same_point(p, segs[id as int].lower()),
        EventKind::AsIntersection => lies_on(p, segs[id as int]),
    }
}

pub open spec fn ids_ok(segs: Seq<LineSegment>, p: Point, d: EventData, kind: EventKind) -> bool {
    &&& d.ids(kind).no_duplicates()
    &&& forall|i: int| 0 <= i < d.ids(kind).len() ==> event_ok(segs, p, kind, #[trigger] d.ids(kind)[i])
}

/// Every registration at `p` is true of its segment, and crossings come in
/// pairs of distinct segments.
pub open spec fn data_ok(segs: Seq<LineSegment>, p: Point, d: EventData) -> bool {
    &&& p.wf()
    &&& ids_ok(segs, p, d, EventKind::AsUpperEndpoint)
    &&& ids_ok(segs, p, d, EventKind::AsLowerEndpoint)
    &&& ids_ok(segs, p, d, EventKind::AsIntersection)
    &&& d.as_interior@.len() != 1
}

/// A point ordered by the sweep: greater y first, then smaller x.
#[derive(Clone, Copy, Debug)]
pub struct EventPoint(pub Point);

impl EventPoint {
    /// `Less` when `self` is swept before `other`.
    pub fn cmp(&self, other: &EventPoint) -> (r: Ordering)
        ensures
            (r == Ordering::Less) <==> sweep_before(self.0, other.0),
            (r == Ordering::Equal) <==> same_point(self.0, other.0),
            (r == Ordering::Greater) <==> sweep_before(other.0, self.0),
    {
        sweep_cmp(&self.0, &other.0)
    }
}

/// Priority queue of event points, smallest in sweep order first.
pub struct EventQueue<'a> {
    entries: Vec<(Point, EventData)>,
    input: &'a Input,
}

impl<'a> View for EventQueue<'a> {
    type V = Seq<(Point, EventData)>;

    closed spec fn view(&self) -> Seq<(Point, EventData)> {
        self.entries@
    }
}

/// Points strictly increase in sweep order, and every entry is sound.
pub open spec fn queue_ok(segs: Seq<LineSegment>, v: Seq<(Point, EventData)>) -> bool {
    &&& forall|i: int, j: int| 0 <= i < j < v.len() ==> sweep_before(#[trigger] v[i].0, #[trigger] v[j].0)
    &&& forall|i: int| 0 <= i < v.len() ==> data_ok(segs, #[trigger] v[i].0, v[i].1)
}

proof fn lemma_event_ok_same_point(segs: Seq<LineSegment>, p: Point, q: Point, kind: EventKind, id: LineSegmentId)
    requires
        forall|i: int| 0 <= i < segs.len() ==> (#[trigger] segs[i]).wf(),
        p.wf(),
        q.wf(),
        same_point(p, q),
        event_ok(segs, p, kind, id),
    ensures
        event_ok(segs, q, kind, id),
{
    let s = segs[id as int];
    assert(s.wf());
    lemma_sweep_total(p, q);
    match kind {
        EventKind::AsUpperEndpoint => lemma_sweep_trans(q, p, s.upper()),
        EventKind::AsLowerEndpoint => lemma_sweep_trans(q, p, s.lower()),
        EventKind::AsIntersection => lemma_lies_on_same_point(p, q, s),
    }
}

/// `after` is what is left of `before` once `e` has been dequeued.
pub open spec fn dequeued(before: Seq<(Point, EventData)>, e: (Point, EventData), after: Seq<(Point, EventData)>) -> bool {
    &&& before.len() > 0
    &&& e == before[0]
    &&& after == before.drop_first()
}

/// Two successive dequeues from a well-formed queue return points in
/// strictly increasing sweep order: greater y first, then smaller x.
pub proof fn lemma_dequeue_order(
    segs: Seq<LineSegment>,
    v0: Seq<(Point, EventData)>,
    e1: (Point, EventData),
    v1: Seq<(Point, EventData)>,
    e2: (Point, EventData),
    v2: Seq<(Point, EventData)>,
)
    requires
        queue_ok(segs, v0),
        dequeued(v0, e1, v1),
        dequeued(v1, e2, v2),
    ensures
        sweep_before(e1.0, e2.0),
{
    assert(v1[0] == v0[1]);
}

impl<'a> EventQueue<'a> {
    /// The segments that ids refer to.
    pub closed spec fn segs(&self) -> Seq<LineSegment> {
        self.input.segments@
    }

    pub open spec fn wf(&self) -> bool {
        &&& forall|i: int| 0 <= i < self.segs().len() ==> (#[trigger] self.segs()[i]).wf()
        &&& queue_ok(self.segs(), self@)
    }

    /// An empty queue over the segments of `input`.
    pub fn new(input: &'a Input) -> (r: EventQueue<'a>)
        requires
            input.wf(),
        ensures
            r.wf(),
            r@.len() == 0,
            r.segs() == input.segments@,
    {
        EventQueue { entries: Vec::new(), input }
    }

    /// Registers `id1` and `id2` under `kind` at `p`, creating the entry of
    /// `p` if there is none.
    fn insert_event(&mut self, p: Point, kind: EventKind, id1: LineSegmentId, id2: LineSegmentId)
        requires
            old(self).wf(),
            p.wf(),
            event_ok(old(self).segs(), p, kind, id1),
            event_ok(old(self).segs(), p, kind, id2),
            kind == EventKind::AsIntersection ==> id1 != id2,
        ensures
            final(self).wf(),
            final(self).segs() == old(self).segs(),
            forall|i: int| 0 <= i < final(self)@.len() ==>
                (#[trigger] final(self)@[i]).0 == p || exists|j: int| 0 <= j < old(self)@.len() && old(self)@[j].0 == final(self)@[i].0,
            forall|j: int, k: EventKind, id: LineSegmentId| 0 <= j < old(self)@.len() && #[trigger] old(self)@[j].1.ids(k).contains(id) ==>
                exists|i: int| 0 <= i < final(self)@.len() && final(self)@[i].0 == old(self)@[j].0 && final(self)@[i].1.ids(k).contains(id),
            exists|i: int| 0 <= i < final(self)@.len() && same_point(#[trigger] final(self)@[i].0, p)
                && final(self)@[i].1.ids(kind).contains(id1) && final(self)@[i].1.ids(kind).contains(id2),
            inserted(old(self)@, final(self)@, p, kind, id1, id2),
    {
        let ghost segs = self.segs();
        let ghost old_v = self@;
        let mut k: usize = 0;
        while k < self.entries.len() && matches!(sweep_cmp(&self.entries[k].0, &p), Ordering::Less)
            invariant
                self@ == old_v,
                self.segs() == segs,
                k <= old_v.len(),
                forall|j: int| 0 <= j < k ==> sweep_before(#[trigger] old_v[j].0, p),
            decreases old_v.len() - k,
        {
            k += 1;
        }
        if k < self.entries.len() && matches!(sweep_cmp(&self.entries[k].0, &p), Ordering::Equal) {
            let (key, mut data) = self.entries.remove(k);
            let ghost d0 = data;
            proof {
                assert(data_ok(segs, old_v[k as int].0, old_v[k as int].1));
                lemma_sweep_total(key, p);
                lemma_event_ok_same_point(segs, p, key, kind, id1);
                lemma_event_ok_same_point(segs, p, key, kind, id2);
            }
            data.add(kind, id1);
            let ghost d1 = data;
            data.add(kind, id2);
            proof {
                lemma_with_id(d0.ids(kind), id1);
                lemma_with_id(d1.ids(kind), id2);
                assert(ids_ok(segs, key, d0, EventKind::AsUpperEndpoint));
                assert(ids_ok(segs, key, d0, EventKind::AsLowerEndpoint));
                assert(ids_ok(segs, key, d0, EventKind::AsIntersection));
                assert(data.ids(kind).contains(id1));
                assert(data.ids(kind).contains(id2));
                assert forall|i: int| 0 <= i < data.ids(kind).len() implies event_ok(segs, key, kind, #[trigger] data.ids(kind)[i]) by {
                    let x = data.ids(kind)[i];
                    if x != id1 && x != id2 {
                        assert(data.ids(kind).contains(x));
                        assert(d1.ids(kind).contains(x));
                        assert(d0.ids(kind).contains(x));
                    }
                }
                if kind == EventKind::AsIntersection {
                    if d0.as_interior@.len() == 0 {
                        assert(d1.as_interior@ == seq![id1]);
                        assert(!d1.as_interior@.contains(id2));
                    }
                }
                assert(ids_ok(segs, key, data, EventKind::AsUpperEndpoint));
                assert(ids_ok(segs, key, data, EventKind::AsLowerEndpoint));
                assert(ids_ok(segs, key, data, EventKind::AsIntersection));
            }
            self.entries.insert(k, (key, data));
            proof {
                assert(self@ == old_v.update(k as int, (key, data)));
                assert(same_point(self@[k as int].0, p));
                assert(same_point(old_v[k as int].0, p));
                assert(merged(old_v[k as int].1, self@[k as int].1, kind, id1, id2));
                assert forall|i: int| 0 <= i < old_v.len() && i != k implies #[trigger] self@[i] == old_v[i] by {}
                assert(inserted(old_v, self@, p, kind, id1, id2));
                assert forall|j: int, k2: EventKind, id: LineSegmentId| 0 <= j < old_v.len() && #[trigger] old_v[j].1.ids(k2).contains(id) implies
                    exists|i: int| 0 <= i < self@.len() && self@[i].0 == old_v[j].0 && self@[i].1.ids(k2).contains(id) by {
                    assert(self@[j].0 == old_v[j].0);
                    if j == k {
                        if k2 == kind {
                            assert(d0.ids(kind).contains(id));
                            assert(d1.ids(kind).contains(id));
                            assert(data.ids(kind).contains(id));
                        }
                    }
                }
            }
        } else {
            let mut data = EventData::new();
            let ghost d0 = data;
            data.add(kind, id1);
            let ghost d1 = data;
            data.add(kind, id2);
            proof {
                lemma_with_id(d0.ids(kind), id1);
                lemma_with_id(d1.ids(kind), id2);
                assert(d1.ids(kind) == seq![id1]);
                if id2 != id1 {
                    assert(!d1.ids(kind).contains(id2));
                    assert(data.ids(kind) == seq![id1, id2]);
                } else {
                    assert(d1.ids(kind).contains(id2));
                    assert(data.ids(kind) == seq![id1]);
                }
                assert(ids_ok(segs, p, data, EventKind::AsUpperEndpoint));
                assert(ids_ok(segs, p, data, EventKind::AsLowerEndpoint));
                assert(ids_ok(segs, p, data, EventKind::AsIntersection));
                if k < old_v.len() {
                    lemma_sweep_total(old_v[k as int].0, p);
                    assert forall|j: int| k < j < old_v.len() implies sweep_before(p, #[trigger] old_v[j].0) by {
                        lemma_sweep_trans(p, old_v[k as int].0, old_v[j].0);
                    }
                }
            }
            self.entries.insert(k, (p, data));
            proof {
                assert(self@ == old_v.insert(k as int, (p, data)));
                assert(same_point(self@[k as int].0, p));
                assert forall|j: int| 0 <= j < old_v.len() implies !#[trigger] same_point(old_v[j].0, p) by {
                    lemma_sweep_total(old_v[j].0, p);
                    if j < k {
                        assert(sweep_before(old_v[j].0, p));
                    } else if j > k {
                        assert(sweep_before(p, old_v[j].0));
                    }
                }
                assert(d0.ids(kind) == Seq::<LineSegmentId>::empty());
                assert(fresh_with(self@[k as int].1, kind, id1, id2));
                assert forall|i: int| 0 <= i < k implies #[trigger] self@[i] == old_v[i] by {}
                assert forall|i: int| k < i < self@.len() implies #[trigger] self@[i] == old_v[i - 1] by {}
                assert(inserted(old_v, self@, p, kind, id1, id2));
                assert forall|i: int| 0 <= i < self@.len() implies
                    (#[trigger] self@[i]).0 == p || exists|j: int| 0 <= j < old_v.len() && old_v[j].0 == self@[i].0 by {
                    if i < k {
                        assert(old_v[i].0 == self@[i].0);
                    } else if i > k {
                        assert(old_v[i - 1].0 == self@[i].0);
                    }
                }
                assert forall|j: int, k2: EventKind, id: LineSegmentId| 0 <= j < old_v.len() && #[trigger] old_v[j].1.ids(k2).contains(id) implies
                    exists|i: int| 0 <= i < self@.len() && self@[i].0 == old_v[j].0 && self@[i].1.ids(k2).contains(id) by {
                    if j < k {
                        assert(self@[j] == old_v[j]);
                    } else {
                        assert(self@[j + 1] == old_v[j]);
                    }
                }
            }
        }
    }

    /// Registers segment `id` at its upper and its lower endpoint.
    pub fn insert_segment(&mut self, id: LineSegmentId)
        requires
            old(self).wf(),
            id < old(self).segs().len(),
        ensures
            final(self).wf(),
            final(self).segs() == old(self).segs(),
            forall|i: int| 0 <= i < final(self)@.len() ==>
                (#[trigger] final(self)@[i]).0 == old(self).segs()[id as int].p1
                || final(self)@[i].0 == old(self).segs()[id as int].p2
                || exists|j: int| 0 <= j < old(self)@.len() && old(self)@[j].0 == final(self)@[i].0,
            forall|j: int, k: EventKind, id2: LineSegmentId| 0 <= j < old(self)@.len() && #[trigger] old(self)@[j].1.ids(k).contains(id2) ==>
                exists|i: int| 0 <= i < final(self)@.len() && final(self)@[i].0 == old(self)@[j].0 && final(self)@[i].1.ids(k).contains(id2),
            exists|i: int| 0 <= i < final(self)@.len() && same_point(#[trigger] final(self)@[i].0, old(self).segs()[id as int].upper())
                && final(self)@[i].1.as_upper_endpoint@.contains(id),
            exists|i: int| 0 <= i < final(self)@.len() && same_point(#[trigger] final(self)@[i].0, old(self).segs()[id as int].lower())
                && final(self)@[i].1.as_lower_endpoint@.contains(id),
            exists|mid: Seq<(Point, EventData)>|
                inserted(old(self)@, mid, old(self).segs()[id as int].upper(), EventKind::AsUpperEndpoint, id, id)
                && #[trigger] inserted(mid, final(self)@, old(self).segs()[id as int].lower(), EventKind::AsLowerEndpoint, id, id),
    {
        let s = self.input.segments[id];
        proof {
            assert(s.wf());
            lemma_sweep_total(s.p1, s.p2);
        }
        let (upper, lower) = if matches!(sweep_cmp(&s.p1, &s.p2), Ordering::Less) {
            (s.p1, s.p2)
        } else {
            (s.p2, s.p1)
        };
        let ghost v0 = self@;
        self.insert_event(upper, EventKind::AsUpperEndpoint, id, id);
        let ghost v1 = self@;
        self.insert_event(lower, EventKind::AsLowerEndpoint, id, id);
        proof {
            assert(upper == s.upper() && lower == s.lower());
            assert(inserted(v1, self@, s.lower(), EventKind::AsLowerEndpoint, id, id));
            let i = choose|i: int| 0 <= i < v1.len() && same_point(#[trigger] v1[i].0, upper)
                && v1[i].1.ids(EventKind::AsUpperEndpoint).contains(id);
            assert(v1[i].1.ids(EventKind::AsUpperEndpoint).contains(id));
            let i2 = choose|i2: int| 0 <= i2 < self@.len() && self@[i2].0 == v1[i].0
                && self@[i2].1.ids(EventKind::AsUpperEndpoint).contains(id);
            assert(same_point(self@[i2].0, upper));
            assert forall|j: int, k: EventKind, id2: LineSegmentId| 0 <= j < v0.len() && #[trigger] v0[j].1.ids(k).contains(id2) implies
                exists|i: int| 0 <= i < self@.len() && self@[i].0 == v0[j].0 && self@[i].1.ids(k).contains(id2) by {
                let i1 = choose|i1: int| 0 <= i1 < v1.len() && v1[i1].0 == v0[j].0 && v1[i1].1.ids(k).contains(id2);
                assert(v1[i1].1.ids(k).contains(id2));
            }
            assert forall|i: int| 0 <= i < self@.len() implies
                (#[trigger] self@[i]).0 == s.p1 || self@[i].0 == s.p2
                || exists|j: int| 0 <= j < v0.len() && v0[j].0 == self@[i].0 by {
                if self@[i].0 != lower {
                    let j1 = choose|j: int| 0 <= j < v1.len() && v1[j].0 == self@[i].0;
                    if v1[j1].0 != upper {
                        let j0 = choose|j: int| 0 <= j < v0.len() && v0[j].0 == v1[j1].0;
                    }
                }
            }
        }
    }

    /// Registers `id1` and `id2` as crossing at `p`. Registering the same
    /// pair at the same point again changes nothing.
    pub fn insert_intersection(&mut self, p: Point, id1: LineSegmentId, id2: LineSegmentId)
        requires
            old(self).wf(),
            p.wf(),
            id1 != id2,
            id1 < old(self).segs().len(),
            id2 < old(self).segs().len(),
            lies_on(p, old(self).segs()[id1 as int]),
            lies_on(p, old(self).segs()[id2 as int]),
        ensures
            final(self).wf(),
            final(self).segs() == old(self).segs(),
            forall|i: int| 0 <= i < final(self)@.len() ==>
                (#[trigger] final(self)@[i]).0 == p || exists|j: int| 0 <= j < old(self)@.len() && old(self)@[j].0 == final(self)@[i].0,
            forall|j: int, k: EventKind, id: LineSegmentId| 0 <= j < old(self)@.len() && #[trigger] old(self)@[j].1.ids(k).contains(id) ==>
                exists|i: int| 0 <= i < final(self)@.len() && final(self)@[i].0 == old(self)@[j].0 && final(self)@[i].1.ids(k).contains(id),
            exists|i: int| 0 <= i < final(self)@.len() && same_point(#[trigger] final(self)@[i].0, p)
                && final(self)@[i].1.as_interior@.contains(id1) && final(self)@[i].1.as_interior@.contains(id2),
            inserted(old(self)@, final(self)@, p, EventKind::AsIntersection, id1, id2),
            (exists|e: int| 0 <= e < old(self)@.len() && #[trigger] same_point(old(self)@[e].0, p)
                && old(self)@[e].1.as_interior@.contains(id1) && old(self)@[e].1.as_interior@.contains(id2))
                ==> final(self)@.len() == old(self)@.len() && forall|i: int, k: EventKind| 0 <= i < old(self)@.len() ==>
                    final(self)@[i].0 == old(self)@[i].0 && #[trigger] final(self)@[i].1.ids(k) == old(self)@[i].1.ids(k),
    {
        let ghost v0 = self@;
        self.insert_event(p, EventKind::AsIntersection, id1, id2);
        proof {
            if exists|e: int| 0 <= e < v0.len() && #[trigger] same_point(v0[e].0, p)
                && v0[e].1.as_interior@.contains(id1) && v0[e].1.as_interior@.contains(id2) {
                let e = choose|e: int| 0 <= e < v0.len() && #[trigger] same_point(v0[e].0, p)
                    && v0[e].1.as_interior@.contains(id1) && v0[e].1.as_interior@.contains(id2);
                let k = choose|k: int| 0 <= k < v0.len() && #[trigger] same_point(v0[k].0, p)
                    && self@.len() == v0.len() && self@[k].0 == v0[k].0
                    && merged(v0[k].1, self@[k].1, EventKind::AsIntersection, id1, id2)
                    && forall|i: int| 0 <= i < v0.len() && i != k ==> #[trigger] self@[i] == v0[i];
                lemma_sweep_total(v0[e].0, p);
                lemma_sweep_total(v0[k].0, p);
                lemma_sweep_trans(v0[e].0, p, v0[k].0);
                if e < k {
                    assert(sweep_before(v0[e].0, v0[k].0));
                } else if k < e {
                    assert(sweep_before(v0[k].0, v0[e].0));
                }
                assert(v0[k].1.ids(EventKind::AsIntersection).contains(id1));
                assert forall|i: int, kk: EventKind| 0 <= i < v0.len() implies
                    self@[i].0 == v0[i].0 && #[trigger] self@[i].1.ids(kk) == v0[i].1.ids(kk) by {
                    if i != k {
                        assert(self@[i] == v0[i]);
                    }
                }
            }
        }
    }

    /// Removes and returns the event point that comes first in sweep order.
    pub fn dequeue_point(&mut self) -> (r: Option<(Point, EventData)>)
        requires
            old(self).wf(),
        ensures
            final(self).wf(),
            final(self).segs() == old(self).segs(),
            old(self)@.len() == 0 ==> r is None && final(self)@ == old(self)@,
            old(self)@.len() > 0 ==> r is Some && dequeued(old(self)@, r->0, final(self)@),
            r matches Some(e) ==> forall|i: int| 0 <= i < final(self)@.len() ==> sweep_before(e.0, #[trigger] final(self)@[i].0),
    {
        if self.entries.len() == 0 {
            None
        } else {
            let e = self.entries.remove(0);
            proof {
                assert forall|i: int| 0 <= i < self@.len() implies sweep_before(e.0, #[trigger] self@[i].0) by {
                    assert(self@[i] == old(self)@[i + 1]);
                }
            }
            Some(e)
        }
    }
}

} // verus!

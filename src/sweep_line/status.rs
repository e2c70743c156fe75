//! The status: the segments that the sweep line crosses, from left to right
//! at the current event point.
use vstd::prelude::*;
use crate::geometry::{Point, Vector, LineSegment, cross, abs, lemma_mul_abs_le, lemma_cross_bound,
    lemma_frac_trans,
    SPAN};
use super::input::{Input, LineSegmentId};

verus! {

/// A segment in the status, with its downward direction as tie-break key.
#[derive(Clone, Copy, Debug)]
pub struct StatusItem {
    pub line_segment_id: LineSegmentId,
    pub downward_dir: Vector,
}

/// `d` points down, or right along a horizontal segment.
pub open spec fn downward(d: Vector) -> bool {
    d.y < 0 || (d.y == 0 && d.x > 0)
}

/// `d` points down, or right, and each component is a difference of two
/// grid coordinates.
pub open spec fn downward_ok(d: Vector) -> bool {
    &&& downward(d)
    &&& abs(d.x as int) <= SPAN
    &&& abs(d.y as int) <= SPAN
}

/// Among downward directions, `a` comes first when its unit vector has the
/// smaller x component, which is when `b` is turned counterclockwise from `a`.
pub open spec fn dir_before(a: Vector, b: Vector) -> bool {
    cross(a.x as int, a.y as int, b.x as int, b.y as int) > 0
}

/// `cross(u, v) * w.y + cross(v, w) * u.y == cross(u, w) * v.y`.
proof fn lemma_cross_identity_y(ux: int, uy: int, vx: int, vy: int, wx: int, wy: int)
    ensures
        cross(ux, uy, vx, vy) * wy + cross(vx, vy, wx, wy) * uy == cross(ux, uy, wx, wy) * vy,
{
    assert(cross(ux, uy, vx, vy) * wy == ux * vy * wy - uy * vx * wy) by (nonlinear_arith);
    assert(cross(vx, vy, wx, wy) * uy == vx * wy * uy - vy * wx * uy) by (nonlinear_arith);
    assert(cross(ux, uy, wx, wy) * vy == ux * wy * vy - uy * wx * vy) by (nonlinear_arith);
    assert(ux * vy * wy == ux * wy * vy) by (nonlinear_arith);
    assert(uy * vx * wy == vx * wy * uy) by (nonlinear_arith);
    assert(vy * wx * uy == uy * wx * vy) by (nonlinear_arith);
}

/// Among downward directions the order by angle is transitive, and so is its
/// complement.
pub proof fn lemma_dir_trans(u: Vector, v: Vector, w: Vector)
    requires
        downward(u),
        downward(v),
        downward(w),
    ensures
        dir_before(u, v) && dir_before(v, w) ==> dir_before(u, w),
        !dir_before(u, v) && !dir_before(v, w) ==> !dir_before(u, w),
        dir_before(u, v) ==> !dir_before(v, u),
{
    let (ux, uy, vx, vy, wx, wy) = (u.x as int, u.y as int, v.x as int, v.y as int, w.x as int, w.y as int);
    assert(cross(vx, vy, ux, uy) == -cross(ux, uy, vx, vy)) by (nonlinear_arith);
    lemma_cross_identity_y(ux, uy, vx, vy, wx, wy);
    lemma_cross_identity_y(wx, wy, vx, vy, ux, uy);
    let (a, b, c) = (cross(ux, uy, vx, vy), cross(vx, vy, wx, wy), cross(ux, uy, wx, wy));
    assert(cross(wx, wy, vx, vy) == -b) by (nonlinear_arith)
        requires b == cross(vx, vy, wx, wy);
    assert(cross(wx, wy, ux, uy) == -c) by (nonlinear_arith)
        requires c == cross(ux, uy, wx, wy);
    if a > 0 && b > 0 {
        if vy < 0 {
            assert(a * wy <= 0 && b * uy <= 0) by (nonlinear_arith)
                requires a > 0, b > 0, wy <= 0, uy <= 0;
            assert(c >= 0) by (nonlinear_arith)
                requires c * vy <= 0, vy < 0;
            if c == 0 {
                assert(c * vy == 0) by (nonlinear_arith)
                    requires c == 0;
                assert(a * wy + b * uy == 0);
                assert(a * wy == 0 && b * uy == 0);
                assert(wy == 0 && uy == 0) by (nonlinear_arith)
                    requires a * wy == 0, b * uy == 0, a > 0, b > 0;
                assert(a == ux * vy) by (nonlinear_arith)
                    requires a == cross(ux, uy, vx, vy), uy == 0;
                assert(ux * vy < 0) by (nonlinear_arith)
                    requires ux > 0, vy < 0;
            }
        } else {
            assert(a == -uy * vx) by (nonlinear_arith)
                requires a == cross(ux, uy, vx, vy), vy == 0;
            assert(b == vx * wy) by (nonlinear_arith)
                requires b == cross(vx, vy, wx, wy), vy == 0;
            assert(vx * wy <= 0) by (nonlinear_arith)
                requires vx > 0, wy <= 0;
        }
    }
    if a <= 0 && b <= 0 {
        // -b * uy + -a * wy == -c * vy
        if vy < 0 {
            assert(-b * uy <= 0 && -a * wy <= 0) by (nonlinear_arith)
                requires a <= 0, b <= 0, wy <= 0, uy <= 0;
            assert(-c * vy <= 0);
            assert(c <= 0) by (nonlinear_arith)
                requires -c * vy <= 0, vy < 0;
        } else {
            assert(a == -uy * vx) by (nonlinear_arith)
                requires a == cross(ux, uy, vx, vy), vy == 0;
            assert(uy >= 0) by (nonlinear_arith)
                requires -uy * vx <= 0, vx > 0;
            assert(uy == 0 && ux > 0);
            assert(c == -wx * 0 + ux * wy) by (nonlinear_arith)
                requires c == cross(ux, uy, wx, wy), uy == 0;
            assert(ux * wy <= 0) by (nonlinear_arith)
                requires ux > 0, wy <= 0;
        }
    }
}

impl StatusItem {
    /// The item of segment `line_segment_id`, ordered among items at the
    /// same x by `downward_dir`.
    pub fn new(line_segment_id: LineSegmentId, downward_dir: Vector) -> (r: StatusItem)
        requires
            downward_ok(downward_dir),
        ensures
            r.line_segment_id == line_segment_id,
            r.downward_dir == downward_dir,
    {
        StatusItem { line_segment_id, downward_dir }
    }
}

/// The x coordinate, as numerator and positive denominator, at which the
/// line of `s` meets the horizontal line through `at`. A horizontal segment
/// is where the sweep is: at the x of `at`, held within its own extent.
pub open spec fn x_at(s: LineSegment, at: Point) -> (int, int) {
    let (dx, dy) = (s.p2.x - s.p1.x, s.p2.y - s.p1.y);
    let (lo, hi) = if s.p1.x <= s.p2.x { (s.p1.x as int, s.p2.x as int) } else { (s.p2.x as int, s.p1.x as int) };
    if dy == 0 {
        if at.x < lo * at.w {
            (lo, 1)
        } else if at.x > hi * at.w {
            (hi, 1)
        } else {
            (at.x as int, at.w as int)
        }
    } else {
        let num = s.p1.x * dy * at.w + (at.y - s.p1.y * at.w) * dx;
        let den = dy * at.w;
        if dy > 0 {
            (num, den)
        } else {
            (-num, -den)
        }
    }
}

/// At the height of `at`, item `a` lies left of item `b`, or at the same x
/// with the smaller direction key.
pub open spec fn item_before(segs: Seq<LineSegment>, a: StatusItem, b: StatusItem, at: Point) -> bool {
    let (na, da) = x_at(segs[a.line_segment_id as int], at);
    let (nb, db) = x_at(segs[b.line_segment_id as int], at);
    na * db < nb * da || (na * db == nb * da && dir_before(a.downward_dir, b.downward_dir))
}

/// Left to right at the height of `at`: no item comes before an item on its
/// left.
pub open spec fn sorted_at(segs: Seq<LineSegment>, v: Seq<StatusItem>, at: Point) -> bool {
    forall|i: int, j: int| 0 <= i < j < v.len() ==> !item_before(segs, #[trigger] v[j], #[trigger] v[i], at)
}

proof fn lemma_x_at_den_pos(s: LineSegment, at: Point)
    requires
        s.wf(),
        at.wf(),
    ensures
        x_at(s, at).1 > 0,
{
    let dy = s.p2.y - s.p1.y;
    assert(dy > 0 ==> dy * at.w > 0) by (nonlinear_arith)
        requires at.w > 0;
    assert(dy < 0 ==> -(dy * at.w) > 0) by (nonlinear_arith)
        requires at.w > 0;
}

/// At one height the status order is a strict weak order: asymmetric,
/// transitive, and so is its complement.
pub proof fn lemma_item_order(segs: Seq<LineSegment>, a: StatusItem, b: StatusItem, c: StatusItem, at: Point)
    requires
        forall|i: int| 0 <= i < segs.len() ==> (#[trigger] segs[i]).wf(),
        item_ok(segs, a),
        item_ok(segs, b),
        item_ok(segs, c),
        at.wf(),
    ensures
        item_before(segs, a, b, at) ==> !item_before(segs, b, a, at),
        item_before(segs, a, b, at) && item_before(segs, b, c, at) ==> item_before(segs, a, c, at),
        !item_before(segs, a, b, at) && !item_before(segs, b, c, at) ==> !item_before(segs, a, c, at),
{
    let (sa, sb, sc) = (segs[a.line_segment_id as int], segs[b.line_segment_id as int], segs[c.line_segment_id as int]);
    lemma_x_at_den_pos(sa, at);
    lemma_x_at_den_pos(sb, at);
    lemma_x_at_den_pos(sc, at);
    let (na, da) = x_at(sa, at);
    let (nb, db) = x_at(sb, at);
    let (nc, dc) = x_at(sc, at);
    lemma_frac_trans(na, da, nb, db, nc, dc);
    lemma_frac_trans(nc, dc, nb, db, na, da);
    lemma_dir_trans(a.downward_dir, b.downward_dir, c.downward_dir);
    lemma_dir_trans(b.downward_dir, a.downward_dir, c.downward_dir);
    lemma_dir_trans(c.downward_dir, b.downward_dir, a.downward_dir);
    assert(na * db == nb * da <==> nb * da == na * db);
}

/// The segments crossed by the sweep line, left to right.
pub struct Status<'a> {
    items: Vec<StatusItem>,
    input: &'a Input,
}

impl<'a> View for Status<'a> {
    type V = Seq<StatusItem>;

    closed spec fn view(&self) -> Seq<StatusItem> {
        self.items@
    }
}

pub open spec fn item_ok(segs: Seq<LineSegment>, it: StatusItem) -> bool {
    it.line_segment_id < segs.len() && downward_ok(it.downward_dir)
}

/// First index of an item of segment `id`.
pub open spec fn first_index_of(v: Seq<StatusItem>, id: LineSegmentId, i: int) -> bool {
    &&& 0 <= i < v.len()
    &&& v[i].line_segment_id == id
    &&& forall|j: int| 0 <= j < i ==> (#[trigger] v[j]).line_segment_id != id
}

impl<'a> Status<'a> {
    pub closed spec fn segs(&self) -> Seq<LineSegment> {
        self.input.segments@
    }

    pub open spec fn wf(&self) -> bool {
        &&& forall|i: int| 0 <= i < self.segs().len() ==> (#[trigger] self.segs()[i]).wf()
        &&& forall|i: int| 0 <= i < self@.len() ==> item_ok(self.segs(), #[trigger] self@[i])
    }

    /// An empty status over the segments of `input`.
    pub fn new(input: &'a Input) -> (r: Status<'a>)
        requires
            input.wf(),
        ensures
            r.wf(),
            r@.len() == 0,
            r.segs() == input.segments@,
    {
        Status { items: Vec::new(), input }
    }

    /// The items, left to right.
    pub fn items(&self) -> (r: &Vec<StatusItem>)
        ensures
            r@ == self@,
    {
        &self.items
    }

    /// The x coordinate at which the line of `s` meets the horizontal line
    /// through `at`; for a horizontal segment, the x of `at` held within the
    /// segment's extent.
    fn find_x(s: &LineSegment, at: &Point) -> (r: (i128, i128))
        requires
            s.wf(),
            at.wf(),
        ensures
            r.0 == x_at(*s, *at).0,
            r.1 == x_at(*s, *at).1,
            r.1 > 0,
            abs(r.0 as int) <= 0x10_0000_0000_0000_0000,
            r.1 <= 0x4_0000_0000_0000,
            s.p1.y != s.p2.y ==> (r.0 - s.p1.x * r.1) * (s.p2.y - s.p1.y) * at.w
                == (at.y - s.p1.y * at.w) * (s.p2.x - s.p1.x) * r.1,
    {
        let dx = s.p2.x - s.p1.x;
        let dy = s.p2.y - s.p1.y;
        if dy == 0 {
            let (lo, hi) = if s.p1.x <= s.p2.x { (s.p1.x, s.p2.x) } else { (s.p2.x, s.p1.x) };
            proof {
                lemma_mul_abs_le(lo as int, at.w as int, 32768, 0x4_0000_0000);
                lemma_mul_abs_le(hi as int, at.w as int, 32768, 0x4_0000_0000);
            }
            return if at.x < lo * at.w {
                (lo as i128, 1)
            } else if at.x > hi * at.w {
                (hi as i128, 1)
            } else {
                (at.x as i128, at.w as i128)
            };
        }
        proof {
            lemma_mul_abs_le(s.p1.x as int, dy as int, 32768, SPAN as int);
            lemma_mul_abs_le(s.p1.y as int, at.w as int, 32768, 0x4_0000_0000);
        }
        let a = s.p1.x * dy;
        let b = at.y - s.p1.y * at.w;
        proof {
            lemma_mul_abs_le(a as int, at.w as int, 32768 * SPAN as int, 0x4_0000_0000);
            lemma_mul_abs_le(b as int, dx as int, (0x4_0000_0000_0000 + 32768 * 0x4_0000_0000) as int, SPAN as int);
            lemma_mul_abs_le(dy as int, at.w as int, SPAN as int, 0x4_0000_0000);
        }
        let num = (a as i128) * (at.w as i128) + (b as i128) * (dx as i128);
        let den = (dy as i128) * (at.w as i128);
        proof {
            assert(a * at.w == s.p1.x * dy * at.w) by (nonlinear_arith)
                requires a == s.p1.x * dy;
            let (n, d) = (num as int, den as int);
            assert((n - s.p1.x * d) * dy * at.w == (at.y - s.p1.y * at.w) * dx * d) by (nonlinear_arith)
                requires n == s.p1.x * dy * at.w + b * dx, d == dy * at.w, b == at.y - s.p1.y * at.w;
            assert((-n - s.p1.x * -d) * dy * at.w == (at.y - s.p1.y * at.w) * dx * -d) by (nonlinear_arith)
                requires (n - s.p1.x * d) * dy * at.w == (at.y - s.p1.y * at.w) * dx * d;
            assert((dy < 0 ==> d < 0) && (dy > 0 ==> d > 0)) by (nonlinear_arith)
                requires d == dy * at.w, at.w > 0;
        }
        if dy > 0 {
            (num, den)
        } else {
            (-num, -den)
        }
    }

    /// Whether `a` comes before `b` at the height of `at`.
    fn item_lt(&self, a: &StatusItem, b: &StatusItem, at: &Point) -> (r: bool)
        requires
            self.wf(),
            at.wf(),
            item_ok(self.segs(), *a),
            item_ok(self.segs(), *b),
        ensures
            r == item_before(self.segs(), *a, *b, *at),
    {
        let sa = &self.input.segments[a.line_segment_id];
        let sb = &self.input.segments[b.line_segment_id];
        proof {
            assert(sa.wf());
            assert(sb.wf());
        }
        let (na, da) = Self::find_x(sa, at);
        let (nb, db) = Self::find_x(sb, at);
        proof {
            lemma_mul_abs_le(na as int, db as int, 0x10_0000_0000_0000_0000, 0x4_0000_0000_0000);
            lemma_mul_abs_le(nb as int, da as int, 0x10_0000_0000_0000_0000, 0x4_0000_0000_0000);
        }
        let l = na * db;
        let r = nb * da;
        if l < r {
            true
        } else if l > r {
            false
        } else {
            let (ad, bd) = (a.downward_dir, b.downward_dir);
            proof {
                lemma_cross_bound(ad.x as int, ad.y as int, bd.x as int, bd.y as int);
                lemma_mul_abs_le(ad.x as int, bd.y as int, SPAN as int, SPAN as int);
                lemma_mul_abs_le(ad.y as int, bd.x as int, SPAN as int, SPAN as int);
            }
            ad.x * bd.y - ad.y * bd.x > 0
        }
    }

    /// Inserts `item` where it belongs at the height of `current_point` and
    /// returns its new left and right neighbors.
    pub fn insert(&mut self, item: StatusItem, current_point: Point) -> (r: (Option<StatusItem>, Option<StatusItem>))
        requires
            old(self).wf(),
            current_point.wf(),
            item_ok(old(self).segs(), item),
        ensures
            final(self).wf(),
            final(self).segs() == old(self).segs(),
            exists|idx: int| 0 <= idx <= old(self)@.len() && #[trigger] old(self)@.insert(idx, item) == final(self)@ && {
                &&& r.0 == if idx > 0 { Some(final(self)@[idx - 1]) } else { None::<StatusItem> }
                &&& r.1 == if idx + 1 < final(self)@.len() { Some(final(self)@[idx + 1]) } else { None::<StatusItem> }
            },
            r.0 matches Some(left) ==> item_before(old(self).segs(), left, item, current_point),
            r.1 matches Some(right) ==> !item_before(old(self).segs(), right, item, current_point),
            sorted_at(old(self).segs(), old(self)@, current_point) ==> sorted_at(old(self).segs(), final(self)@, current_point),
    {
        let ghost v = self@;
        let mut lo: usize = 0;
        let mut hi: usize = self.items.len();
        while lo < hi
            invariant
                self@ == v,
                self.wf(),
                item_ok(self.segs(), item),
                current_point.wf(),
                0 <= lo <= hi <= v.len(),
                lo > 0 ==> item_before(self.segs(), v[lo - 1], item, current_point),
                hi < v.len() ==> !item_before(self.segs(), v[hi as int], item, current_point),
            decreases hi - lo,
        {
            let mid = lo + (hi - lo) / 2;
            if self.item_lt(&self.items[mid], &item, &current_point) {
                lo = mid + 1;
            } else {
                hi = mid;
            }
        }
        let index = lo;
        self.items.insert(index, item);
        let left = if index > 0 {
            Some(self.items[index - 1])
        } else {
            None
        };
        let right = if index < self.items.len() - 1 {
            Some(self.items[index + 1])
        } else {
            None
        };
        proof {
            assert(v.insert(index as int, item) == self@);
            if index > 0 {
                assert(self@[index - 1] == v[index - 1]);
            }
            if index + 1 < self@.len() {
                assert(self@[index + 1] == v[index as int]);
            }
            let segs = self.segs();
            let w = self@;
            let idx = index as int;
            if sorted_at(segs, v, current_point) {
                assert forall|i: int, j: int| 0 <= i < j < w.len() implies !item_before(segs, #[trigger] w[j], #[trigger] w[i], current_point) by {
                    if j < idx {
                        assert(w[i] == v[i] && w[j] == v[j]);
                    } else if i > idx {
                        assert(w[i] == v[i - 1] && w[j] == v[j - 1]);
                    } else if i < idx && idx < j {
                        assert(w[i] == v[i] && w[j] == v[j - 1]);
                    } else if j == idx {
                        assert(w[i] == v[i] && w[j] == item);
                        lemma_item_order(segs, v[idx - 1], item, v[i], current_point);
                        if i < idx - 1 {
                            assert(!item_before(segs, v[idx - 1], v[i], current_point));
                        }
                    } else {
                        assert(i == idx);
                        assert(w[i] == item && w[j] == v[j - 1]);
                        lemma_item_order(segs, v[j - 1], v[idx], item, current_point);
                        if j - 1 > idx {
                            assert(!item_before(segs, v[j - 1], v[idx], current_point));
                        }
                    }
                }
            }
        }
        (left, right)
    }

    /// Index of the first item of segment `id`.
    pub fn find_index(&self, id: LineSegmentId) -> (r: Option<usize>)
        ensures
            r is None <==> forall|j: int| 0 <= j < self@.len() ==> (#[trigger] self@[j]).line_segment_id != id,
            r matches Some(i) ==> first_index_of(self@, id, i as int),
    {
        let mut i: usize = 0;
        while i < self.items.len()
            invariant
                i <= self@.len(),
                forall|j: int| 0 <= j < i ==> (#[trigger] self@[j]).line_segment_id != id,
            decreases self@.len() - i,
        {
            if self.items[i].line_segment_id == id {
                return Some(i);
            }
            i += 1;
        }
        None
    }

    /// Removes the first item of segment `segment_id`; returns its left and
    /// right neighbors just before the removal, and the item. `None` when the
    /// segment is not in the status.
    pub fn remove(&mut self, segment_id: LineSegmentId) -> (r: Option<(Option<StatusItem>, Option<StatusItem>, StatusItem)>)
        requires
            old(self).wf(),
        ensures
            final(self).wf(),
            final(self).segs() == old(self).segs(),
            r is None <==> forall|j: int| 0 <= j < old(self)@.len() ==> (#[trigger] old(self)@[j]).line_segment_id != segment_id,
            r is None ==> final(self)@ == old(self)@,
            r matches Some(t) ==> exists|idx: int| #[trigger] first_index_of(old(self)@, segment_id, idx) && {
                &&& final(self)@ == old(self)@.remove(idx)
                &&& t.2 == old(self)@[idx]
                &&& t.0 == if idx > 0 { Some(old(self)@[idx - 1]) } else { None::<StatusItem> }
                &&& t.1 == if idx + 1 < old(self)@.len() { Some(old(self)@[idx + 1]) } else { None::<StatusItem> }
            },
            forall|at: Point| #[trigger] sorted_at(old(self).segs(), old(self)@, at) ==> sorted_at(old(self).segs(), final(self)@, at),
    {
        match self.find_index(segment_id) {
            None => None,
            Some(index) => {
                let ghost v = self@;
                let removed = self.items.remove(index);
                let left = if index > 0 {
                    Some(self.items[index - 1])
                } else {
                    None
                };
                let right = if index < self.items.len() {
                    Some(self.items[index])
                } else {
                    None
                };
                proof {
                    assert(first_index_of(v, segment_id, index as int));
                    if index > 0 {
                        assert(self@[index - 1] == v[index - 1]);
                    }
                    if index < self@.len() {
                        assert(self@[index as int] == v[index + 1]);
                    }
                    let segs = self.segs();
                    let w = self@;
                    assert forall|at: Point| #[trigger] sorted_at(segs, v, at) implies sorted_at(segs, w, at) by {
                        assert forall|i: int, j: int| 0 <= i < j < w.len() implies !item_before(segs, #[trigger] w[j], #[trigger] w[i], at) by {
                            let i0 = if i < index { i } else { i + 1 };
                            let j0 = if j < index { j } else { j + 1 };
                            assert(w[i] == v[i0] && w[j] == v[j0]);
                        }
                    }
                }
                Some((left, right, removed))
            }
        }
    }
}

} // verus!

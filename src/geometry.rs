//! Exact plane geometry: rational points, grid segments, the sweep order and
//! the intersection test shared by every strategy.
use vstd::prelude::*;
use std::cmp::Ordering;

verus! {

/// Largest magnitude of a coordinate numerator of a well-formed point.
pub const COORD_BOUND: i64 = 0x4_0000_0000_0000;

/// Largest denominator of a well-formed point.
pub const DENOM_BOUND: i64 = 0x4_0000_0000;

/// Smallest and largest coordinate of a segment endpoint.
pub const GRID_MIN: i64 = -32768;
pub const GRID_MAX: i64 = 32767;

pub open spec fn abs(a: int) -> int {
    if a < 0 { -a } else { a }
}

pub proof fn lemma_mul_abs_le(a: int, b: int, ba: int, bb: int)
    requires
        abs(a) <= ba,
        abs(b) <= bb,
    ensures
        abs(a * b) <= ba * bb,
{
    assert(abs(a * b) == abs(a) * abs(b)) by (nonlinear_arith);
    assert(abs(a) * abs(b) <= ba * bb) by (nonlinear_arith)
        requires abs(a) <= ba, abs(b) <= bb, 0 <= abs(a), 0 <= abs(b);
}

/// The exact product of two 64-bit integers.
pub fn wide_mul(a: i64, b: i64) -> (r: i128)
    ensures
        r == a * b,
{
    proof {
        lemma_mul_abs_le(a as int, b as int, 0x8000_0000_0000_0000, 0x8000_0000_0000_0000);
    }
    (a as i128) * (b as i128)
}

/// A point of the plane with rational coordinates `(x / w, y / w)`.
#[derive(Clone, Copy, Debug)]
pub struct Point {
    pub x: i64,
    pub y: i64,
    pub w: i64,
}

/// A direction in the plane.
#[derive(Clone, Copy, Debug)]
pub struct Vector {
    pub x: i64,
    pub y: i64,
}

impl Point {
    /// Positive, bounded denominator and bounded numerators.
    pub open spec fn wf(self) -> bool {
        &&& 0 < self.w <= DENOM_BOUND
        &&& -COORD_BOUND <= self.x <= COORD_BOUND
        &&& -COORD_BOUND <= self.y <= COORD_BOUND
    }

    /// An integer point with 16-bit coordinates.
    pub open spec fn on_grid(self) -> bool {
        &&& self.w == 1
        &&& GRID_MIN <= self.x <= GRID_MAX
        &&& GRID_MIN <= self.y <= GRID_MAX
    }

    /// The integer point `(x, y)`.
    pub fn new(x: i16, y: i16) -> (r: Point)
        ensures
            r == (Point { x: x as i64, y: y as i64, w: 1 }),
            r.wf(),
            r.on_grid(),
    {
        Point { x: x as i64, y: y as i64, w: 1 }
    }

    /// The point `(x / w, y / w)`, if it is within the bounds of a
    /// well-formed point.
    pub fn from_parts(x: i64, y: i64, w: i64) -> (r: Option<Point>)
        ensures
            r is Some <==> (Point { x, y, w }).wf(),
            r is Some ==> r->0 == (Point { x, y, w }),
    {
        if 0 < w && w <= DENOM_BOUND && -COORD_BOUND <= x && x <= COORD_BOUND && -COORD_BOUND <= y
            && y <= COORD_BOUND {
            Some(Point { x, y, w })
        } else {
            None
        }
    }
}

/// `p` and `q` denote the same point of the plane.
pub open spec fn same_point(p: Point, q: Point) -> bool {
    p.x * q.w == q.x * p.w && p.y * q.w == q.y * p.w
}

/// `p` comes before `q` in sweep order: greater y first, then smaller x.
pub open spec fn sweep_before(p: Point, q: Point) -> bool {
    p.y * q.w > q.y * p.w || (p.y * q.w == q.y * p.w && p.x * q.w < q.x * p.w)
}

/// `p` comes before `q` in the order of the output set: smaller x first,
/// then smaller y.
pub open spec fn output_before(p: Point, q: Point) -> bool {
    p.x * q.w < q.x * p.w || (p.x * q.w == q.x * p.w && p.y * q.w < q.y * p.w)
}

impl PartialEq for Point {
    fn eq(&self, other: &Point) -> (r: bool) {
        wide_mul(self.x, other.w) == wide_mul(other.x, self.w) && wide_mul(self.y, other.w)
            == wide_mul(other.y, self.w)
    }
}

impl vstd::std_specs::cmp::PartialEqSpecImpl for Point {
    open spec fn obeys_eq_spec() -> bool {
        true
    }

    open spec fn eq_spec(&self, other: &Point) -> bool {
        same_point(*self, *other)
    }
}

/// Orders two points by the sweep: `Less` when `p` is swept first.
pub fn sweep_cmp(p: &Point, q: &Point) -> (r: Ordering)
    ensures
        (r == Ordering::Less) <==> sweep_before(*p, *q),
        (r == Ordering::Equal) <==> same_point(*p, *q),
        (r == Ordering::Greater) <==> sweep_before(*q, *p),
{
    let py = wide_mul(p.y, q.w);
    let qy = wide_mul(q.y, p.w);
    let px = wide_mul(p.x, q.w);
    let qx = wide_mul(q.x, p.w);
    if py > qy {
        Ordering::Less
    } else if py < qy {
        Ordering::Greater
    } else if px < qx {
        Ordering::Less
    } else if px > qx {
        Ordering::Greater
    } else {
        Ordering::Equal
    }
}

/// Orders two points as the output set does: `Less` when `p` has the smaller
/// x, or the same x and the smaller y.
pub fn output_cmp(p: &Point, q: &Point) -> (r: Ordering)
    ensures
        (r == Ordering::Less) <==> output_before(*p, *q),
        (r == Ordering::Equal) <==> same_point(*p, *q),
        (r == Ordering::Greater) <==> output_before(*q, *p),
{
    let py = wide_mul(p.y, q.w);
    let qy = wide_mul(q.y, p.w);
    let px = wide_mul(p.x, q.w);
    let qx = wide_mul(q.x, p.w);
    if px < qx {
        Ordering::Less
    } else if px > qx {
        Ordering::Greater
    } else if py < qy {
        Ordering::Less
    } else if py > qy {
        Ordering::Greater
    } else {
        Ordering::Equal
    }
}

/// `a / b < c / d` and `c / d < e / f` give `a / b < e / f`; likewise with
/// `==` in place of either `<`.
pub proof fn lemma_frac_trans(a: int, b: int, c: int, d: int, e: int, f: int)
    requires
        b > 0,
        d > 0,
        f > 0,
    ensures
        a * d < c * b && c * f < e * d ==> a * f < e * b,
        a * d < c * b && c * f == e * d ==> a * f < e * b,
        a * d == c * b && c * f < e * d ==> a * f < e * b,
        a * d == c * b && c * f == e * d ==> a * f == e * b,
{
    assert((a * d) * f - (c * b) * f + (c * f) * b - (e * d) * b == d * (a * f - e * b))
        by (nonlinear_arith);
    assert(a * d < c * b ==> (a * d) * f < (c * b) * f) by (nonlinear_arith)
        requires f > 0;
    assert(a * d == c * b ==> (a * d) * f == (c * b) * f);
    assert(c * f < e * d ==> (c * f) * b < (e * d) * b) by (nonlinear_arith)
        requires b > 0;
    assert(c * f == e * d ==> (c * f) * b == (e * d) * b);
    assert(d * (a * f - e * b) < 0 ==> a * f - e * b < 0) by (nonlinear_arith)
        requires d > 0;
    assert(d * (a * f - e * b) == 0 ==> a * f - e * b == 0) by (nonlinear_arith)
        requires d > 0;
}

/// The sweep order is transitive, also through points that are the same.
pub proof fn lemma_sweep_trans(p: Point, q: Point, r: Point)
    requires
        p.wf(),
        q.wf(),
        r.wf(),
    ensures
        sweep_before(p, q) && sweep_before(q, r) ==> sweep_before(p, r),
        sweep_before(p, q) && same_point(q, r) ==> sweep_before(p, r),
        same_point(p, q) && sweep_before(q, r) ==> sweep_before(p, r),
        same_point(p, q) && same_point(q, r) ==> same_point(p, r),
{
    lemma_frac_trans(q.y as int, q.w as int, p.y as int, p.w as int, r.y as int, r.w as int);
    lemma_frac_trans(r.y as int, r.w as int, q.y as int, q.w as int, p.y as int, p.w as int);
    lemma_frac_trans(p.y as int, p.w as int, q.y as int, q.w as int, r.y as int, r.w as int);
    lemma_frac_trans(p.x as int, p.w as int, q.x as int, q.w as int, r.x as int, r.w as int);
}

/// The order of the output set is transitive, also through points that are
/// the same.
pub proof fn lemma_output_trans(p: Point, q: Point, r: Point)
    requires
        p.wf(),
        q.wf(),
        r.wf(),
    ensures
        output_before(p, q) && output_before(q, r) ==> output_before(p, r),
        output_before(p, q) && same_point(q, r) ==> output_before(p, r),
        same_point(p, q) && output_before(q, r) ==> output_before(p, r),
{
    lemma_frac_trans(p.x as int, p.w as int, q.x as int, q.w as int, r.x as int, r.w as int);
    lemma_frac_trans(p.y as int, p.w as int, q.y as int, q.w as int, r.y as int, r.w as int);
}

/// Exactly one of `p` before `q`, the same point, `q` before `p`.
pub proof fn lemma_sweep_total(p: Point, q: Point)
    ensures
        sweep_before(p, q) || same_point(p, q) || sweep_before(q, p),
        !(sweep_before(p, q) && same_point(p, q)),
        !(sweep_before(p, q) && sweep_before(q, p)),
        !(same_point(p, q) && sweep_before(q, p)),
        same_point(p, q) == same_point(q, p),
        output_before(p, q) || same_point(p, q) || output_before(q, p),
        !(output_before(p, q) && same_point(p, q)),
        !(output_before(p, q) && output_before(q, p)),
        !(same_point(p, q) && output_before(q, p)),
{
}

/// Whether a point lies on a segment does not depend on its representation.
pub proof fn lemma_lies_on_same_point(p: Point, q: Point, s: LineSegment)
    requires
        p.wf(),
        q.wf(),
        same_point(p, q),
        lies_on(p, s),
    ensures
        lies_on(q, s),
{
    let (a, b) = (s.p1, s.p2);
    let (pw, qw) = (p.w as int, q.w as int);
    // q = p * (qw / pw) in each coordinate
    assert(q.x * pw == p.x * qw && q.y * pw == p.y * qw);
    assert((q.x - a.x * qw) * pw == (p.x - a.x * pw) * qw) by (nonlinear_arith)
        requires q.x * pw == p.x * qw;
    assert((q.y - a.y * qw) * pw == (p.y - a.y * pw) * qw) by (nonlinear_arith)
        requires q.y * pw == p.y * qw;
    let (px, py) = (p.x - a.x * pw, p.y - a.y * pw);
    let (qx, qy) = (q.x - a.x * qw, q.y - a.y * qw);
    let (dx, dy) = (b.x - a.x, b.y - a.y);
    lemma_cross_scaled(qx, qy, px, py, dx, dy, pw, qw);
    assert(cross(qx, qy, dx, dy) == 0) by (nonlinear_arith)
        requires cross(qx, qy, dx, dy) * pw == cross(px, py, dx, dy) * qw,
            cross(px, py, dx, dy) == 0, pw > 0;
    lemma_scaled_between(p.x as int, q.x as int, pw, qw, a.x as int, b.x as int);
    lemma_scaled_between(p.x as int, q.x as int, pw, qw, b.x as int, a.x as int);
    lemma_scaled_between(p.y as int, q.y as int, pw, qw, a.y as int, b.y as int);
    lemma_scaled_between(p.y as int, q.y as int, pw, qw, b.y as int, a.y as int);
}

proof fn lemma_cross_scaled(qx: int, qy: int, px: int, py: int, dx: int, dy: int, pw: int, qw: int)
    requires
        qx * pw == px * qw,
        qy * pw == py * qw,
    ensures
        cross(qx, qy, dx, dy) * pw == cross(px, py, dx, dy) * qw,
{
    assert(cross(qx, qy, dx, dy) * pw == (qx * pw) * dy - (qy * pw) * dx) by (nonlinear_arith);
    assert(cross(px, py, dx, dy) * qw == (px * qw) * dy - (py * qw) * dx) by (nonlinear_arith);
}

proof fn lemma_scaled_between(px: int, qx: int, pw: int, qw: int, lo: int, hi: int)
    requires
        pw > 0,
        qw > 0,
        qx * pw == px * qw,
    ensures
        lo * pw <= px <= hi * pw ==> lo * qw <= qx <= hi * qw,
{
    if lo * pw <= px <= hi * pw {
        assert(lo * pw * qw <= px * qw <= hi * pw * qw) by (nonlinear_arith)
            requires lo * pw <= px <= hi * pw, qw > 0;
        assert(lo * qw * pw <= qx * pw <= hi * qw * pw) by (nonlinear_arith)
            requires lo * pw * qw <= px * qw <= hi * pw * qw, qx * pw == px * qw;
        assert(lo * qw <= qx <= hi * qw) by (nonlinear_arith)
            requires lo * qw * pw <= qx * pw <= hi * qw * pw, pw > 0;
    }
}

/// A segment between two distinct grid points.
#[derive(Clone, Copy, Debug)]
pub struct LineSegment {
    pub p1: Point,
    pub p2: Point,
}

/// The cross product of `(ax, ay)` and `(bx, by)`.
pub open spec fn cross(ax: int, ay: int, bx: int, by: int) -> int {
    ax * by - ay * bx
}

/// Cross product of the two directions; zero when the segments are parallel.
pub open spec fn isect_den(s1: LineSegment, s2: LineSegment) -> int {
    cross(s1.p2.x - s1.p1.x, s1.p2.y - s1.p1.y, s2.p2.x - s2.p1.x, s2.p2.y - s2.p1.y)
}

/// `isect_t / isect_den` is the parameter of the crossing along `s1`.
pub open spec fn isect_t(s1: LineSegment, s2: LineSegment) -> int {
    cross(s2.p1.x - s1.p1.x, s2.p1.y - s1.p1.y, s2.p2.x - s2.p1.x, s2.p2.y - s2.p1.y)
}

/// `isect_u / isect_den` is the parameter of the crossing along `s2`.
pub open spec fn isect_u(s1: LineSegment, s2: LineSegment) -> int {
    cross(s2.p1.x - s1.p1.x, s2.p1.y - s1.p1.y, s1.p2.x - s1.p1.x, s1.p2.y - s1.p1.y)
}

pub open spec fn sign(a: int) -> int {
    if a > 0 { 1 } else { -1 }
}

/// The supporting lines cross, and the crossing lies on both closed segments.
pub open spec fn crosses(s1: LineSegment, s2: LineSegment) -> bool {
    let den = isect_den(s1, s2);
    let sg = sign(den);
    &&& den != 0
    &&& 0 <= isect_t(s1, s2) * sg <= den * sg
    &&& 0 <= isect_u(s1, s2) * sg <= den * sg
}

/// Numerators and positive denominator of the crossing point of the lines.
pub open spec fn crossing_parts(s1: LineSegment, s2: LineSegment) -> (int, int, int) {
    let den = isect_den(s1, s2);
    let t = isect_t(s1, s2);
    let sg = sign(den);
    (
        (s1.p1.x * den + t * (s1.p2.x - s1.p1.x)) * sg,
        (s1.p1.y * den + t * (s1.p2.y - s1.p1.y)) * sg,
        den * sg,
    )
}

/// The point where two segments meet, if `crosses` holds.
pub open spec fn spec_intersection(s1: LineSegment, s2: LineSegment) -> Option<Point> {
    if crosses(s1, s2) {
        let (x, y, w) = crossing_parts(s1, s2);
        Some(Point { x: x as i64, y: y as i64, w: w as i64 })
    } else {
        None
    }
}

/// `p` lies on the closed segment `s`.
pub open spec fn lies_on(p: Point, s: LineSegment) -> bool {
    let (a, b) = (s.p1, s.p2);
    &&& cross(p.x - a.x * p.w, p.y - a.y * p.w, b.x - a.x, b.y - a.y) == 0
    &&& (a.x <= b.x ==> a.x * p.w <= p.x <= b.x * p.w)
    &&& (b.x <= a.x ==> b.x * p.w <= p.x <= a.x * p.w)
    &&& (a.y <= b.y ==> a.y * p.w <= p.y <= b.y * p.w)
    &&& (b.y <= a.y ==> b.y * p.w <= p.y <= a.y * p.w)
}

/// Largest magnitude of a difference of two grid coordinates.
pub const SPAN: i64 = 65535;

/// Largest magnitude of a cross product of two differences of grid points.
pub const CROSS_BOUND: i64 = 8589672450;

pub proof fn lemma_cross_bound(ax: int, ay: int, bx: int, by: int)
    requires
        abs(ax) <= SPAN,
        abs(ay) <= SPAN,
        abs(bx) <= SPAN,
        abs(by) <= SPAN,
    ensures
        abs(cross(ax, ay, bx, by)) <= CROSS_BOUND,
{
    lemma_mul_abs_le(ax, by, SPAN as int, SPAN as int);
    lemma_mul_abs_le(ay, bx, SPAN as int, SPAN as int);
}

/// A point at parameter `t / w` along a segment lies on it.
proof fn lemma_param_lies_on(p: Point, s: LineSegment, t: int)
    requires
        p.w > 0,
        0 <= t <= p.w,
        p.x == s.p1.x * p.w + t * (s.p2.x - s.p1.x),
        p.y == s.p1.y * p.w + t * (s.p2.y - s.p1.y),
    ensures
        lies_on(p, s),
{
    let (ax, ay, bx, by, w) = (s.p1.x as int, s.p1.y as int, s.p2.x as int, s.p2.y as int, p.w as int);
    assert(cross(t * (bx - ax), t * (by - ay), bx - ax, by - ay) == 0) by (nonlinear_arith);
    assert(ax <= bx ==> 0 <= t * (bx - ax) <= w * (bx - ax)) by (nonlinear_arith)
        requires 0 <= t <= w;
    assert(bx <= ax ==> w * (bx - ax) <= t * (bx - ax) <= 0) by (nonlinear_arith)
        requires 0 <= t <= w;
    assert(ay <= by ==> 0 <= t * (by - ay) <= w * (by - ay)) by (nonlinear_arith)
        requires 0 <= t <= w;
    assert(by <= ay ==> w * (by - ay) <= t * (by - ay) <= 0) by (nonlinear_arith)
        requires 0 <= t <= w;
    assert(w * (bx - ax) == bx * w - ax * w) by (nonlinear_arith);
    assert(w * (by - ay) == by * w - ay * w) by (nonlinear_arith);
}

/// `cross(r, b) * a - cross(r, a) * b == cross(a, b) * r`, along x.
proof fn lemma_cramer(rx: int, ry: int, ax: int, ay: int, bx: int, by: int)
    ensures
        cross(rx, ry, bx, by) * ax - cross(rx, ry, ax, ay) * bx == cross(ax, ay, bx, by) * rx,
{
    assert(cross(rx, ry, bx, by) * ax == rx * by * ax - ry * bx * ax) by (nonlinear_arith);
    assert(cross(rx, ry, ax, ay) * bx == rx * ay * bx - ry * ax * bx) by (nonlinear_arith);
    assert(cross(ax, ay, bx, by) * rx == ax * by * rx - ay * bx * rx) by (nonlinear_arith);
    assert(rx * by * ax == ax * by * rx) by (nonlinear_arith);
    assert(ry * bx * ax == ry * ax * bx) by (nonlinear_arith);
    assert(rx * ay * bx == ay * bx * rx) by (nonlinear_arith);
}

proof fn lemma_scale_difference(t: int, u: int, d: int, a: int, b: int, r: int, sg: int)
    requires
        t * a - u * b == d * r,
    ensures
        (t * sg) * a - (u * sg) * b == (d * sg) * r,
{
    assert((t * sg) * a == (t * a) * sg) by (nonlinear_arith);
    assert((u * sg) * b == (u * b) * sg) by (nonlinear_arith);
    assert((d * sg) * r == (d * r) * sg) by (nonlinear_arith);
    assert((t * a) * sg - (u * b) * sg == (t * a - u * b) * sg) by (nonlinear_arith);
}

/// The point where two segments meet lies on both of them.
pub proof fn lemma_intersection_lies_on_both(s1: LineSegment, s2: LineSegment)
    requires
        s1.wf(),
        s2.wf(),
        crosses(s1, s2),
    ensures
        spec_intersection(s1, s2) is Some,
        lies_on(spec_intersection(s1, s2)->0, s1),
        lies_on(spec_intersection(s1, s2)->0, s2),
        spec_intersection(s1, s2)->0.wf(),
        spec_intersection(s1, s2)->0.x == crossing_parts(s1, s2).0,
        spec_intersection(s1, s2)->0.y == crossing_parts(s1, s2).1,
        spec_intersection(s1, s2)->0.w == crossing_parts(s1, s2).2,
{
    let (d1x, d1y) = (s1.p2.x - s1.p1.x, s1.p2.y - s1.p1.y);
    let (d2x, d2y) = (s2.p2.x - s2.p1.x, s2.p2.y - s2.p1.y);
    let (rx, ry) = (s2.p1.x - s1.p1.x, s2.p1.y - s1.p1.y);
    let den = isect_den(s1, s2);
    let t = isect_t(s1, s2);
    let u = isect_u(s1, s2);
    let sg = sign(den);
    let (dd, tt, uu) = (den * sg, t * sg, u * sg);
    lemma_cross_bound(d1x, d1y, d2x, d2y);
    lemma_cross_bound(rx, ry, d2x, d2y);
    assert(abs(dd) == abs(den) && abs(tt) == abs(t)) by (nonlinear_arith)
        requires sg == 1 || sg == -1, dd == den * sg, tt == t * sg;
    lemma_mul_abs_le(s1.p1.x as int, dd, 32768, CROSS_BOUND as int);
    lemma_mul_abs_le(s1.p1.y as int, dd, 32768, CROSS_BOUND as int);
    lemma_mul_abs_le(tt, d1x, CROSS_BOUND as int, SPAN as int);
    lemma_mul_abs_le(tt, d1y, CROSS_BOUND as int, SPAN as int);
    let (x, y, w) = crossing_parts(s1, s2);
    assert(x == s1.p1.x * dd + tt * d1x && y == s1.p1.y * dd + tt * d1y && w == dd)
        by (nonlinear_arith)
        requires
            sg == 1 || sg == -1,
            (x, y, w) == crossing_parts(s1, s2),
            den == isect_den(s1, s2), t == isect_t(s1, s2), sg == sign(den),
            dd == den * sg, tt == t * sg,
            d1x == s1.p2.x - s1.p1.x, d1y == s1.p2.y - s1.p1.y;
    let p = spec_intersection(s1, s2)->0;
    assert(p.x == x && p.y == y && p.w == w);
    lemma_param_lies_on(p, s1, tt);
    lemma_cramer(rx, ry, d1x, d1y, d2x, d2y);
    lemma_cramer(ry, -rx, d1y, -d1x, d2y, -d2x);
    assert(cross(ry, -rx, d2y, -d2x) == t && cross(ry, -rx, d1y, -d1x) == u
        && cross(d1y, -d1x, d2y, -d2x) == den) by (nonlinear_arith)
        requires
            den == cross(d1x, d1y, d2x, d2y),
            t == cross(rx, ry, d2x, d2y),
            u == cross(rx, ry, d1x, d1y);
    lemma_scale_difference(t, u, den, d1x, d2x, rx, sg);
    lemma_scale_difference(t, u, den, d1y, d2y, ry, sg);
    assert(p.x == s2.p1.x * p.w + uu * d2x && p.y == s2.p1.y * p.w + uu * d2y) by (nonlinear_arith)
        requires
            p.x == s1.p1.x * dd + tt * d1x, p.y == s1.p1.y * dd + tt * d1y, p.w == dd,
            tt * d1x - uu * d2x == dd * rx, tt * d1y - uu * d2y == dd * ry,
            rx == s2.p1.x - s1.p1.x, ry == s2.p1.y - s1.p1.y;
    lemma_param_lies_on(p, s2, uu);
}

/// A point `(x, y) / w` relative to the start of the first segment, on both
/// lines, sits at parameter `cross(r, d2) / cross(d1, d2)` along the first.
proof fn lemma_param_of_common_point(
    x: int, y: int, w: int, d1x: int, d1y: int, d2x: int, d2y: int, rx: int, ry: int,
)
    requires
        x * d1y == y * d1x,
        (x - rx * w) * d2y == (y - ry * w) * d2x,
    ensures
        x * cross(d1x, d1y, d2x, d2y) == d1x * w * cross(rx, ry, d2x, d2y),
        y * cross(d1x, d1y, d2x, d2y) == d1y * w * cross(rx, ry, d2x, d2y),
{
    assert((x - rx * w) * d2y == x * d2y - (rx * w) * d2y) by (nonlinear_arith);
    assert((y - ry * w) * d2x == y * d2x - (ry * w) * d2x) by (nonlinear_arith);
    assert(w * cross(rx, ry, d2x, d2y) == (rx * w) * d2y - (ry * w) * d2x) by (nonlinear_arith);
    let e = x * d2y - y * d2x;
    assert(e == w * cross(rx, ry, d2x, d2y));
    assert(x * cross(d1x, d1y, d2x, d2y) == d1x * (x * d2y) - (x * d1y) * d2x) by (nonlinear_arith);
    assert((y * d1x) * d2x == d1x * (y * d2x)) by (nonlinear_arith);
    assert(d1x * (x * d2y) - d1x * (y * d2x) == d1x * e) by (nonlinear_arith)
        requires e == x * d2y - y * d2x;
    assert(y * cross(d1x, d1y, d2x, d2y) == (y * d1x) * d2y - d1y * (y * d2x)) by (nonlinear_arith);
    assert((x * d1y) * d2y == d1y * (x * d2y)) by (nonlinear_arith);
    assert(d1y * (x * d2y) - d1y * (y * d2x) == d1y * e) by (nonlinear_arith)
        requires e == x * d2y - y * d2x;
    assert(d1x * (w * cross(rx, ry, d2x, d2y)) == d1x * w * cross(rx, ry, d2x, d2y)) by (nonlinear_arith);
    assert(d1y * (w * cross(rx, ry, d2x, d2y)) == d1y * w * cross(rx, ry, d2x, d2y)) by (nonlinear_arith);
}

/// A coordinate between `0` and `d * w` at parameter `t / den` has
/// `0 <= t <= den`.
proof fn lemma_param_in_range(x: int, d: int, w: int, t: int, den: int)
    requires
        w > 0,
        den > 0,
        d != 0,
        x * den == d * w * t,
        d > 0 ==> 0 <= x <= d * w,
        d < 0 ==> d * w <= x <= 0,
    ensures
        0 <= t <= den,
{
    let k = d * w;
    assert(d > 0 ==> k > 0) by (nonlinear_arith)
        requires k == d * w, w > 0;
    assert(d < 0 ==> k < 0) by (nonlinear_arith)
        requires k == d * w, w > 0;
    assert(x * den == k * t);
    if d > 0 {
        assert(0 <= t) by (nonlinear_arith)
            requires x * den == k * t, k > 0, x >= 0, den > 0;
        assert(t <= den) by (nonlinear_arith)
            requires x * den == k * t, k > 0, x <= k, den > 0;
    } else {
        assert(0 <= t) by (nonlinear_arith)
            requires x * den == k * t, k < 0, x <= 0, den > 0;
        assert(t <= den) by (nonlinear_arith)
            requires x * den == k * t, k < 0, x >= k, den > 0;
    }
}

/// A point on both of two segments whose lines cross: it is in range of
/// both, so `t` in `[0, den]` after the sign is fixed.
proof fn lemma_common_point_param(p: Point, s1: LineSegment, s2: LineSegment)
    requires
        s1.wf(),
        s2.wf(),
        p.wf(),
        lies_on(p, s1),
        lies_on(p, s2),
        isect_den(s1, s2) != 0,
    ensures
        0 <= isect_t(s1, s2) * sign(isect_den(s1, s2)) <= isect_den(s1, s2) * sign(isect_den(s1, s2)),
        (p.x - s1.p1.x * p.w) * isect_den(s1, s2) == (s1.p2.x - s1.p1.x) * p.w * isect_t(s1, s2),
        (p.y - s1.p1.y * p.w) * isect_den(s1, s2) == (s1.p2.y - s1.p1.y) * p.w * isect_t(s1, s2),
{
    let (a, c) = (s1.p1, s2.p1);
    let w = p.w as int;
    let (d1x, d1y) = (s1.p2.x - a.x, s1.p2.y - a.y);
    let (d2x, d2y) = (s2.p2.x - c.x, s2.p2.y - c.y);
    let (rx, ry) = (c.x - a.x, c.y - a.y);
    let (x, y) = (p.x - a.x * w, p.y - a.y * w);
    assert(x - rx * w == p.x - c.x * w) by (nonlinear_arith)
        requires x == p.x - a.x * w, rx == c.x - a.x;
    assert(y - ry * w == p.y - c.y * w) by (nonlinear_arith)
        requires y == p.y - a.y * w, ry == c.y - a.y;
    assert(x * d1y == y * d1x) by (nonlinear_arith)
        requires cross(x, y, d1x, d1y) == 0;
    assert((x - rx * w) * d2y == (y - ry * w) * d2x) by (nonlinear_arith)
        requires cross(x - rx * w, y - ry * w, d2x, d2y) == 0;
    lemma_param_of_common_point(x, y, w, d1x, d1y, d2x, d2y, rx, ry);
    let den = isect_den(s1, s2);
    let t = isect_t(s1, s2);
    let sg = sign(den);
    assert(x * (den * sg) == d1x * w * (t * sg) && y * (den * sg) == d1y * w * (t * sg)) by (nonlinear_arith)
        requires x * den == d1x * w * t, y * den == d1y * w * t;
    assert(den * sg > 0);
    assert(b_bounds(x, d1x, w)) by {
        assert(a.x * w + d1x * w == s1.p2.x * w) by (nonlinear_arith)
            requires d1x == s1.p2.x - a.x;
        assert(d1x > 0 ==> a.x <= s1.p2.x);
    }
    assert(b_bounds(y, d1y, w)) by {
        assert(a.y * w + d1y * w == s1.p2.y * w) by (nonlinear_arith)
            requires d1y == s1.p2.y - a.y;
    }
    if d1x != 0 {
        lemma_param_in_range(x, d1x, w, t * sg, den * sg);
    } else {
        assert(d1y != 0);
        lemma_param_in_range(y, d1y, w, t * sg, den * sg);
    }
}

/// `x` lies between `0` and `d * w`.
spec fn b_bounds(x: int, d: int, w: int) -> bool {
    &&& d > 0 ==> 0 <= x <= d * w
    &&& d < 0 ==> d * w <= x <= 0
}

/// Two segments whose lines cross meet in at most one point: any point on
/// both is the one that `find_intersection` returns.
pub proof fn lemma_common_point_is_intersection(p: Point, s1: LineSegment, s2: LineSegment)
    requires
        s1.wf(),
        s2.wf(),
        p.wf(),
        lies_on(p, s1),
        lies_on(p, s2),
        isect_den(s1, s2) != 0,
    ensures
        crosses(s1, s2),
        spec_intersection(s1, s2) is Some,
        same_point(p, spec_intersection(s1, s2)->0),
{
    let (d1x, d1y) = (s1.p2.x - s1.p1.x, s1.p2.y - s1.p1.y);
    let (d2x, d2y) = (s2.p2.x - s2.p1.x, s2.p2.y - s2.p1.y);
    let (rx, ry) = (s2.p1.x - s1.p1.x, s2.p1.y - s1.p1.y);
    assert(cross(d2x, d2y, d1x, d1y) == -cross(d1x, d1y, d2x, d2y)) by (nonlinear_arith);
    assert(cross(-rx, -ry, d1x, d1y) == -cross(rx, ry, d1x, d1y)) by (nonlinear_arith);
    assert(cross(d1x, d1y, d2x, d2y) != 0);
    assert(isect_den(s2, s1) != 0);
    lemma_common_point_param(p, s1, s2);
    lemma_common_point_param(p, s2, s1);
    let den = isect_den(s1, s2);
    assert(isect_den(s2, s1) == -den);
    assert(isect_t(s2, s1) == -isect_u(s1, s2));
    let sg = sign(den);
    assert(sign(-den) == -sg);
    assert(isect_t(s2, s1) * sign(isect_den(s2, s1)) == isect_u(s1, s2) * sg) by (nonlinear_arith)
        requires isect_t(s2, s1) == -isect_u(s1, s2), sign(isect_den(s2, s1)) == -sg;
    assert(isect_den(s2, s1) * sign(isect_den(s2, s1)) == den * sg) by (nonlinear_arith)
        requires isect_den(s2, s1) == -den, sign(isect_den(s2, s1)) == -sg;
    assert(crosses(s1, s2));
    lemma_intersection_lies_on_both(s1, s2);
    let q = spec_intersection(s1, s2)->0;
    let t = isect_t(s1, s2);
    let (a, w) = (s1.p1, p.w as int);
    let (qx, qy, qw) = crossing_parts(s1, s2);
    assert(q.x == qx && q.y == qy && q.w == qw);
    lemma_scaled_eq(p.x as int, a.x as int, w, den, d1x, t, sg);
    lemma_scaled_eq(p.y as int, a.y as int, w, den, d1y, t, sg);
}

proof fn lemma_scaled_eq(px: int, ax: int, w: int, den: int, d: int, t: int, sg: int)
    requires
        (px - ax * w) * den == d * w * t,
    ensures
        px * (den * sg) == ((ax * den + t * d) * sg) * w,
{
    assert((px - ax * w) * den == px * den - ax * w * den) by (nonlinear_arith);
    assert(w * (ax * den + t * d) == ax * w * den + d * w * t) by (nonlinear_arith);
    let e = ax * den + t * d;
    assert(px * den == w * e);
    assert(px * (den * sg) == (px * den) * sg) by (nonlinear_arith);
    assert((w * e) * sg == (e * sg) * w) by (nonlinear_arith);
}

/// A point of a segment other than its endpoints lies strictly between them
/// in sweep order.
pub proof fn lemma_inner_point_between(p: Point, s: LineSegment)
    requires
        s.wf(),
        p.wf(),
        lies_on(p, s),
        !same_point(p, s.p1),
        !same_point(p, s.p2),
    ensures
        sweep_before(s.upper(), p),
        sweep_before(p, s.lower()),
{
    let (a, b) = (s.p1, s.p2);
    let w = p.w as int;
    let (dx, dy) = (b.x - a.x, b.y - a.y);
    let (ex, ey) = (p.x - a.x * w, p.y - a.y * w);
    assert(ex * dy == ey * dx) by (nonlinear_arith)
        requires cross(ex, ey, dx, dy) == 0;
    assert(a.x * p.w == a.x * w && b.x * p.w == b.x * w);
    // p is not a, so (ex, ey) != 0; p is not b, so (ex, ey) != w * (dx, dy)
    assert(!(ex == 0 && ey == 0));
    assert(b.x * w == a.x * w + dx * w && b.y * w == a.y * w + dy * w) by (nonlinear_arith)
        requires dx == b.x - a.x, dy == b.y - a.y;
    assert(!(ex == dx * w && ey == dy * w));
    if dy != 0 {
        if ey == 0 {
            assert(ex * dy == 0);
            assert(ex == 0) by (nonlinear_arith)
                requires ex * dy == 0, dy != 0;
        }
        if ey == dy * w {
            assert(ex * dy == dy * w * dx) by (nonlinear_arith)
                requires ex * dy == ey * dx, ey == dy * w;
            assert(ex == dx * w) by (nonlinear_arith)
                requires ex * dy == dy * w * dx, dy != 0;
        }
    } else {
        assert(a.y == b.y);
        assert(ey == 0);
        if ex == 0 {
        }
        assert(dx != 0);
    }
    lemma_sweep_total(a, b);
}

impl LineSegment {
    /// Both endpoints are grid points, and they differ.
    pub open spec fn wf(self) -> bool {
        &&& self.p1.on_grid()
        &&& self.p2.on_grid()
        &&& !(self.p1.x == self.p2.x && self.p1.y == self.p2.y)
    }

    /// The segment from `p1` to `p2`.
    pub fn new(p1: Point, p2: Point) -> (r: LineSegment)
        requires
            p1.on_grid(),
            p2.on_grid(),
            !(p1.x == p2.x && p1.y == p2.y),
        ensures
            r == (LineSegment { p1, p2 }),
            r.wf(),
    {
        LineSegment { p1, p2 }
    }

    /// The endpoint that the sweep reaches first.
    pub open spec fn upper(self) -> Point {
        if sweep_before(self.p1, self.p2) {
            self.p1
        } else {
            self.p2
        }
    }

    /// The endpoint that the sweep reaches last.
    pub open spec fn lower(self) -> Point {
        if sweep_before(self.p1, self.p2) {
            self.p2
        } else {
            self.p1
        }
    }

    /// The direction from the upper to the lower endpoint: it points down,
    /// or right when the segment is horizontal.
    pub fn downward_direction(&self) -> (r: Vector)
        requires
            self.wf(),
        ensures
            r.x == self.lower().x - self.upper().x,
            r.y == self.lower().y - self.upper().y,
            r.y < 0 || (r.y == 0 && r.x > 0),
    {
        if matches!(sweep_cmp(&self.p1, &self.p2), Ordering::Less) {
            Vector { x: self.p2.x - self.p1.x, y: self.p2.y - self.p1.y }
        } else {
            Vector { x: self.p1.x - self.p2.x, y: self.p1.y - self.p2.y }
        }
    }

    /// The point where `s1` and `s2` meet: `None` when they are parallel or
    /// the crossing of their lines lies outside either segment.
    pub fn find_intersection(s1: &LineSegment, s2: &LineSegment) -> (r: Option<Point>)
        requires
            s1.wf(),
            s2.wf(),
        ensures
            r == spec_intersection(*s1, *s2),
            r is Some ==> r->0.wf(),
    {
        let d1x = s1.p2.x - s1.p1.x;
        let d1y = s1.p2.y - s1.p1.y;
        let d2x = s2.p2.x - s2.p1.x;
        let d2y = s2.p2.y - s2.p1.y;
        let rx = s2.p1.x - s1.p1.x;
        let ry = s2.p1.y - s1.p1.y;
        proof {
            lemma_cross_bound(d1x as int, d1y as int, d2x as int, d2y as int);
            lemma_cross_bound(rx as int, ry as int, d2x as int, d2y as int);
            lemma_cross_bound(rx as int, ry as int, d1x as int, d1y as int);
            lemma_mul_abs_le(d1x as int, d2y as int, SPAN as int, SPAN as int);
            lemma_mul_abs_le(d1y as int, d2x as int, SPAN as int, SPAN as int);
            lemma_mul_abs_le(rx as int, d2y as int, SPAN as int, SPAN as int);
            lemma_mul_abs_le(ry as int, d2x as int, SPAN as int, SPAN as int);
            lemma_mul_abs_le(rx as int, d1y as int, SPAN as int, SPAN as int);
            lemma_mul_abs_le(ry as int, d1x as int, SPAN as int, SPAN as int);
        }
        let den = d1x * d2y - d1y * d2x;
        let t = rx * d2y - ry * d2x;
        let u = rx * d1y - ry * d1x;
        if den == 0 {
            return None;
        }
        let (den, t, u) = if den > 0 { (den, t, u) } else { (-den, -t, -u) };
        if t < 0 || t > den || u < 0 || u > den {
            return None;
        }
        proof {
            lemma_mul_abs_le(s1.p1.x as int, den as int, 32768, CROSS_BOUND as int);
            lemma_mul_abs_le(s1.p1.y as int, den as int, 32768, CROSS_BOUND as int);
            lemma_mul_abs_le(t as int, d1x as int, CROSS_BOUND as int, SPAN as int);
            lemma_mul_abs_le(t as int, d1y as int, CROSS_BOUND as int, SPAN as int);
        }
        let x = s1.p1.x * den + t * d1x;
        let y = s1.p1.y * den + t * d1y;
        proof {
            let ghost sg = sign(isect_den(*s1, *s2));
            assert(isect_t(*s1, *s2) * sg == t as int) by (nonlinear_arith)
                requires sg == 1 || sg == -1, sg == 1 ==> t == isect_t(*s1, *s2),
                    sg == -1 ==> t == -isect_t(*s1, *s2);
            assert(isect_u(*s1, *s2) * sg == u as int) by (nonlinear_arith)
                requires sg == 1 || sg == -1, sg == 1 ==> u == isect_u(*s1, *s2),
                    sg == -1 ==> u == -isect_u(*s1, *s2);
            assert(isect_den(*s1, *s2) * sg == den as int);
            let ghost parts = crossing_parts(*s1, *s2);
            assert(parts.0 == x as int) by (nonlinear_arith)
                requires
                    sg == 1 || sg == -1,
                    parts.0 == (s1.p1.x * isect_den(*s1, *s2) + isect_t(*s1, *s2) * d1x) * sg,
                    den == isect_den(*s1, *s2) * sg,
                    t == isect_t(*s1, *s2) * sg,
                    x == s1.p1.x * den + t * d1x;
            assert(parts.1 == y as int) by (nonlinear_arith)
                requires
                    sg == 1 || sg == -1,
                    parts.1 == (s1.p1.y * isect_den(*s1, *s2) + isect_t(*s1, *s2) * d1y) * sg,
                    den == isect_den(*s1, *s2) * sg,
                    t == isect_t(*s1, *s2) * sg,
                    y == s1.p1.y * den + t * d1y;
        }
        Some(Point { x, y, w: den })
    }
}

} // verus!

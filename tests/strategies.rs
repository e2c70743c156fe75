use segment_intersection::brute_force::calc_intersections_brute_force;
use segment_intersection::geometry::{LineSegment, Point};
use segment_intersection::strategy::{LineSegmentIntersectionBuilder, LineSegmentIntersectionStrategy};
use segment_intersection::sweep_line::calc_intersections;

fn pt2(x: i16, y: i16) -> Point {
    Point::new(x, y)
}

fn seg(x1: i16, y1: i16, x2: i16, y2: i16) -> LineSegment {
    LineSegment::new(pt2(x1, y1), pt2(x2, y2))
}

fn run(strategy: LineSegmentIntersectionStrategy, segments: &[LineSegment]) -> Vec<Point> {
    LineSegmentIntersectionBuilder::new()
        .strategy(strategy)
        .build_from_iter(segments)
        .intersections
}

fn sweep(segments: &[LineSegment]) -> Vec<Point> {
    run(LineSegmentIntersectionStrategy::SweepLine, segments)
}

fn brute(segments: &[LineSegment]) -> Vec<Point> {
    run(LineSegmentIntersectionStrategy::BruteForce, segments)
}

fn same_set(a: &[Point], b: &[Point]) -> bool {
    a.iter().all(|p| b.contains(p)) && b.iter().all(|p| a.contains(p))
}

#[test]
fn crossing_diagonals_meet_at_center() {
    let segments = vec![seg(0, 0, 1, 1), seg(0, 1, 1, 0)];
    let half = Point::from_parts(1, 1, 2).unwrap();
    assert_eq!(sweep(&segments), vec![half]);
    assert_eq!(brute(&segments), vec![half]);
    assert_eq!(calc_intersections(&segments).intersections, vec![half]);
    assert_eq!(calc_intersections_brute_force(&segments).intersections, vec![half]);
}

#[test]
fn no_segments_give_no_points() {
    assert!(sweep(&[]).is_empty());
    assert!(brute(&[]).is_empty());
}

#[test]
fn one_segment_gives_no_points() {
    let segments = vec![seg(-3, 4, 5, -6)];
    assert!(sweep(&segments).is_empty());
    assert!(brute(&segments).is_empty());
}

#[test]
fn disjoint_segments_give_no_points() {
    let segments = vec![seg(0, 0, 1, 1), seg(3, 0, 5, 1)];
    assert!(sweep(&segments).is_empty());
    assert!(brute(&segments).is_empty());
}

#[test]
fn parallel_segments_give_no_points() {
    let segments = vec![seg(0, 0, 4, 2), seg(0, 1, 4, 3)];
    assert!(sweep(&segments).is_empty());
    assert!(brute(&segments).is_empty());
}

#[test]
fn crossing_once_gives_that_point() {
    let segments = vec![seg(-4, 0, 4, 0), seg(1, 3, 1, -3)];
    assert_eq!(sweep(&segments), vec![pt2(1, 0)]);
    assert_eq!(brute(&segments), vec![pt2(1, 0)]);
}

#[test]
fn shared_upper_endpoint_reported_once() {
    let segments = vec![seg(0, 0, 1, 1), seg(1, 1, 2, 0)];
    assert_eq!(sweep(&segments), vec![pt2(1, 1)]);
    assert_eq!(brute(&segments), vec![pt2(1, 1)]);
}

#[test]
fn shared_lower_endpoint_reported_once() {
    let segments = vec![seg(0, 1, 1, 0), seg(2, 1, 1, 0)];
    assert_eq!(sweep(&segments), vec![pt2(1, 0)]);
    assert_eq!(brute(&segments), vec![pt2(1, 0)]);
}

#[test]
fn three_segments_through_one_point() {
    let segments = vec![seg(-2, -2, 2, 2), seg(-2, 2, 2, -2), seg(0, 3, 0, -3)];
    assert_eq!(sweep(&segments), vec![pt2(0, 0)]);
    assert_eq!(brute(&segments), vec![pt2(0, 0), pt2(0, 0), pt2(0, 0)]);
}

#[test]
fn sweep_reports_points_by_x_then_y() {
    let segments = vec![seg(0, 10, 10, 0), seg(0, 0, 10, 10), seg(0, 2, 10, 2)];
    assert_eq!(sweep(&segments), vec![pt2(2, 2), pt2(5, 5), pt2(8, 2)]);
    assert_eq!(brute(&segments), vec![pt2(5, 5), pt2(8, 2), pt2(2, 2)]);
}

#[test]
fn default_strategy_is_brute_force() {
    let segments = vec![seg(0, 0, 1, 1), seg(0, 1, 1, 0), seg(0, 0, 0, 1)];
    let r = LineSegmentIntersectionBuilder::new().build_from_iter(&segments);
    assert_eq!(r.intersections, calc_intersections_brute_force(&segments).intersections);
}

#[test]
fn running_twice_gives_the_same_points() {
    let segments = vec![seg(0, 10, 10, 0), seg(0, 0, 10, 10), seg(0, 2, 10, 3), seg(-3, 7, 12, 1)];
    assert_eq!(sweep(&segments), sweep(&segments));
    assert_eq!(brute(&segments), brute(&segments));
}

struct Lcg(u64);

impl Lcg {
    fn next(&mut self, range: i64) -> i16 {
        self.0 = self.0.wrapping_mul(6364136223846793005).wrapping_add(1442695040888963407);
        (((self.0 >> 33) as i64).rem_euclid(2 * range + 1) - range) as i16
    }
}

fn random_segments(seed: u64, n: usize, range: i64) -> Vec<LineSegment> {
    let mut rng = Lcg(seed);
    let mut segments = Vec::new();
    while segments.len() < n {
        let (x1, y1, x2, y2) = (rng.next(range), rng.next(range), rng.next(range), rng.next(range));
        if (x1, y1) != (x2, y2) {
            segments.push(seg(x1, y1, x2, y2));
        }
    }
    segments
}

#[test]
fn sweep_agrees_with_brute_force_on_random_segments() {
    for seed in 1..6u64 {
        let segments = random_segments(seed, 40, 20000);
        let s = sweep(&segments);
        let b = brute(&segments);
        assert!(!b.is_empty());
        assert!(same_set(&s, &b), "seed {}: sweep {} points, brute force {}", seed, s.len(), b.len());
    }
}

#[test]
fn sweep_agrees_with_brute_force_with_horizontal_segments() {
    for seed in 10..14u64 {
        let mut segments = random_segments(seed, 30, 20000);
        let mut rng = Lcg(seed * 7919);
        for _ in 0..8 {
            let (x1, x2, y) = (rng.next(20000), rng.next(20000), rng.next(20000));
            if x1 != x2 {
                segments.push(seg(x1, y, x2, y));
            }
        }
        let s = sweep(&segments);
        let b = brute(&segments);
        assert!(same_set(&s, &b), "seed {}: sweep {} points, brute force {}", seed, s.len(), b.len());
    }
}

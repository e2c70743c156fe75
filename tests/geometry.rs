use segment_intersection::geometry::{wide_mul, LineSegment, Point, Vector};

fn pt2(x: i16, y: i16) -> Point {
    Point::new(x, y)
}

#[test]
fn points_equal_by_value() {
    assert_eq!(Point::from_parts(2, 4, 2).unwrap(), pt2(1, 2));
    assert_ne!(Point::from_parts(3, 4, 2).unwrap(), pt2(1, 2));
}

#[test]
fn from_parts_rejects_bad_denominators_and_large_numerators() {
    assert!(Point::from_parts(1, 1, 0).is_none());
    assert!(Point::from_parts(1, 1, -2).is_none());
    assert!(Point::from_parts(1 << 51, 0, 1).is_none());
    assert!(Point::from_parts(1 << 50, -(1 << 50), 1 << 34).is_some());
}

#[test]
fn wide_mul_is_exact() {
    assert_eq!(wide_mul(i64::MAX, i64::MAX), (i64::MAX as i128) * (i64::MAX as i128));
    assert_eq!(wide_mul(-3, 7), -21);
}

#[test]
fn intersection_of_crossing_segments() {
    let s1 = LineSegment::new(pt2(0, 0), pt2(4, 2));
    let s2 = LineSegment::new(pt2(0, 3), pt2(3, 0));
    let p = LineSegment::find_intersection(&s1, &s2).unwrap();
    assert_eq!(p, Point::from_parts(2, 1, 1).unwrap());
    let q = LineSegment::find_intersection(&s2, &s1).unwrap();
    assert_eq!(p, q);
}

#[test]
fn intersection_with_fraction() {
    let s1 = LineSegment::new(pt2(0, 0), pt2(3, 1));
    let s2 = LineSegment::new(pt2(1, 0), pt2(1, 5));
    let p = LineSegment::find_intersection(&s1, &s2).unwrap();
    assert_eq!(p, Point::from_parts(3, 1, 3).unwrap());
}

#[test]
fn touching_endpoint_counts() {
    let s1 = LineSegment::new(pt2(0, 0), pt2(2, 0));
    let s2 = LineSegment::new(pt2(1, 0), pt2(1, 4));
    assert_eq!(LineSegment::find_intersection(&s1, &s2), Some(pt2(1, 0)));
}

#[test]
fn no_intersection_when_parallel_or_out_of_range() {
    let s1 = LineSegment::new(pt2(0, 0), pt2(2, 2));
    let s2 = LineSegment::new(pt2(1, 0), pt2(3, 2));
    assert_eq!(LineSegment::find_intersection(&s1, &s2), None);
    let s3 = LineSegment::new(pt2(5, 0), pt2(5, 1));
    assert_eq!(LineSegment::find_intersection(&s1, &s3), None);
    assert_eq!(LineSegment::find_intersection(&s1, &s1), None);
}

#[test]
fn intersection_at_grid_extremes() {
    let s1 = LineSegment::new(pt2(-32768, -32768), pt2(32767, 32767));
    let s2 = LineSegment::new(pt2(-32768, 32767), pt2(32767, -32768));
    let p = LineSegment::find_intersection(&s1, &s2).unwrap();
    assert_eq!(p, Point::from_parts(-1, -1, 2).unwrap());
}

#[test]
fn downward_direction_points_down_or_right() {
    let d = LineSegment::new(pt2(0, 0), pt2(3, 4)).downward_direction();
    assert_eq!((d.x, d.y), (-3, -4));
    let d = LineSegment::new(pt2(3, 4), pt2(0, 0)).downward_direction();
    assert_eq!((d.x, d.y), (-3, -4));
    let h: Vector = LineSegment::new(pt2(5, 1), pt2(-2, 1)).downward_direction();
    assert_eq!((h.x, h.y), (7, 0));
}

use segment_intersection::geometry::Point;
use segment_intersection::sweep_line::distinct_point::{DistinctPoint, DistinctPointSet};
use std::cmp::Ordering;

#[test]
fn distinct_point_orders_by_x_then_y() {
    let a = DistinctPoint::new(Point::new(0, 5));
    let b = DistinctPoint::new(Point::new(1, -5));
    let c = DistinctPoint::new(Point::from_parts(0, 12, 2).unwrap());
    assert_eq!(a.cmp(&b), Ordering::Less);
    assert_eq!(b.cmp(&a), Ordering::Greater);
    assert_eq!(a.cmp(&c), Ordering::Less);
    assert_eq!(c.cmp(&DistinctPoint::new(Point::new(0, 6))), Ordering::Equal);
}

#[test]
fn distinct_point_set_keeps_each_location_once() {
    let mut set = DistinctPointSet::new();
    assert!(set.insert(Point::new(3, 1)));
    assert!(set.insert(Point::new(-2, 7)));
    assert!(!set.insert(Point::from_parts(6, 2, 2).unwrap()));
    assert!(set.insert(Point::new(3, 0)));
    assert_eq!(set.to_vec(), vec![Point::new(-2, 7), Point::new(3, 0), Point::new(3, 1)]);
}

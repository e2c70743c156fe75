use segment_intersection::geometry::Point;
use segment_intersection::sweep_line::intersection_map::{IntersectionMap, SegmentPair};

#[test]
fn intersection_map_it_works() {
    let mut map = IntersectionMap::new();
    map.insert(0, 1, Point::new(0, 0));
    assert_eq!(map.lookup(0, 1), Some(Point::new(0, 0)));
    assert!(map.lookup(0, 2).is_none());
}

#[test]
fn intersection_map_ignores_id_order() {
    let mut map = IntersectionMap::new();
    map.insert(5, 2, Point::new(3, 4));
    assert_eq!(map.lookup(2, 5), Some(Point::new(3, 4)));
    map.record(7, 1, None);
    assert_eq!(map.get(1, 7), Some(None));
    assert_eq!(map.get(1, 8), None);
    assert_eq!(map.lookup(1, 7), None);
}

#[test]
fn segment_pair_puts_smaller_first() {
    assert_eq!(SegmentPair::new(9, 4), SegmentPair(4, 9));
    assert_eq!(SegmentPair::new(4, 9), SegmentPair(4, 9));
}

use segment_intersection::geometry::{LineSegment, Point};
use segment_intersection::sweep_line::event_queue::{EventPoint, EventQueue};
use segment_intersection::sweep_line::input::Input;
use std::cmp::Ordering;

fn pt2(x: i16, y: i16) -> Point {
    Point::new(x, y)
}

#[test]
fn it_works_1() {
    let p1 = EventPoint(pt2(0, 0));
    let p2 = EventPoint(pt2(0, -1));
    assert_eq!(p1.cmp(&p2), Ordering::Less);
}

#[test]
fn it_works_2() {
    let p1 = EventPoint(pt2(0, 0));
    let p2 = EventPoint(pt2(1, 0));
    assert_eq!(p1.cmp(&p2), Ordering::Less);
}

#[test]
fn it_works_3() {
    let p1 = EventPoint(pt2(1, 0));
    let p2 = EventPoint(pt2(0, -1));
    assert_eq!(p1.cmp(&p2), Ordering::Less);
}

#[test]
fn it_works_4() {
    let p1 = EventPoint(pt2(0, 0));
    let p2 = EventPoint(pt2(0, 0));
    assert_eq!(p1.cmp(&p2), Ordering::Equal);
}

#[test]
fn event_queue_dequeue_oreder_test_1() {
    let s1 = LineSegment {
        p1: pt2(0, 0),
        p2: pt2(1, 1),
    };
    let s2 = LineSegment {
        p1: pt2(0, 1),
        p2: pt2(1, 0),
    };
    let input = Input {
        segments: vec![s1, s2],
    };
    let mut eq = EventQueue::new(&input);
    eq.insert_segment(0);
    eq.insert_segment(1);
    eq.insert_intersection(Point::from_parts(1, 1, 2).unwrap(), 0, 1);

    let (point, data) = eq.dequeue_point().unwrap();
    assert_eq!(point, pt2(0, 1));
    assert_eq!(data.as_upper_endpoint.len(), 1);
    assert_eq!(data.as_lower_endpoint.len(), 0);
    assert_eq!(data.as_interior.len(), 0);

    let (point, data) = eq.dequeue_point().unwrap();
    assert_eq!(point, pt2(1, 1));
    assert_eq!(data.as_upper_endpoint.len(), 1);
    assert_eq!(data.as_lower_endpoint.len(), 0);
    assert_eq!(data.as_interior.len(), 0);

    let (point, data) = eq.dequeue_point().unwrap();
    assert_eq!(point, Point::from_parts(1, 1, 2).unwrap());
    assert_eq!(data.as_upper_endpoint.len(), 0);
    assert_eq!(data.as_lower_endpoint.len(), 0);
    assert_eq!(data.as_interior.len(), 2);

    let (point, data) = eq.dequeue_point().unwrap();
    assert_eq!(point, pt2(0, 0));
    assert_eq!(data.as_upper_endpoint.len(), 0);
    assert_eq!(data.as_lower_endpoint.len(), 1);
    assert_eq!(data.as_interior.len(), 0);

    let (point, data) = eq.dequeue_point().unwrap();
    assert_eq!(point, pt2(1, 0));
    assert_eq!(data.as_upper_endpoint.len(), 0);
    assert_eq!(data.as_lower_endpoint.len(), 1);
    assert_eq!(data.as_interior.len(), 0);
}

#[test]
fn dequeue_order_of_many_points() {
    let segments = vec![
        LineSegment::new(pt2(3, -2), pt2(-5, 7)),
        LineSegment::new(pt2(0, 0), pt2(4, 0)),
        LineSegment::new(pt2(-1, 7), pt2(2, -9)),
    ];
    let input = Input { segments };
    let mut eq = EventQueue::new(&input);
    eq.insert_segment(2);
    eq.insert_segment(0);
    eq.insert_segment(1);
    eq.insert_intersection(Point::from_parts(7, 131, 101).unwrap(), 0, 2);
    let mut points = Vec::new();
    while let Some((p, _)) = eq.dequeue_point() {
        points.push(p);
    }
    assert_eq!(points.len(), 7);
    for w in points.windows(2) {
        assert_eq!(EventPoint(w[0]).cmp(&EventPoint(w[1])), Ordering::Less);
    }
    assert_eq!(points[0], pt2(-5, 7));
    assert_eq!(points[1], pt2(-1, 7));
    assert_eq!(points[6], pt2(2, -9));
}

#[test]
fn intersection_registered_twice_is_kept_once() {
    let input = Input {
        segments: vec![
            LineSegment::new(pt2(0, 0), pt2(2, 2)),
            LineSegment::new(pt2(0, 2), pt2(2, 0)),
        ],
    };
    let mut eq = EventQueue::new(&input);
    eq.insert_intersection(pt2(1, 1), 0, 1);
    eq.insert_intersection(Point::from_parts(2, 2, 2).unwrap(), 1, 0);
    let (point, data) = eq.dequeue_point().unwrap();
    assert_eq!(point, pt2(1, 1));
    assert_eq!(data.as_interior.len(), 2);
    assert!(eq.dequeue_point().is_none());
}

use segment_intersection::geometry::{LineSegment, Point};
use segment_intersection::sweep_line::input::Input;
use segment_intersection::sweep_line::status::{Status, StatusItem};

fn pt2(x: i16, y: i16) -> Point {
    Point::new(x, y)
}

#[test]
fn status_it_works() {
    let s1 = LineSegment {
        p1: pt2(1, 1),
        p2: pt2(-1, -1),
    };
    let s2 = LineSegment {
        p1: pt2(-1, 1),
        p2: pt2(1, -1),
    };
    let input = Input {
        segments: vec![s1, s2],
    };

    let mut status = Status::new(&input);
    status.insert(
        StatusItem {
            line_segment_id: 0,
            downward_dir: s1.downward_direction(),
        },
        pt2(-1, 1),
    );
    status.insert(
        StatusItem {
            line_segment_id: 1,
            downward_dir: s2.downward_direction(),
        },
        pt2(1, 1),
    );

    assert_eq!(status.items().len(), 2);
    assert_eq!(status.items()[0].line_segment_id, 1);
    assert_eq!(status.items()[1].line_segment_id, 0);
}

#[test]
fn status_neighbors_follow_x_at_event_height() {
    let segments = vec![
        LineSegment::new(pt2(0, 10), pt2(0, -10)),
        LineSegment::new(pt2(10, 10), pt2(10, -10)),
        LineSegment::new(pt2(-5, 5), pt2(15, -5)),
    ];
    let input = Input { segments };
    let mut status = Status::new(&input);
    let d0 = input.segments[0].downward_direction();
    let d1 = input.segments[1].downward_direction();
    let d2 = input.segments[2].downward_direction();
    let (l, r) = status.insert(StatusItem::new(0, d0), pt2(0, 10));
    assert!(l.is_none() && r.is_none());
    let (l, r) = status.insert(StatusItem::new(1, d1), pt2(10, 10));
    assert_eq!(l.unwrap().line_segment_id, 0);
    assert!(r.is_none());
    // at y = 5 segment 2 is at x = -5, left of both verticals
    let (l, r) = status.insert(StatusItem::new(2, d2), pt2(-5, 5));
    assert!(l.is_none());
    assert_eq!(r.unwrap().line_segment_id, 0);

    let (l, r, removed) = status.remove(0).unwrap();
    assert_eq!(removed.line_segment_id, 0);
    assert_eq!(l.unwrap().line_segment_id, 2);
    assert_eq!(r.unwrap().line_segment_id, 1);
    assert!(status.remove(0).is_none());
    assert_eq!(status.find_index(1), Some(1));
}

#[test]
fn status_breaks_ties_by_direction() {
    // both pass through (0, 0); below it segment 0 goes left, segment 1 right
    let segments = vec![
        LineSegment::new(pt2(1, 1), pt2(-1, -1)),
        LineSegment::new(pt2(-1, 1), pt2(1, -1)),
    ];
    let input = Input { segments };
    let mut status = Status::new(&input);
    let d0 = input.segments[0].downward_direction();
    let d1 = input.segments[1].downward_direction();
    status.insert(StatusItem::new(1, d1), pt2(0, 0));
    let (l, r) = status.insert(StatusItem::new(0, d0), pt2(0, 0));
    assert!(l.is_none());
    assert_eq!(r.unwrap().line_segment_id, 1);
}

#[test]
fn status_stays_ordered_through_inserts_and_removes() {
    // four segments crossing the line y = 0 at x = -6, -2, 3 and 7
    let segments = vec![
        LineSegment::new(pt2(-6, 5), pt2(-6, -5)),
        LineSegment::new(pt2(-4, 4), pt2(0, -4)),
        LineSegment::new(pt2(3, 9), pt2(3, -9)),
        LineSegment::new(pt2(9, 2), pt2(5, -2)),
    ];
    let input = Input { segments };
    let at = pt2(0, 0);
    let mut status = Status::new(&input);
    for id in [2usize, 0, 3, 1] {
        let d = input.segments[id].downward_direction();
        status.insert(StatusItem::new(id, d), at);
    }
    let order: Vec<usize> = status.items().iter().map(|i| i.line_segment_id).collect();
    assert_eq!(order, vec![0, 1, 2, 3]);
    let (l, r, _) = status.remove(2).unwrap();
    assert_eq!((l.unwrap().line_segment_id, r.unwrap().line_segment_id), (1, 3));
    let d = input.segments[2].downward_direction();
    let (l, r) = status.insert(StatusItem::new(2, d), at);
    assert_eq!((l.unwrap().line_segment_id, r.unwrap().line_segment_id), (1, 3));
}

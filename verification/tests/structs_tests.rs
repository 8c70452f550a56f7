use quadtree::structs::{Line, Rect, Vec2};
use rand::Rng;

#[test]
fn lineline_intersect_1() {
    let l1 = Line {
        origin: Vec2 { x: 0, y: 0 },
        end: Vec2 { x: 10, y: 10 },
    };
    let l2 = Line {
        origin: Vec2 { x: 0, y: 10 },
        end: Vec2 { x: 10, y: 0 },
    };
    let p = Line::lineline_intersect(&l1, &l2).unwrap();
    assert!(p.den > 0);
    assert_eq!(p.x_num, 5 * p.den);
    assert_eq!(p.y_num, 5 * p.den);
}

#[test]
fn ua_test_rng() {
    let mut rng = rand::thread_rng();
    for _ in 1..100 {
        let (x1, y1): (i64, i64) = (rng.gen_range(1..10), rng.gen_range(1..10));
        let (x2, y2): (i64, i64) = (rng.gen_range(1..10), rng.gen_range(1..10));
        let (x3, y3): (i64, i64) = (rng.gen_range(1..10), rng.gen_range(1..10));
        let (x4, y4): (i64, i64) = (rng.gen_range(1..10), rng.gen_range(1..10));
        let l1: Line = Line {
            origin: Vec2 { x: x1, y: y1 },
            end: Vec2 { x: x2, y: y2 },
        };
        let l2: Line = Line {
            origin: Vec2 { x: x3, y: y3 },
            end: Vec2 { x: x4, y: y4 },
        };
        assert_eq!(Line::ua(&l1, &l2), Line::ua2(&l1, &l2))
    }
}

#[test]
fn ua_test_1() {
    let l1 = Line {
        origin: Vec2 { x: 0, y: 0 },
        end: Vec2 { x: 10, y: 10 },
    };
    let l2 = Line {
        origin: Vec2 { x: 0, y: 10 },
        end: Vec2 { x: 10, y: 0 },
    };
    assert_eq!(Line::ua(&l1, &l2), Line::ua2(&l1, &l2))
}

#[test]
fn lineline_intersect_2() {
    let l1 = Line {
        origin: Vec2 { x: 10, y: 10 },
        end: Vec2 { x: 20, y: 20 },
    };
    let l2 = Line {
        origin: Vec2 { x: 10, y: 20 },
        end: Vec2 { x: 20, y: 10 },
    };
    let p = Line::lineline_intersect(&l1, &l2).unwrap();
    assert!(p.den > 0);
    assert_eq!(p.x_num, 15 * p.den);
    assert_eq!(p.y_num, 15 * p.den);
}

#[test]
fn lineline_intersect_overlap_1() {
    let l1 = Line {
        origin: Vec2 { x: 10, y: 10 },
        end: Vec2 { x: 20, y: 20 },
    };
    assert_eq!(Line::lineline_intersect(&l1, &l1), Err("No intersection."));
}

#[test]
fn lineline_intersect_negative_1() {
    let l1 = Line {
        origin: Vec2 { x: -10, y: 10 },
        end: Vec2 { x: 10, y: -10 },
    };
    let l2 = Line {
        origin: Vec2 { x: -15, y: -15 },
        end: Vec2 { x: 10, y: 15 },
    };
    // the exact intersection point is (-15/11, 15/11)
    let p = Line::lineline_intersect(&l1, &l2).unwrap();
    assert!(p.den > 0);
    assert_eq!(11 * p.x_num, -15 * p.den);
    assert_eq!(11 * p.y_num, 15 * p.den);
}

#[test]
fn rect_contains_1() {
    // (640, 292) lies in the x-range [400, 800) but below the y-range
    // [400, 600), so half-open containment rejects it
    let p = Vec2 { x: 640, y: 292 };
    let r = Rect {
        pos: Vec2 { x: 400, y: 400 },
        size: Vec2 { x: 400, y: 200 },
    };
    assert!(!r.contains(&p));
}

#[test]
fn rect_contains_half_open_edges() {
    let r = Rect {
        pos: Vec2 { x: 0, y: 0 },
        size: Vec2 { x: 10, y: 10 },
    };
    assert!(r.contains(&Vec2 { x: 0, y: 0 }));
    assert!(r.contains(&Vec2 { x: 9, y: 9 }));
    assert!(!r.contains(&Vec2 { x: 10, y: 0 }));
    assert!(!r.contains(&Vec2 { x: 0, y: 10 }));
    assert!(!r.contains(&Vec2 { x: -1, y: 5 }));
}

#[test]
fn rect_area_exact() {
    let r = Rect {
        pos: Vec2 { x: 400, y: 400 },
        size: Vec2 { x: 400, y: 200 },
    };
    assert_eq!(r.area(), 80000);
    let empty = Rect {
        pos: Vec2 { x: 0, y: 0 },
        size: Vec2 { x: 0, y: 7 },
    };
    assert_eq!(empty.area(), 0);
}

#[test]
fn rect_points_inside_filters_in_order() {
    let r = Rect {
        pos: Vec2 { x: 0, y: 0 },
        size: Vec2 { x: 10, y: 10 },
    };
    let pts = vec![
        Vec2 { x: 1, y: 1 },
        Vec2 { x: 10, y: 10 },
        Vec2 { x: 9, y: 0 },
        Vec2 { x: -3, y: 4 },
    ];
    let inside = r.points_inside(&pts);
    assert_eq!(inside, vec![Vec2 { x: 1, y: 1 }, Vec2 { x: 9, y: 0 }]);
}

#[test]
fn lineline_intersect_symmetric_pairs() {
    let l1 = Line {
        origin: Vec2 { x: -10, y: 10 },
        end: Vec2 { x: 10, y: -10 },
    };
    let l2 = Line {
        origin: Vec2 { x: -15, y: -15 },
        end: Vec2 { x: 10, y: 15 },
    };
    assert_eq!(
        Line::lineline_intersect(&l1, &l2),
        Line::lineline_intersect(&l2, &l1)
    );
    let l3 = Line {
        origin: Vec2 { x: 0, y: 0 },
        end: Vec2 { x: 10, y: 10 },
    };
    let l4 = Line {
        origin: Vec2 { x: 20, y: 0 },
        end: Vec2 { x: 30, y: 10 },
    };
    // parallel: no intersection either way round
    assert_eq!(
        Line::lineline_intersect(&l3, &l4),
        Line::lineline_intersect(&l4, &l3)
    );
    assert!(Line::lineline_intersect(&l3, &l4).is_err());
}

#[test]
fn lineline_intersect_disjoint_on_same_axis() {
    // the supporting lines cross, but outside both segments
    let l1 = Line {
        origin: Vec2 { x: 0, y: 0 },
        end: Vec2 { x: 1, y: 1 },
    };
    let l2 = Line {
        origin: Vec2 { x: 10, y: 0 },
        end: Vec2 { x: 0, y: 10 },
    };
    assert!(Line::lineline_intersect(&l1, &l2).is_err());
}

#[test]
fn linerect_intersect_crossing_and_missing() {
    let r = Rect {
        pos: Vec2 { x: 0, y: 0 },
        size: Vec2 { x: 10, y: 10 },
    };
    let crossing = Line::new(-5, 5, 15, 5);
    assert!(crossing.linerect_intersect(&r));
    let outside = Line::new(20, 20, 30, 30);
    assert!(!outside.linerect_intersect(&r));
    // entirely inside the rectangle: touches no edge
    let inside = Line::new(2, 2, 3, 3);
    assert!(!inside.linerect_intersect(&r));
}

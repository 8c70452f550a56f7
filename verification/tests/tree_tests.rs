use quadtree::structs::{Line, Rect, Vec2};
use quadtree::tree::{Node, QuadTree, TreeError};

fn world_100() -> Rect {
    Rect {
        pos: Vec2 { x: 0, y: 0 },
        size: Vec2 { x: 100, y: 100 },
    }
}

fn count_pos(positions: &[Vec2], p: Vec2) -> usize {
    positions.iter().filter(|&&q| q == p).count()
}

#[test]
fn three_points_stay_in_one_leaf() {
    let mut t: QuadTree<Vec2> = QuadTree::new_empty(world_100());
    assert!(t.insert(Vec2 { x: 10, y: 10 }).is_ok());
    assert!(t.insert(Vec2 { x: 20, y: 20 }).is_ok());
    assert!(t.insert(Vec2 { x: 30, y: 30 }).is_ok());
    let positions = t.get_positions();
    assert_eq!(positions.len(), 3);
    // no subdivision yet: the root is still a leaf holding all three points
    assert!(matches!(&t.node, Node::Leaf(v) if v.len() == 3));
    // and the only occupied leaf is the world rectangle
    assert_eq!(t.get_bounds(), vec![world_100()]);
}

#[test]
fn fourth_point_subdivides_into_one_occupied_quadrant() {
    let mut t: QuadTree<Vec2> = QuadTree::new_empty(world_100());
    assert!(t.insert(Vec2 { x: 10, y: 10 }).is_ok());
    assert!(t.insert(Vec2 { x: 11, y: 11 }).is_ok());
    assert!(t.insert(Vec2 { x: 12, y: 12 }).is_ok());
    assert!(t.insert(Vec2 { x: 13, y: 13 }).is_ok());
    let positions = t.get_positions();
    assert_eq!(positions.len(), 4);
    for k in 10..14 {
        assert_eq!(count_pos(&positions, Vec2 { x: k, y: k }), 1);
    }
    // the root subdivided: the quadrant holding the cluster is a leaf with
    // all four points, the other three children are empty leaves
    match &t.node {
        Node::Internal(c0, c1, c2, c3) => {
            assert!(matches!(&c0.node, Node::Leaf(v) if v.is_empty()));
            assert!(matches!(&c1.node, Node::Leaf(v) if v.len() == 4));
            assert!(matches!(&c2.node, Node::Leaf(v) if v.is_empty()));
            assert!(matches!(&c3.node, Node::Leaf(v) if v.is_empty()));
        }
        Node::Leaf(_) => panic!("the root should have subdivided"),
    }
    // only the low-left quadrant is occupied
    let low_left = Rect {
        pos: Vec2 { x: 0, y: 0 },
        size: Vec2 { x: 50, y: 50 },
    };
    assert_eq!(t.get_bounds(), vec![low_left]);
}

#[test]
fn boundary_point_lands_in_exactly_one_child() {
    let mut t: QuadTree<Vec2> = QuadTree::new_empty(world_100());
    // force a subdivision at half-point 50
    assert!(t.insert(Vec2 { x: 10, y: 10 }).is_ok());
    assert!(t.insert(Vec2 { x: 11, y: 11 }).is_ok());
    assert!(t.insert(Vec2 { x: 12, y: 12 }).is_ok());
    assert!(t.insert(Vec2 { x: 13, y: 13 }).is_ok());
    // (50, 50) sits on the shared corner of all four quadrants; the
    // half-open rule sends it to the child whose origin is (50, 50)
    assert!(t.insert(Vec2 { x: 50, y: 50 }).is_ok());
    let positions = t.get_positions();
    assert_eq!(positions.len(), 5);
    assert_eq!(count_pos(&positions, Vec2 { x: 50, y: 50 }), 1);
    let high_right = Rect {
        pos: Vec2 { x: 50, y: 50 },
        size: Vec2 { x: 50, y: 50 },
    };
    let bounds = t.get_bounds();
    assert_eq!(bounds.iter().filter(|&&r| r == high_right).count(), 1);
    assert_eq!(bounds.len(), 2);
}

#[test]
fn segment_outside_tree_hits_nothing() {
    let r = Rect {
        pos: Vec2 { x: 0, y: 0 },
        size: Vec2 { x: 10, y: 10 },
    };
    let mut t: QuadTree<Vec2> = QuadTree::new_empty(r);
    assert!(t.insert(Vec2 { x: 5, y: 5 }).is_ok());
    let l = Line::new(20, 20, 30, 30);
    assert!(!l.linerect_intersect(&r));
    assert!(t.get_intersecting_bounds(&l).is_empty());
}

#[test]
fn segment_through_tree_reports_crossed_leaves() {
    let mut t: QuadTree<Vec2> = QuadTree::new_empty(world_100());
    assert!(t.insert(Vec2 { x: 10, y: 10 }).is_ok());
    // a segment crossing the whole world hits the single leaf
    let l = Line::new(-10, 50, 110, 50);
    let hit = t.get_intersecting_bounds(&l);
    assert_eq!(hit.len(), 1);
    assert_eq!(hit[0].bounds, world_100());
}

#[test]
fn insert_out_of_bounds_is_rejected() {
    let mut t: QuadTree<Vec2> = QuadTree::new_empty(world_100());
    assert!(t.insert(Vec2 { x: 10, y: 10 }).is_ok());
    let before = t.get_positions().len();
    assert_eq!(
        t.insert(Vec2 { x: 200, y: 10 }),
        Err(TreeError::OutOfBounds)
    );
    assert_eq!(t.get_positions().len(), before);
}

#[test]
fn queries_are_idempotent() {
    let mut t: QuadTree<Vec2> = QuadTree::new_empty(world_100());
    for k in 0..10 {
        assert!(t
            .insert(Vec2 {
                x: 7 * k % 100,
                y: 13 * k % 100
            })
            .is_ok());
    }
    assert_eq!(t.get_positions(), t.get_positions());
    assert_eq!(t.get_bounds(), t.get_bounds());
    let l = Line::new(0, 0, 100, 100);
    let first: Vec<Rect> = t
        .get_intersecting_bounds(&l)
        .iter()
        .map(|n| n.bounds)
        .collect();
    let second: Vec<Rect> = t
        .get_intersecting_bounds(&l)
        .iter()
        .map(|n| n.bounds)
        .collect();
    assert_eq!(first, second);
}

#[test]
fn from_drops_only_outside_points() {
    let pts = vec![
        Vec2 { x: 1, y: 1 },
        Vec2 { x: 150, y: 1 },
        Vec2 { x: 2, y: 2 },
        Vec2 { x: -1, y: 5 },
        Vec2 { x: 3, y: 3 },
    ];
    let t: QuadTree<Vec2> = QuadTree::from(pts, world_100());
    let positions = t.get_positions();
    assert_eq!(positions.len(), 3);
    assert_eq!(count_pos(&positions, Vec2 { x: 1, y: 1 }), 1);
    assert_eq!(count_pos(&positions, Vec2 { x: 2, y: 2 }), 1);
    assert_eq!(count_pos(&positions, Vec2 { x: 3, y: 3 }), 1);
}

#[test]
fn positions_keep_the_inserted_multiset() {
    let mut t: QuadTree<Vec2> = QuadTree::new_empty(world_100());
    // duplicate positions are kept as duplicates
    assert!(t.insert(Vec2 { x: 10, y: 10 }).is_ok());
    assert!(t.insert(Vec2 { x: 10, y: 10 }).is_ok());
    assert!(t.insert(Vec2 { x: 80, y: 80 }).is_ok());
    let positions = t.get_positions();
    assert_eq!(positions.len(), 3);
    assert_eq!(count_pos(&positions, Vec2 { x: 10, y: 10 }), 2);
    assert_eq!(count_pos(&positions, Vec2 { x: 80, y: 80 }), 1);
}

#[test]
fn deep_subdivision_keeps_every_point() {
    let mut t: QuadTree<Vec2> = QuadTree::new_empty(world_100());
    // a diagonal cluster that forces repeated subdivision
    for k in 1..=20 {
        assert!(t.insert(Vec2 { x: k, y: k }).is_ok());
    }
    let positions = t.get_positions();
    assert_eq!(positions.len(), 20);
    for k in 1..=20 {
        assert_eq!(count_pos(&positions, Vec2 { x: k, y: k }), 1);
    }
    // every occupied leaf reported lies inside the world rectangle
    for b in t.get_bounds() {
        assert!(b.pos.x >= 0 && b.pos.y >= 0);
        assert!(b.pos.x + b.size.x <= 100 && b.pos.y + b.size.y <= 100);
    }
}

#[test]
fn get_objects_reports_nothing() {
    let mut t: QuadTree<Vec2> = QuadTree::new_empty(world_100());
    assert!(t.insert(Vec2 { x: 10, y: 10 }).is_ok());
    assert!(t.get_objects().is_empty());
}

#[test]
fn rect_implements_position_by_its_anchor() {
    let r = Rect {
        pos: Vec2 { x: 3, y: 4 },
        size: Vec2 { x: 10, y: 10 },
    };
    let mut t: QuadTree<Rect> = QuadTree::new_empty(world_100());
    assert!(t.insert(r).is_ok());
    assert_eq!(t.get_positions(), vec![Vec2 { x: 3, y: 4 }]);
}

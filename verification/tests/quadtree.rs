use arcade_physics::math::{Extent, Vec2};
use arcade_physics::physics::{Position, AABB};
use arcade_physics::quadtree::{build_quadtree, Entry, Quadtree};

fn point(x: i32, y: i32) -> Position {
    Position::new(Vec2::new(x, y))
}

fn square_box(half: u32) -> AABB {
    AABB::new(Extent::splat(half))
}

fn query(tree: &Quadtree, range: &AABB, position: Position) -> Vec<u64> {
    let mut found = Vec::new();
    tree.query(range, position, &mut found);
    found
}

fn sorted(mut ids: Vec<u64>) -> Vec<u64> {
    ids.sort_unstable();
    ids
}

#[test]
fn three_points_split_the_root_and_are_all_found() {
    let boundary = square_box(100_000);
    let mut tree = Quadtree::new(boundary, Vec2::zero(), 1, 4, 0);
    assert!(!tree.is_divided());
    assert!(tree.insert(1, None, point(0, 0)));
    assert!(!tree.is_divided());
    assert!(tree.insert(2, None, point(50_000, 50_000)));
    assert!(tree.insert(3, None, point(-50_000, -50_000)));
    assert!(tree.is_divided());
    assert_eq!(sorted(query(&tree, &boundary, point(0, 0))), vec![1, 2, 3]);
}

#[test]
fn a_new_tree_is_an_empty_leaf() {
    let boundary = square_box(100_000);
    let tree = Quadtree::new(boundary, Vec2::new(5, 5), 2, 8, 0);
    assert!(!tree.is_divided());
    assert!(query(&tree, &boundary, point(5, 5)).is_empty());
}

#[test]
fn what_lies_outside_the_boundary_is_not_indexed() {
    let boundary = square_box(100_000);
    let mut tree = Quadtree::new(boundary, Vec2::zero(), 4, 4, 0);
    assert!(!tree.insert(1, None, point(100_000, 0)));
    assert!(!tree.insert(2, None, point(0, -100_000)));
    assert!(!tree.insert(3, None, point(250_000, 250_000)));
    assert!(!tree.insert(4, Some(square_box(10_000)), point(95_000, 0)));
    assert!(!tree.insert(5, Some(square_box(100_000)), point(0, 0)));
    assert!(tree.insert(6, Some(square_box(10_000)), point(89_999, 0)));
    assert!(tree.insert(7, None, point(99_999, -99_999)));
    let everything = square_box(u32::MAX);
    assert_eq!(sorted(query(&tree, &everything, point(0, 0))), vec![6, 7]);
    assert_eq!(sorted(query(&tree, &boundary, point(0, 0))), vec![6, 7]);
}

#[test]
fn a_query_for_the_boundary_reports_everything_accepted() {
    let boundary = AABB::new(Extent::new(64_000, 48_000));
    let mut tree = Quadtree::new(boundary, Vec2::new(1_000, -2_000), 2, 6, 0);
    let mut accepted = Vec::new();
    let mut id = 0;
    for x in -8..=8 {
        for y in -8..=8 {
            let shape = if (x + y) % 3 == 0 { Some(square_box(3_000)) } else { None };
            if tree.insert(id, shape, point(x * 9_000, y * 7_000)) {
                accepted.push(id);
            }
            id += 1;
        }
    }
    assert!(accepted.len() > 100);
    assert!(accepted.len() < id as usize);
    assert!(tree.is_divided());
    assert_eq!(sorted(query(&tree, &boundary, point(1_000, -2_000))), accepted);
}

#[test]
fn a_leaf_at_the_depth_limit_takes_everything() {
    let boundary = square_box(100_000);
    let mut tree = Quadtree::new(boundary, Vec2::zero(), 1, 0, 0);
    for id in 0..10 {
        assert!(tree.insert(id, None, point(id as i32 * 1_000, 0)));
    }
    assert!(!tree.is_divided());
    assert_eq!(query(&tree, &boundary, point(0, 0)), vec![0, 1, 2, 3, 4, 5, 6, 7, 8, 9]);
}

#[test]
fn a_leaf_splits_when_it_is_full() {
    let boundary = square_box(100_000);
    let mut tree = Quadtree::new(boundary, Vec2::zero(), 3, 4, 0);
    tree.insert(0, None, point(10_000, 10_000));
    tree.insert(1, None, point(-10_000, 10_000));
    tree.insert(2, None, point(10_000, -10_000));
    assert!(!tree.is_divided());
    tree.insert(3, None, point(-10_000, -10_000));
    assert!(tree.is_divided());
}

#[test]
fn a_tree_without_capacity_splits_at_once() {
    let boundary = square_box(100_000);
    let mut tree = Quadtree::new(boundary, Vec2::zero(), 0, 3, 0);
    assert!(tree.insert(0, None, point(10_000, 10_000)));
    assert!(tree.is_divided());
    assert_eq!(query(&tree, &boundary, point(0, 0)), vec![0]);
}

#[test]
fn objects_in_other_quarters_are_not_reported() {
    let boundary = square_box(100_000);
    let mut tree = Quadtree::new(boundary, Vec2::zero(), 1, 4, 0);
    tree.insert(1, None, point(50_000, 50_000));
    tree.insert(2, None, point(-50_000, 50_000));
    tree.insert(3, None, point(-50_000, -50_000));
    tree.insert(4, None, point(50_000, -50_000));
    assert!(tree.is_divided());
    let view = square_box(20_000);
    assert_eq!(query(&tree, &view, point(50_000, 50_000)), vec![1]);
    assert_eq!(query(&tree, &view, point(-50_000, 50_000)), vec![2]);
    assert_eq!(query(&tree, &view, point(-50_000, -50_000)), vec![3]);
    assert_eq!(query(&tree, &view, point(50_000, -50_000)), vec![4]);
    assert_eq!(sorted(query(&tree, &square_box(40_000), point(0, 50_000))), vec![1, 2]);
    assert_eq!(sorted(query(&tree, &square_box(60_000), point(0, 50_000))), vec![1, 2, 3, 4]);
}

#[test]
fn the_quarters_meet_at_the_centre_lines() {
    let boundary = square_box(100_000);
    let mut tree = Quadtree::new(boundary, Vec2::zero(), 1, 1, 0);
    tree.insert(1, None, point(1, 1));
    tree.insert(2, None, point(-1, 1));
    tree.insert(3, None, point(-1, -1));
    tree.insert(4, None, point(1, -1));
    let tiny = square_box(1);
    assert_eq!(query(&tree, &tiny, point(99_999, 99_999)), vec![1]);
    assert_eq!(query(&tree, &tiny, point(-99_999, 99_999)), vec![2]);
    assert_eq!(query(&tree, &tiny, point(-99_999, -99_999)), vec![3]);
    assert_eq!(query(&tree, &tiny, point(99_999, -99_999)), vec![4]);
    assert_eq!(sorted(query(&tree, &tiny, point(0, 0))), vec![1, 2, 3, 4]);
    assert_eq!(sorted(query(&tree, &tiny, point(0, 50_000))), vec![1, 2]);
    assert_eq!(sorted(query(&tree, &tiny, point(1, 50_000))), vec![1]);
}

#[test]
fn an_object_across_the_centre_stays_at_the_split_node() {
    let boundary = square_box(100_000);
    let mut tree = Quadtree::new(boundary, Vec2::zero(), 1, 4, 0);
    tree.insert(1, None, point(50_000, 50_000));
    tree.insert(2, Some(square_box(10_000)), point(0, 0));
    tree.insert(3, None, point(0, 70_000));
    assert!(tree.is_divided());
    let far_corner = square_box(1_000);
    assert_eq!(sorted(query(&tree, &far_corner, point(-90_000, -90_000))), vec![2, 3]);
}

#[test]
fn a_range_outside_the_tree_reports_nothing() {
    let boundary = square_box(100_000);
    let mut tree = Quadtree::new(boundary, Vec2::zero(), 1, 4, 0);
    tree.insert(1, None, point(50_000, 50_000));
    tree.insert(2, None, point(0, 0));
    assert!(query(&tree, &square_box(1_000), point(200_000, 0)).is_empty());
    assert!(query(&tree, &square_box(1_000), point(101_000, 0)).is_empty());
}

#[test]
fn a_query_appends_to_what_was_found_before() {
    let boundary = square_box(100_000);
    let mut tree = Quadtree::new(boundary, Vec2::zero(), 4, 4, 0);
    tree.insert(7, None, point(0, 0));
    let mut found = vec![40, 41];
    tree.query(&boundary, point(0, 0), &mut found);
    assert_eq!(found, vec![40, 41, 7]);
}

#[test]
fn many_objects_at_one_place() {
    let boundary = square_box(100_000);
    let mut tree = Quadtree::new(boundary, Vec2::zero(), 2, 255, 0);
    for id in 0..50 {
        assert!(tree.insert(id, None, point(33_333, -12_345)));
    }
    assert_eq!(sorted(query(&tree, &square_box(1), point(33_333, -12_345))).len(), 50);
}

#[test]
fn subdividing_a_leaf_keeps_its_objects() {
    let boundary = square_box(100_000);
    let mut tree = Quadtree::new(boundary, Vec2::zero(), 10, 4, 0);
    tree.insert(1, None, point(50_000, 50_000));
    tree.insert(2, None, point(-50_000, -50_000));
    tree.insert(3, None, point(0, 0));
    tree.subdivide();
    assert!(tree.is_divided());
    assert_eq!(sorted(query(&tree, &boundary, point(0, 0))), vec![1, 2, 3]);
    assert_eq!(sorted(query(&tree, &square_box(1_000), point(50_000, 50_000))), vec![1, 3]);
}

#[test]
fn subdividing_is_refused_at_the_depth_limit() {
    let boundary = square_box(100_000);
    let mut tree = Quadtree::new(boundary, Vec2::zero(), 10, 3, 3);
    tree.insert(1, None, point(50_000, 50_000));
    tree.subdivide();
    assert!(!tree.is_divided());
    assert_eq!(query(&tree, &boundary, point(0, 0)), vec![1]);
}

#[test]
fn a_tree_is_built_from_a_list_of_entries() {
    let boundary = square_box(100_000);
    let items = vec![
        Entry { id: 10, shape: None, position: point(0, 0) },
        Entry { id: 11, shape: Some(square_box(5_000)), position: point(20_000, 20_000) },
        Entry { id: 12, shape: None, position: point(500_000, 0) },
        Entry { id: 13, shape: Some(square_box(5_000)), position: point(-97_000, 0) },
        Entry { id: 14, shape: None, position: point(-60_000, -60_000) },
    ];
    let tree = build_quadtree(&items, &boundary, 1, 4);
    assert!(tree.is_divided());
    assert_eq!(sorted(query(&tree, &boundary, point(0, 0))), vec![10, 11, 14]);
}

#[test]
fn a_tree_with_an_odd_boundary_still_finds_everything() {
    let boundary = AABB::new(Extent::new(7, 5));
    let mut tree = Quadtree::new(boundary, Vec2::zero(), 1, 8, 0);
    let mut accepted = Vec::new();
    let mut id = 0;
    for x in -8..=8 {
        for y in -6..=6 {
            if tree.insert(id, None, point(x, y)) {
                accepted.push(id);
            }
            id += 1;
        }
    }
    assert_eq!(accepted.len(), 13 * 9);
    assert_eq!(sorted(query(&tree, &boundary, point(0, 0))), accepted);
    for x in -6..=6 {
        for y in -4..=4 {
            let seen = query(&tree, &square_box(1), point(x, y));
            let wanted = ((x + 6) * 9 + (y + 4)) as u64;
            let index = accepted[wanted as usize];
            assert!(seen.contains(&index));
        }
    }
}

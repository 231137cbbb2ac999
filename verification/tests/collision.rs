use arcade_physics::collision::{collisions, correct_collisions, sort_dedup, Body};
use arcade_physics::math::{Extent, Vec2};
use arcade_physics::physics::{
    collides, MovingObject, MovingObjectState, Position, Translucent, AABB,
};

fn at(x: i32, y: i32) -> Position {
    Position::new(Vec2::new(x, y))
}

fn square_box(half: u32) -> AABB {
    AABB::new(Extent::splat(half))
}

fn massy(mass: u32, x: i32, y: i32) -> MovingObject {
    let mut m = MovingObject::default();
    m.mass = mass;
    m.position = at(x, y);
    m
}

fn solid(mass: u32, half: u32, x: i32, y: i32) -> Body {
    Body { aabb: square_box(half), moving_object: massy(mass, x, y), translucent: None }
}

#[test]
fn equal_masses_each_give_way_half_of_the_penetration() {
    let shape = square_box(10_000);
    let mut a = massy(1, 0, 0);
    let mut b = massy(1, 15_000, 0);
    assert!(collides(&shape, a.position, &shape, b.position));
    correct_collisions(&mut a, &shape, &mut b, &shape, None);
    assert_eq!(a.position, at(-2_500, 0));
    assert_eq!(b.position, at(17_500, 0));
    assert!(!collides(&shape, a.position, &shape, b.position));
    assert!(a.state.right && !a.state.left && !a.state.ground && !a.state.ceiling);
    assert!(b.state.left && !b.state.right && !b.state.ground && !b.state.ceiling);
}

#[test]
fn the_shares_follow_the_masses() {
    let shape = square_box(10_000);
    let mut a = massy(1, 0, 0);
    let mut b = massy(3, 15_000, 0);
    correct_collisions(&mut a, &shape, &mut b, &shape, None);
    assert_eq!(a.position, at(-1_250, 0));
    assert_eq!(b.position, at(18_750, 0));
    assert!(!collides(&shape, a.position, &shape, b.position));
}

#[test]
fn shares_that_do_not_divide_evenly_still_separate() {
    let shape = square_box(10);
    let mut a = massy(1, 0, 0);
    let mut b = massy(2, 15, 0);
    correct_collisions(&mut a, &shape, &mut b, &shape, None);
    assert_eq!(a.position, at(-1, 0));
    assert_eq!(b.position, at(19, 0));
    assert!(!collides(&shape, a.position, &shape, b.position));
}

#[test]
fn a_body_without_mass_never_moves() {
    let shape = square_box(10_000);
    let mut a = massy(0, 0, 0);
    let mut b = massy(5, 15_000, 0);
    correct_collisions(&mut a, &shape, &mut b, &shape, None);
    assert_eq!(a.position, at(0, 0));
    assert_eq!(b.position, at(20_000, 0));

    let mut a = massy(5, 0, 0);
    let mut b = massy(0, 15_000, 0);
    correct_collisions(&mut a, &shape, &mut b, &shape, None);
    assert_eq!(a.position, at(-5_000, 0));
    assert_eq!(b.position, at(15_000, 0));
}

#[test]
fn two_bodies_without_mass_are_left_alone() {
    let shape = square_box(10_000);
    let mut a = massy(0, 0, 0);
    let mut b = massy(0, 15_000, 0);
    correct_collisions(&mut a, &shape, &mut b, &shape, None);
    assert_eq!(a, massy(0, 0, 0));
    assert_eq!(b, massy(0, 15_000, 0));
}

#[test]
fn bodies_apart_are_left_alone() {
    let shape = square_box(10_000);
    let mut a = massy(1, 0, 0);
    let mut b = massy(1, 20_000, 0);
    correct_collisions(&mut a, &shape, &mut b, &shape, None);
    assert_eq!(a, massy(1, 0, 0));
    assert_eq!(b, massy(1, 20_000, 0));
}

#[test]
fn the_shallow_axis_is_resolved() {
    let shape = square_box(10_000);
    let mut a = massy(1, 0, 18_000);
    let mut b = massy(1, 3_000, 0);
    correct_collisions(&mut a, &shape, &mut b, &shape, None);
    assert_eq!(a.position, at(0, 19_000));
    assert_eq!(b.position, at(3_000, -1_000));
    assert!(a.state.ground && !a.state.ceiling && !a.state.left && !a.state.right);
    assert!(b.state.ceiling && !b.state.ground);

    let mut a = massy(1, 0, -18_000);
    let mut b = massy(1, 3_000, 0);
    correct_collisions(&mut a, &shape, &mut b, &shape, None);
    assert_eq!(a.position, at(0, -19_000));
    assert_eq!(b.position, at(3_000, 1_000));
    assert!(a.state.ceiling && b.state.ground);
}

#[test]
fn from_the_right_the_left_side_touches() {
    let shape = square_box(10_000);
    let mut a = massy(1, 15_000, 0);
    let mut b = massy(1, 0, 0);
    correct_collisions(&mut a, &shape, &mut b, &shape, None);
    assert_eq!(a.position, at(17_500, 0));
    assert_eq!(b.position, at(-2_500, 0));
    assert!(a.state.left && b.state.right);
}

#[test]
fn equal_penetrations_are_resolved_vertically() {
    let shape = square_box(10_000);
    let mut a = massy(1, 15_000, 15_000);
    let mut b = massy(1, 0, 0);
    correct_collisions(&mut a, &shape, &mut b, &shape, None);
    assert_eq!(a.position, at(15_000, 17_500));
    assert_eq!(b.position, at(0, -2_500));
}

#[test]
fn a_translucent_body_only_slows_down() {
    let shape = square_box(10_000);
    let mut a = massy(1, 0, 0);
    let mut b = massy(1, 15_000, 0);
    let slow = Translucent::default();
    correct_collisions(&mut a, &shape, &mut b, &shape, Some(&slow));
    assert_eq!(a.position, at(0, 0));
    assert_eq!(b.position, at(15_000, 0));
    assert_eq!(a.velocity_factor, 500);
    assert_eq!(b.velocity_factor, 1000);
    assert_eq!(a.state, MovingObjectState::default());

    let mut a = massy(1, 0, 0);
    let mut b = massy(1, 25_000, 0);
    correct_collisions(&mut a, &shape, &mut b, &shape, Some(&slow));
    assert_eq!(a.velocity_factor, 1000);
}

#[test]
fn resolution_saturates_at_the_end_of_the_range() {
    let shape = square_box(10);
    let mut a = massy(1, i32::MAX, 0);
    let mut b = massy(1, i32::MAX - 5, 0);
    correct_collisions(&mut a, &shape, &mut b, &shape, None);
    assert_eq!(a.position, at(i32::MAX, 0));
    assert_eq!(b.position, at(i32::MAX - 13, 0));
}

#[test]
fn candidates_are_sorted_and_unique() {
    assert_eq!(sort_dedup(&vec![]), Vec::<u64>::new());
    assert_eq!(sort_dedup(&vec![3]), vec![3]);
    assert_eq!(sort_dedup(&vec![3, 1, 2]), vec![1, 2, 3]);
    assert_eq!(sort_dedup(&vec![5, 5, 1, 5, 1, 9, 0, 9]), vec![0, 1, 5, 9]);
    assert_eq!(sort_dedup(&vec![u64::MAX, 0, u64::MAX]), vec![0, u64::MAX]);
}

#[test]
fn a_pass_resolves_an_overlapping_pair() {
    let map = square_box(100_000);
    let mut bodies = vec![solid(1, 10_000, 0, 0), solid(1, 10_000, 15_000, 0)];
    collisions(&mut bodies, &map);
    assert!(!collides(
        &bodies[0].aabb,
        bodies[0].moving_object.position,
        &bodies[1].aabb,
        bodies[1].moving_object.position
    ));
    assert_eq!(bodies[0].moving_object.position, at(-2_500, 0));
    assert_eq!(bodies[1].moving_object.position, at(17_500, 0));
    assert!(bodies[0].moving_object.state.right);
    assert!(bodies[1].moving_object.state.left);
}

#[test]
fn a_pass_forgets_old_contacts_of_bodies_with_mass() {
    let map = square_box(100_000);
    let mut lonely = solid(1, 1_000, 50_000, 50_000);
    lonely.moving_object.state.ground = true;
    lonely.moving_object.state.left = true;
    lonely.moving_object.velocity_factor = 500;
    let mut wall = solid(0, 1_000, -50_000, -50_000);
    wall.moving_object.state.ceiling = true;
    wall.moving_object.velocity_factor = 250;
    let mut bodies = vec![lonely, wall];
    collisions(&mut bodies, &map);
    assert_eq!(bodies[0].moving_object.state, MovingObjectState::default());
    assert_eq!(bodies[0].moving_object.velocity_factor, 1000);
    assert!(bodies[1].moving_object.state.ceiling);
    assert_eq!(bodies[1].moving_object.velocity_factor, 250);
}

#[test]
fn a_pass_stands_a_body_on_the_floor() {
    let map = square_box(100_000);
    let floor = Body {
        aabb: AABB::new(Extent::new(50_000, 1_000)),
        moving_object: massy(0, 0, 0),
        translucent: None,
    };
    let mut bodies = vec![floor, solid(2, 1_000, 3_000, 1_500)];
    collisions(&mut bodies, &map);
    assert_eq!(bodies[0].moving_object.position, at(0, 0));
    assert_eq!(bodies[1].moving_object.position, at(3_000, 2_000));
    assert!(bodies[1].moving_object.state.ground);
    assert!(bodies[0].moving_object.state.ceiling);
}

#[test]
fn a_pass_slows_a_body_inside_a_translucent_one() {
    let map = square_box(100_000);
    let mut water = solid(0, 20_000, 0, 0);
    water.translucent = Some(Translucent { slowdown: 300 });
    let mut bodies = vec![water, solid(1, 1_000, 5_000, 5_000)];
    collisions(&mut bodies, &map);
    assert_eq!(bodies[1].moving_object.position, at(5_000, 5_000));
    assert_eq!(bodies[1].moving_object.velocity_factor, 300);
}

#[test]
fn a_body_outside_the_map_is_not_seen() {
    let map = square_box(100_000);
    let mut bodies = vec![solid(1, 10_000, 200_000, 0), solid(1, 10_000, 205_000, 0)];
    collisions(&mut bodies, &map);
    assert_eq!(bodies[0].moving_object.position, at(200_000, 0));
    assert_eq!(bodies[1].moving_object.position, at(205_000, 0));
}

#[test]
fn a_pass_over_nothing_does_nothing() {
    let map = square_box(100_000);
    let mut bodies: Vec<Body> = Vec::new();
    collisions(&mut bodies, &map);
    assert!(bodies.is_empty());
}

#[test]
fn a_pass_keeps_bodies_without_mass_in_place() {
    let map = square_box(1_000_000);
    let mut bodies = Vec::new();
    for i in 0..30i32 {
        let mass = if i % 3 == 0 { 0 } else { (i % 5) as u32 + 1 };
        bodies.push(solid(mass, 9_000, (i % 6) * 10_000 - 30_000, (i / 6) * 10_000 - 20_000));
    }
    let before = bodies.clone();
    collisions(&mut bodies, &map);
    assert_eq!(bodies.len(), before.len());
    let mut moved = 0;
    for (after, before) in bodies.iter().zip(before.iter()) {
        assert_eq!(after.moving_object.mass, before.moving_object.mass);
        assert_eq!(after.aabb, before.aabb);
        if before.moving_object.mass == 0 {
            assert_eq!(after.moving_object.position, before.moving_object.position);
        } else if after.moving_object.position != before.moving_object.position {
            moved += 1;
        }
    }
    assert!(moved > 0);
}

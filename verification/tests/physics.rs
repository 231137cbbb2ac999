use arcade_physics::math::{Extent, Vec2};
use arcade_physics::physics::{
    apply_gravity, apply_velocity, collides, intersects, penetration_depth, stop_movement,
    update_physics, Gravity, MovingObject, MovingObjectState, Penetration, Position, Translucent,
    Velocity, AABB, GRAVITY_CONSTANT,
};

fn at(x: i32, y: i32) -> Position {
    Position::new(Vec2::new(x, y))
}

fn square_box(half: u32) -> AABB {
    AABB::new(Extent::splat(half))
}

#[test]
fn overlapping_boxes_collide() {
    let a = square_box(10_000);
    assert!(collides(&a, at(0, 0), &a, at(15_000, 0)));
    assert!(collides(&a, at(0, 0), &a, at(-19_999, 19_999)));
}

#[test]
fn touching_boxes_do_not_collide() {
    let a = square_box(10_000);
    assert!(!collides(&a, at(0, 0), &a, at(20_000, 0)));
    assert!(!collides(&a, at(0, 0), &a, at(0, -20_000)));
    assert!(!collides(&a, at(0, 0), &a, at(20_000, 20_000)));
    assert!(!collides(&a, at(0, 0), &a, at(25_000, 0)));
}

#[test]
fn collision_is_symmetric_on_a_grid_of_positions() {
    let a = AABB::new(Extent::new(3, 5));
    let b = AABB::new(Extent::new(4, 1));
    for x in -12..12 {
        for y in -12..12 {
            assert_eq!(
                collides(&a, at(1, -2), &b, at(x, y)),
                collides(&b, at(x, y), &a, at(1, -2))
            );
        }
    }
}

#[test]
fn collision_at_the_ends_of_the_coordinate_range() {
    let huge = square_box(u32::MAX);
    assert!(collides(&huge, at(i32::MIN, i32::MIN), &huge, at(i32::MAX, i32::MAX)));
    let point = square_box(0);
    assert!(!collides(&point, at(i32::MIN, 0), &point, at(i32::MAX, 0)));
}

#[test]
fn containment_is_strict() {
    let outer = square_box(10_000);
    assert!(outer.contains(at(0, 0), &square_box(5_000), at(0, 0)));
    assert!(outer.contains(at(0, 0), &square_box(5_000), at(4_999, -4_999)));
    assert!(!outer.contains(at(0, 0), &square_box(5_000), at(5_000, 0)));
    assert!(!outer.contains(at(0, 0), &square_box(10_000), at(0, 0)));
    assert!(!outer.contains(at(0, 0), &square_box(1), at(20_000, 0)));
}

#[test]
fn point_intersection_is_strict() {
    let b = AABB::new(Extent::new(10, 20));
    assert!(intersects(&b, at(100, 100), at(100, 100)));
    assert!(intersects(&b, at(100, 100), at(109, 81)));
    assert!(!intersects(&b, at(100, 100), at(110, 100)));
    assert!(!intersects(&b, at(100, 100), at(90, 100)));
    assert!(!intersects(&b, at(100, 100), at(100, 120)));
    assert!(!intersects(&b, at(100, 100), at(100, 80)));
}

#[test]
fn penetration_of_two_boxes_side_by_side() {
    let a = square_box(10_000);
    let depth = penetration_depth(&a, at(0, 0), &a, at(15_000, 0));
    assert_eq!(depth, Some(Penetration { x: -5_000, y: -20_000 }));
    let depth = penetration_depth(&a, at(15_000, 0), &a, at(0, 0));
    assert_eq!(depth, Some(Penetration { x: 5_000, y: -20_000 }));
}

#[test]
fn penetration_is_signed_by_the_side() {
    let a = square_box(10_000);
    let depth = penetration_depth(&a, at(0, 1_000), &a, at(0, -17_000));
    assert_eq!(depth, Some(Penetration { x: -20_000, y: 2_000 }));
    let depth = penetration_depth(&a, at(0, -17_000), &a, at(0, 1_000));
    assert_eq!(depth, Some(Penetration { x: -20_000, y: -2_000 }));
}

#[test]
fn no_penetration_without_overlap() {
    let a = square_box(10_000);
    assert_eq!(penetration_depth(&a, at(0, 0), &a, at(20_000, 0)), None);
    assert_eq!(penetration_depth(&a, at(0, 0), &a, at(0, 40_000)), None);
}

#[test]
fn shifting_by_the_penetration_ends_the_overlap() {
    let a = AABB::new(Extent::new(7, 3));
    let b = AABB::new(Extent::new(2, 9));
    for ax in -15..15 {
        for ay in -15..15 {
            if let Some(depth) = penetration_depth(&a, at(ax, ay), &b, at(0, 0)) {
                let x = ax + depth.x as i32;
                assert!(!collides(&a, at(x, ay), &b, at(0, 0)));
                let y = ay + depth.y as i32;
                assert!(!collides(&a, at(ax, y), &b, at(0, 0)));
                assert_eq!(depth.x > 0, ax > 0);
                assert_eq!(depth.y > 0, ay > 0);
            }
        }
    }
}

#[test]
fn a_body_at_rest_by_default() {
    let m = MovingObject::default();
    assert_eq!(m.mass, 0);
    assert_eq!(m.velocity_factor, 1000);
    assert_eq!(m.position, at(0, 0));
    assert_eq!(m.velocity, Velocity::new(Vec2::zero()));
    assert_eq!(m.state, MovingObjectState::default());
    assert!(!m.state.left && !m.state.right && !m.state.ground && !m.state.ceiling);
    assert_eq!(m.old_position, m.position);
    assert_eq!(Translucent::default().slowdown, 500);
    assert_eq!(GRAVITY_CONSTANT, 9800);
    let g = Gravity::new(98, 600);
    assert_eq!((g.force, g.terminal_velocity), (98, 600));
}

#[test]
fn integration_moves_along_the_velocity() {
    let mut m = MovingObject::default();
    m.position = at(1_000, 2_000);
    m.velocity = Velocity::new(Vec2::new(3_000, -4_000));
    m.state.ground = true;
    update_physics(&mut m, 500);
    assert_eq!(m.position, at(2_500, 0));
    assert_eq!(m.old_position, at(1_000, 2_000));
    assert_eq!(m.old_velocity, Velocity::new(Vec2::new(3_000, -4_000)));
    assert!(m.old_state.ground);
    assert_eq!(m.velocity, Velocity::new(Vec2::new(3_000, -4_000)));
}

#[test]
fn integration_is_weighted_by_the_velocity_factor() {
    let mut m = MovingObject::default();
    m.position = at(1_000, 2_000);
    m.velocity = Velocity::new(Vec2::new(3_000, -4_000));
    m.velocity_factor = 500;
    update_physics(&mut m, 500);
    assert_eq!(m.position, at(1_750, 1_000));
}

#[test]
fn integration_rounds_toward_zero_and_saturates() {
    let mut m = MovingObject::default();
    m.velocity = Velocity::new(Vec2::new(1, -1));
    update_physics(&mut m, 999);
    assert_eq!(m.position, at(0, 0));

    m.position = at(i32::MAX - 5, i32::MIN + 5);
    m.velocity = Velocity::new(Vec2::new(1_000_000, -1_000_000));
    update_physics(&mut m, 1_000);
    assert_eq!(m.position, at(i32::MAX, i32::MIN));
}

#[test]
fn plain_velocity_is_applied_to_a_position() {
    let mut p = at(10, 20);
    apply_velocity(&mut p, &Velocity::new(Vec2::new(50_000, -25_000)), 16);
    assert_eq!(p, at(810, -380));
}

#[test]
fn a_new_contact_stops_the_body_on_that_axis() {
    let mut m = MovingObject::default();
    m.velocity = Velocity::new(Vec2::new(5, -7));
    m.state.ground = true;
    stop_movement(&mut m);
    assert_eq!(m.velocity, Velocity::new(Vec2::new(5, 0)));

    let mut m = MovingObject::default();
    m.velocity = Velocity::new(Vec2::new(5, -7));
    m.state.left = true;
    stop_movement(&mut m);
    assert_eq!(m.velocity, Velocity::new(Vec2::new(0, -7)));

    let mut m = MovingObject::default();
    m.velocity = Velocity::new(Vec2::new(5, -7));
    m.state.right = true;
    m.state.ceiling = true;
    stop_movement(&mut m);
    assert_eq!(m.velocity, Velocity::new(Vec2::new(0, 0)));
}

#[test]
fn a_lasting_contact_does_not_stop_the_body() {
    let mut m = MovingObject::default();
    m.velocity = Velocity::new(Vec2::new(5, -7));
    m.state.ground = true;
    m.old_state.ground = true;
    m.state.left = true;
    m.old_state.left = true;
    stop_movement(&mut m);
    assert_eq!(m.velocity, Velocity::new(Vec2::new(5, -7)));

    let mut m = MovingObject::default();
    m.velocity = Velocity::new(Vec2::new(5, -7));
    m.old_state.ground = true;
    m.old_state.right = true;
    stop_movement(&mut m);
    assert_eq!(m.velocity, Velocity::new(Vec2::new(5, -7)));
}

#[test]
fn gravity_on_a_grounded_body_is_zero_speed() {
    let mut m = MovingObject::default();
    m.velocity = Velocity::new(Vec2::new(11, -300));
    m.state.ground = true;
    apply_gravity(&mut m, &Gravity::new(98, 600));
    assert_eq!(m.velocity, Velocity::new(Vec2::new(11, 0)));
}

#[test]
fn gravity_holds_the_speed_at_the_terminal_value() {
    let g = Gravity::new(98, 600);
    let mut m = MovingObject::default();
    m.velocity = Velocity::new(Vec2::new(0, 700));
    apply_gravity(&mut m, &g);
    assert_eq!(m.velocity.value.y, 600);
    m.velocity = Velocity::new(Vec2::new(0, -700));
    apply_gravity(&mut m, &g);
    assert_eq!(m.velocity.value.y, -600);
}

#[test]
fn gravity_accelerates_a_falling_body() {
    let g = Gravity::new(98, 600);
    let mut m = MovingObject::default();
    m.velocity = Velocity::new(Vec2::new(3, 100));
    apply_gravity(&mut m, &g);
    assert_eq!(m.velocity, Velocity::new(Vec2::new(3, 2)));
    m.velocity = Velocity::new(Vec2::new(3, -600));
    apply_gravity(&mut m, &g);
    assert_eq!(m.velocity.value.y, -698);
    m.velocity = Velocity::new(Vec2::new(3, i32::MIN + 1));
    apply_gravity(&mut m, &Gravity::new(98, i32::MAX));
    assert_eq!(m.velocity.value.y, i32::MIN);
    m.velocity = Velocity::new(Vec2::new(3, i32::MIN));
    apply_gravity(&mut m, &Gravity::new(98, i32::MAX));
    assert_eq!(m.velocity.value.y, -i32::MAX);
}

use arcade_physics::boids::{BoidParameters, Respawn, TileType};
use arcade_physics::flock::{move_boids, move_boids_with, steer, Draw, Steering, WorldObject};
use arcade_physics::math::{Extent, Vec2, WideVec2};
use arcade_physics::physics::{MovingObject, Position, Velocity, AABB};

fn still() -> Draw {
    Draw {
        respawn: Respawn { position: Vec2::zero(), velocity: Vec2::zero() },
        jitter: Vec2::zero(),
    }
}

fn boid(x: i32, y: i32, vx: i32, vy: i32) -> WorldObject {
    let mut m = MovingObject::default();
    m.position = Position::new(Vec2::new(x, y));
    m.velocity = Velocity::new(Vec2::new(vx, vy));
    WorldObject { aabb: None, moving_object: m, tile: None }
}

fn tile(x: i32, y: i32, half: u32, kind: TileType) -> WorldObject {
    let mut m = MovingObject::default();
    m.position = Position::new(Vec2::new(x, y));
    WorldObject { aabb: Some(AABB::new(Extent::splat(half))), moving_object: m, tile: Some(kind) }
}

fn window() -> Extent {
    Extent::splat(100_000)
}

#[test]
fn a_lone_boid_is_moved_by_nothing_but_its_jitter() {
    let mut world = vec![boid(0, 0, 50_000, 0)];
    let mut draw = still();
    draw.jitter = Vec2::new(100, -50);
    move_boids_with(&mut world, window(), &BoidParameters::default(), 16, &vec![draw]);
    assert_eq!(world, vec![boid(0, 0, 62_000, -6_000)]);
}

#[test]
fn a_lone_boid_without_jitter_keeps_its_velocity() {
    let mut world = vec![boid(10_000, -20_000, 50_000, 70_000)];
    move_boids_with(&mut world, window(), &BoidParameters::default(), 16, &vec![still()]);
    assert_eq!(world, vec![boid(10_000, -20_000, 50_000, 70_000)]);
}

#[test]
fn a_lone_boid_near_the_border_turns_back() {
    let mut world = vec![boid(95_000, 0, 0, 0)];
    move_boids_with(&mut world, window(), &BoidParameters::default(), 16, &vec![still()]);
    assert_eq!(world, vec![boid(95_000, 0, -80_000, 0)]);
}

#[test]
fn a_lone_boid_gets_a_bounded_random_push() {
    let p = BoidParameters::default();
    let map = AABB::new(Extent::splat(100_000));
    let mut differing = 0;
    for _ in 0..200 {
        let mut world = vec![boid(0, 0, 50_000, -50_000)];
        move_boids(&mut world, &map, &p, window(), 16);
        assert_eq!(world.len(), 1);
        assert_eq!(world[0].moving_object.position, Position::new(Vec2::zero()));
        let v = world[0].moving_object.velocity.value;
        assert!((v.x - 50_000).abs() <= 36_000);
        assert!((v.y + 50_000).abs() <= 36_000);
        if v != Vec2::new(50_000, -50_000) {
            differing += 1;
        }
    }
    assert!(differing > 150);
}

#[test]
fn a_boid_outside_the_viewport_sees_nobody() {
    let mut world = vec![boid(200_000, 0, 0, 0), boid(200_500, 0, 0, 0)];
    let mut draw = still();
    draw.jitter = Vec2::new(10, 10);
    move_boids_with(&mut world, window(), &BoidParameters::default(), 16, &vec![draw, still()]);
    assert_eq!(world[0], boid(200_000, 0, -78_800, 1_200));
    assert_eq!(world[1], boid(200_500, 0, -80_000, 0));
}

#[test]
fn two_boids_part_gather_and_align() {
    let mut world = vec![boid(0, 0, 0, 0), boid(1_000, 0, 0, 0)];
    move_boids_with(&mut world, window(), &BoidParameters::default(), 16, &vec![still(), still()]);
    assert_eq!(world[0], boid(0, 0, -80_000, 0));
    assert_eq!(world[1], boid(1_000, 0, -114_020, 0));
}

#[test]
fn missing_draws_count_as_still() {
    let mut world = vec![boid(0, 0, 0, 0), boid(1_000, 0, 0, 0)];
    move_boids_with(&mut world, window(), &BoidParameters::default(), 16, &vec![]);
    assert_eq!(world[0], boid(0, 0, -80_000, 0));
    assert_eq!(world[1], boid(1_000, 0, -114_020, 0));
}

#[test]
fn the_steering_of_a_boid_is_the_sum_of_its_rules() {
    let p = BoidParameters::default();
    let s = Steering {
        final_velocity: Vec2::new(-3_000, 0),
        total_position: WideVec2::new(1_000, 0),
        total_velocity: WideVec2::new(0, 0),
        boids_amount: 1,
    };
    let v = steer(&s, Vec2::zero(), Vec2::zero(), &p, window(), Vec2::zero());
    assert_eq!(v, Vec2::new(-40_000, 0));

    let s = Steering {
        final_velocity: Vec2::new(3_000, 0),
        total_position: WideVec2::new(0, 0),
        total_velocity: WideVec2::new(-80_000, 0),
        boids_amount: 1,
    };
    let v = steer(&s, Vec2::new(1_000, 0), Vec2::zero(), &p, window(), Vec2::new(0, 300));
    assert_eq!(v, Vec2::new(-57_010, 18_000));
}

#[test]
fn an_obstacle_is_steered_around_and_left_alone() {
    let wall = tile(12_000, 0, 10_000, TileType::Plain);
    let mut world = vec![boid(0, 0, 0, 0), wall];
    move_boids_with(&mut world, window(), &BoidParameters::default(), 16, &vec![still(), still()]);
    assert_eq!(world[1], wall);
    assert_eq!(world[0].moving_object.position, Position::new(Vec2::zero()));
    assert_eq!(world[0].moving_object.velocity, Velocity::new(Vec2::new(-200_000, 0)));
}

#[test]
fn a_boid_stuck_in_an_obstacle_is_put_where_the_draw_says() {
    let wall = tile(0, 0, 10_000, TileType::Plain);
    let mut world = vec![wall, boid(1_000, 1_000, 3_000, 0)];
    let mut draw = still();
    draw.respawn =
        Respawn { position: Vec2::new(-60_000, 20_000), velocity: Vec2::new(100_000, 0) };
    move_boids_with(&mut world, window(), &BoidParameters::default(), 16, &vec![still(), draw]);
    assert_eq!(world[0], wall);
    assert_eq!(world[1], boid(-60_000, 20_000, 100_000, 0));
}

#[test]
fn a_fast_boid_in_an_obstacle_steps_back_out() {
    let wall = tile(0, 0, 10_000, TileType::Plain);
    let mut world = vec![wall, boid(9_500, 0, 300_000, 0)];
    move_boids_with(&mut world, window(), &BoidParameters::default(), 100, &vec![]);
    assert_eq!(world[0], wall);
    assert_eq!(world[1], boid(-20_500, 0, 300_000, 0));
}

#[test]
fn a_target_loses_one_hit_point_for_each_boid_inside() {
    let target = tile(0, 0, 10_000, TileType::Target(10));
    let mut world = vec![boid(1_000, 1_000, 0, 0), target, boid(50_000, 50_000, 0, 0)];
    move_boids_with(&mut world, window(), &BoidParameters::default(), 16, &vec![]);
    assert_eq!(world[1].tile, Some(TileType::Target(9)));
    assert_eq!(world[1].moving_object, target.moving_object);
    assert_eq!(world[0].moving_object.position, Position::new(Vec2::new(1_000, 1_000)));

    let mut world = vec![boid(1_000, 1_000, 0, 0), target, boid(-2_000, 3_000, 0, 0)];
    move_boids_with(&mut world, window(), &BoidParameters::default(), 16, &vec![]);
    assert_eq!(world[1].tile, Some(TileType::Target(8)));
}

#[test]
fn a_lonely_boid_is_drawn_into_a_crowd_that_meets_it() {
    let mut p = BoidParameters::default();
    p.quadtree_capacity = 8;
    let mut world = Vec::new();
    for i in 0..8 {
        world.push(boid(-10_000 + i * 500, 10_000, 0, 0));
    }
    world.push(boid(30_000, -30_000, 0, 0));
    world.push(boid(10_000, -10_000, 0, 0));
    move_boids_with(&mut world, window(), &p, 16, &vec![]);
    assert_eq!(world.len(), 10);
    assert_eq!(world[8].moving_object.position, Position::new(Vec2::new(10_000, -10_000)));
    assert_eq!(world[9].moving_object.position, Position::new(Vec2::new(10_000, -10_000)));
    for i in 0..8 {
        assert_eq!(
            world[i as usize].moving_object.position,
            Position::new(Vec2::new(-10_000 + i * 500, 10_000))
        );
    }
}

#[test]
fn a_pass_keeps_tiles_and_masses() {
    let p = BoidParameters::default();
    let map = AABB::new(Extent::splat(100_000));
    let mut world = Vec::new();
    for i in 0..40i32 {
        if i % 7 == 0 {
            world.push(tile((i % 9) * 9_000 - 40_000, (i % 5) * 9_000 - 20_000, 3_000, TileType::Plain));
        } else if i % 11 == 0 {
            world.push(tile((i % 9) * 9_000 - 40_000, (i % 5) * 9_000 - 20_000, 3_000, TileType::Target(50)));
        } else {
            let mut b = boid((i % 9) * 9_000 - 40_000, (i % 5) * 9_000 - 20_000, i * 1_000, -i * 500);
            b.moving_object.mass = i as u32;
            world.push(b);
        }
    }
    let before = world.clone();
    for _ in 0..5 {
        move_boids(&mut world, &map, &p, window(), 16);
    }
    assert_eq!(world.len(), before.len());
    for (after, before) in world.iter().zip(before.iter()) {
        assert_eq!(after.aabb, before.aabb);
        assert_eq!(after.moving_object.mass, before.moving_object.mass);
        assert_eq!(after.moving_object.state, before.moving_object.state);
        assert_eq!(after.moving_object.velocity_factor, before.moving_object.velocity_factor);
        if before.aabb.is_some() {
            assert_eq!(after.moving_object, before.moving_object);
        }
        match (before.tile, after.tile) {
            (Some(TileType::Target(was)), Some(TileType::Target(is))) => assert!(is <= was),
            (was, is) => assert_eq!(was, is),
        }
    }
}

#[test]
fn an_empty_world_stays_empty() {
    let mut world: Vec<WorldObject> = Vec::new();
    move_boids_with(&mut world, window(), &BoidParameters::default(), 16, &vec![still()]);
    assert!(world.is_empty());
    let map = AABB::new(Extent::splat(100_000));
    move_boids(&mut world, &map, &BoidParameters::default(), window(), 16);
    assert!(world.is_empty());
}

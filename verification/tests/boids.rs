use arcade_physics::boids::{
    align_velocities, avoid_edges, normalize_velocity, object_interactions, random_movement,
    steer_towards_center, BoidParameters, Respawn, TileType,
};
use arcade_physics::math::{Extent, Vec2, WideVec2};
use arcade_physics::physics::{MovingObject, Position, Velocity, AABB};

fn params() -> BoidParameters {
    BoidParameters::default()
}

fn length_squared(v: Vec2) -> i64 {
    v.x as i64 * v.x as i64 + v.y as i64 * v.y as i64
}

fn nowhere() -> Respawn {
    Respawn { position: Vec2::new(77_000, -33_000), velocity: Vec2::new(1_234, -5_678) }
}

fn boid(x: i32, y: i32, vx: i32, vy: i32) -> MovingObject {
    let mut m = MovingObject::default();
    m.position = Position::new(Vec2::new(x, y));
    m.velocity = Velocity::new(Vec2::new(vx, vy));
    m
}

#[test]
fn the_standard_settings() {
    let p = BoidParameters::default();
    assert_eq!(p.max_velocity, 600_000);
    assert_eq!(p.min_velocity, 40_000);
    assert_eq!(p.view_distance, 25_000);
    assert_eq!(p.view_distance_aabb, AABB::new(Extent::splat(25_000)));
    assert_eq!(p.avoid_factor, 3_000);
    assert_eq!(p.centering_factor, 5);
    assert_eq!(p.matching_factor, 100);
    assert_eq!(p.multiplier, 2_000);
    assert_eq!(p.random_factor, 100);
    assert!(!p.disperse);
    assert_eq!(p.disperse_factor, 20_000);
    assert_eq!(p.avoid_obstacles_factor, 200_000);
    assert_eq!(p.avoid_obstacles_offset, 10_000);
    assert_eq!(p.attract_target_factor, 200_000);
    assert_eq!(p.attract_target_offset, 10_000);
    assert_eq!(p.edge_avoidance_distance, 10_000);
    assert_eq!(p.edge_avoidance_strength, 10_000);
    assert_eq!(p.quadtree_capacity, 2);
    assert_eq!(p.player_push_factor, 100);
}

#[test]
fn edges_push_back_into_the_viewport() {
    let window = Extent::splat(100_000);
    let mut v = Vec2::new(1, 2);
    avoid_edges(Vec2::new(-95_000, 0), window, &params(), &mut v);
    assert_eq!(v, Vec2::new(10_001, 2));

    let mut v = Vec2::new(1, 2);
    avoid_edges(Vec2::new(95_000, 95_000), window, &params(), &mut v);
    assert_eq!(v, Vec2::new(-9_999, -9_998));

    let mut v = Vec2::new(1, 2);
    avoid_edges(Vec2::new(0, -200_000), window, &params(), &mut v);
    assert_eq!(v, Vec2::new(1, 10_002));
}

#[test]
fn the_middle_of_the_viewport_is_left_alone() {
    let window = Extent::splat(100_000);
    let mut v = Vec2::new(1, 2);
    avoid_edges(Vec2::new(0, 0), window, &params(), &mut v);
    assert_eq!(v, Vec2::new(1, 2));
    avoid_edges(Vec2::new(-90_000, 90_000), window, &params(), &mut v);
    assert_eq!(v, Vec2::new(1, 2));
    avoid_edges(Vec2::new(-90_001, 90_001), window, &params(), &mut v);
    assert_eq!(v, Vec2::new(10_001, -9_998));
}

#[test]
fn cohesion_pulls_towards_the_perceived_centre() {
    let mut v = Vec2::zero();
    steer_towards_center(
        2,
        WideVec2::new(30_000, 10_000),
        Vec2::new(10_000, 0),
        &params(),
        &mut v,
    );
    assert_eq!(v, Vec2::new(0, 25));

    let mut v = Vec2::new(100, 100);
    steer_towards_center(
        4,
        WideVec2::new(-390_000, 810_000),
        Vec2::new(10_000, 10_000),
        &params(),
        &mut v,
    );
    assert_eq!(v, Vec2::new(100 - 550, 100 + 950));
}

#[test]
fn dispersing_pushes_away_from_the_perceived_centre() {
    let mut p = params();
    p.disperse = true;
    let mut v = Vec2::zero();
    steer_towards_center(2, WideVec2::new(30_000, 10_000), Vec2::new(10_000, 0), &p, &mut v);
    assert_eq!(v, Vec2::new(0, -500));
}

#[test]
fn without_neighbours_there_is_no_cohesion_and_no_alignment() {
    let mut v = Vec2::new(5, -5);
    steer_towards_center(0, WideVec2::new(30_000, 10_000), Vec2::new(10_000, 0), &params(), &mut v);
    assert_eq!(v, Vec2::new(5, -5));
    align_velocities(0, WideVec2::new(30_000, 10_000), Vec2::new(10_000, 0), &params(), &mut v);
    assert_eq!(v, Vec2::new(5, -5));
}

#[test]
fn alignment_blends_towards_the_heading_of_the_others() {
    let mut v = Vec2::zero();
    align_velocities(1, WideVec2::new(3_000, 4_000), Vec2::zero(), &params(), &mut v);
    assert_eq!(v, Vec2::new(36_000, 48_000));

    let mut v = Vec2::new(1_000, 1_000);
    align_velocities(
        2,
        WideVec2::new(-100_000, 50_000),
        Vec2::new(100_000, 50_000),
        &params(),
        &mut v,
    );
    assert_eq!(v, Vec2::new(1_000 - 70_000, 1_000 - 5_000));
}

#[test]
fn alignment_brings_a_small_mean_velocity_to_full_speed() {
    let mut v = Vec2::zero();
    align_velocities(1, WideVec2::new(1, 1), Vec2::zero(), &params(), &mut v);
    assert_eq!(v, Vec2::new(42_426, 42_426));

    let mut v = Vec2::zero();
    align_velocities(3, WideVec2::new(-3, 6), Vec2::zero(), &params(), &mut v);
    assert_eq!(v, Vec2::new(-26_832, 53_665));
}

#[test]
fn a_mean_velocity_of_zero_gives_no_alignment() {
    let mut v = Vec2::new(7, 7);
    align_velocities(3, WideVec2::new(1_000, -2_000), Vec2::new(1_000, -2_000), &params(), &mut v);
    assert_eq!(v, Vec2::new(7, 7));
    align_velocities(3, WideVec2::new(1_002, -1_998), Vec2::new(1_000, -2_000), &params(), &mut v);
    assert_eq!(v, Vec2::new(7, 7));
}

#[test]
fn a_steering_that_is_too_fast_is_shortened() {
    let mut v = Vec2::new(3_000_000, 4_000_000);
    normalize_velocity(&mut v, &params());
    assert_eq!(v, Vec2::new(360_000, 480_000));

    let mut v = Vec2::new(-700_000, 0);
    normalize_velocity(&mut v, &params());
    assert_eq!(v, Vec2::new(-600_000, 0));
}

#[test]
fn a_steering_that_is_too_slow_is_lengthened() {
    let mut v = Vec2::new(3, 4);
    normalize_velocity(&mut v, &params());
    assert_eq!(v, Vec2::new(24_000, 32_000));

    let mut v = Vec2::new(0, -1);
    normalize_velocity(&mut v, &params());
    assert_eq!(v, Vec2::new(0, -40_000));
}

#[test]
fn a_steering_within_the_limits_is_untouched() {
    for v in [
        Vec2::new(0, 0),
        Vec2::new(60_000, 80_000),
        Vec2::new(40_000, 0),
        Vec2::new(0, -600_000),
        Vec2::new(-360_000, 480_000),
    ] {
        let mut w = v;
        normalize_velocity(&mut w, &params());
        assert_eq!(w, v);
    }
}

#[test]
fn a_short_steering_keeps_its_direction_when_it_is_lengthened() {
    let mut v = Vec2::new(1, 1);
    normalize_velocity(&mut v, &params());
    assert_eq!(v, Vec2::new(28_285, 28_285));

    let mut v = Vec2::new(-1, 2);
    normalize_velocity(&mut v, &params());
    assert_eq!(v, Vec2::new(-17_889, 35_778));

    let mut v = Vec2::new(7, -1);
    normalize_velocity(&mut v, &params());
    assert_eq!(v, Vec2::new(39_598, -5_657));
}

#[test]
fn a_long_steering_keeps_its_direction_when_it_is_shortened() {
    let mut v = Vec2::new(1_000_000, 1_000_000);
    normalize_velocity(&mut v, &params());
    assert_eq!(v, Vec2::new(424_264, 424_264));

    let mut p = params();
    p.min_velocity = 599_999;
    let mut v = Vec2::new(1_000_000, 1_000_000);
    normalize_velocity(&mut v, &p);
    assert_eq!(v, Vec2::new(424_264, 424_264));

    let mut v = Vec2::new(i32::MAX, i32::MIN);
    normalize_velocity(&mut v, &params());
    assert_eq!(v, Vec2::new(424_264, -424_264));
}

#[test]
fn a_neighbouring_grid_point_is_taken_where_the_rounded_one_misses_the_limits() {
    let mut p = params();
    p.min_velocity = 5;
    p.max_velocity = 5;
    let mut v = Vec2::new(100, 1);
    normalize_velocity(&mut v, &p);
    assert_eq!(v, Vec2::new(5, 0));
    let mut v = Vec2::new(-30, 40);
    normalize_velocity(&mut v, &p);
    assert_eq!(v, Vec2::new(-3, 4));
    let mut v = Vec2::new(31, -40);
    normalize_velocity(&mut v, &p);
    assert_eq!(v, Vec2::new(4, -3));
    let mut v = Vec2::new(2, 0);
    normalize_velocity(&mut v, &p);
    assert_eq!(v, Vec2::new(5, 0));

    p.min_velocity = 7;
    p.max_velocity = 7;
    let mut v = Vec2::new(-3, -100);
    normalize_velocity(&mut v, &p);
    assert_eq!(v, Vec2::new(0, -7));
}

#[test]
fn the_nearest_axis_is_taken_only_where_no_grid_point_around_lies_within_the_limits() {
    let mut p = params();
    p.min_velocity = 7;
    p.max_velocity = 7;
    let mut v = Vec2::new(10, 10);
    normalize_velocity(&mut v, &p);
    assert_eq!(v, Vec2::new(7, 0));
    let mut v = Vec2::new(1, -2);
    normalize_velocity(&mut v, &p);
    assert_eq!(v, Vec2::new(0, -7));

    p.min_velocity = 600_000;
    p.max_velocity = 600_000;
    let mut v = Vec2::new(1_000_000, 1_000_000);
    normalize_velocity(&mut v, &p);
    assert_eq!(v, Vec2::new(600_000, 0));
}

#[test]
fn limits_two_steps_apart_always_keep_the_direction() {
    let samples = [-2_000_000_000, -77_777, -1_000, -13, -2, -1, 0, 1, 3, 50, 999, 123_456, i32::MAX];
    for max in [2, 3, 4, 10, 1_000, 600_000, i32::MAX] {
        for min in [0, 1, max / 2, max - 2] {
            let mut p = params();
            p.min_velocity = min;
            p.max_velocity = max;
            for &x in samples.iter() {
                for &y in samples.iter() {
                    if x == 0 && y == 0 {
                        continue;
                    }
                    let before = length_squared(Vec2::new(x, y)) as i128;
                    let mut v = Vec2::new(x, y);
                    normalize_velocity(&mut v, &p);
                    let after = length_squared(v) as i128;
                    let (lo, hi) = (min as i128, max as i128);
                    assert!(lo * lo <= after && after <= hi * hi);
                    let cross = v.x as i128 * y as i128 - v.y as i128 * x as i128;
                    assert!(cross.abs() <= (x as i128).abs() + (y as i128).abs());
                    assert!(v.x as i128 * x as i128 >= 0 && v.y as i128 * y as i128 >= 0);
                    if before > hi * hi {
                        assert!(after >= (hi - 2) * (hi - 2));
                    } else if before < lo * lo {
                        assert!(after <= (lo + 2) * (lo + 2));
                    } else {
                        assert_eq!(v, Vec2::new(x, y));
                    }
                }
            }
        }
    }
}

#[test]
fn clamped_steering_is_within_the_speed_limits() {
    let p = params();
    let min = p.min_velocity as i64 * p.min_velocity as i64;
    let max = p.max_velocity as i64 * p.max_velocity as i64;
    let samples = [
        -2_000_000_000, -900_000, -600_001, -40_001, -39_999, -1_234, -1, 0, 1, 77, 39_999, 40_000,
        123_456, 600_000, 600_001, 1_000_000, 2_000_000_000,
    ];
    for &x in samples.iter() {
        for &y in samples.iter() {
            let mut v = Vec2::new(x, y);
            normalize_velocity(&mut v, &p);
            if x == 0 && y == 0 {
                assert_eq!(v, Vec2::zero());
            } else {
                assert!(length_squared(v) >= min);
                assert!(length_squared(v) <= max);
            }
        }
    }
}

#[test]
fn clamped_steering_keeps_its_direction() {
    let p = params();
    let mut v = Vec2::new(900_000, -1_200_000);
    normalize_velocity(&mut v, &p);
    assert_eq!(v, Vec2::new(360_000, -480_000));
    let mut v = Vec2::new(1_000_000, 1);
    normalize_velocity(&mut v, &p);
    assert_eq!(v, Vec2::new(599_999, 0));
    let mut v = Vec2::new(-30_000, 1);
    normalize_velocity(&mut v, &p);
    assert_eq!(v, Vec2::new(-40_000, 2));
}

#[test]
fn jitter_is_a_share_of_the_top_speed() {
    let mut v = Vec2::new(10, 20);
    random_movement(&mut v, Vec2::new(300, -150), &params());
    assert_eq!(v, Vec2::new(18_010, -8_980));
    random_movement(&mut v, Vec2::zero(), &params());
    assert_eq!(v, Vec2::new(18_010, -8_980));
}

#[test]
fn another_boid_pushes_away_in_proportion_to_nearness() {
    let mut steering = Vec2::zero();
    let mut a = boid(1_000, 0, 0, 0);
    let mut tile = None;
    object_interactions(
        None,
        Vec2::new(1_000, 0),
        Vec2::zero(),
        &params(),
        &mut steering,
        Vec2::zero(),
        &mut a,
        16,
        &nowhere(),
        &mut tile,
    );
    assert_eq!(steering, Vec2::new(3_000, 0));
    assert_eq!(a, boid(1_000, 0, 0, 0));
    assert_eq!(tile, None);

    let mut steering = Vec2::new(5, 5);
    object_interactions(
        None,
        Vec2::new(0, 0),
        Vec2::new(3_000, 4_000),
        &params(),
        &mut steering,
        Vec2::zero(),
        &mut a,
        16,
        &nowhere(),
        &mut tile,
    );
    assert_eq!(steering, Vec2::new(5 - 360, 5 - 480));
}

#[test]
fn a_boid_on_top_of_another_is_not_pushed() {
    let mut steering = Vec2::new(9, 9);
    let mut a = boid(4_000, 4_000, 0, 0);
    let mut tile = None;
    object_interactions(
        None,
        Vec2::new(4_000, 4_000),
        Vec2::new(4_000, 4_000),
        &params(),
        &mut steering,
        Vec2::zero(),
        &mut a,
        16,
        &nowhere(),
        &mut tile,
    );
    assert_eq!(steering, Vec2::new(9, 9));
    assert_eq!(a, boid(4_000, 4_000, 0, 0));
}

#[test]
fn an_obstacle_pushes_away_from_its_nearest_point() {
    let shape = AABB::new(Extent::splat(10_000));
    let mut steering = Vec2::zero();
    let mut a = boid(12_000, 0, 0, 0);
    let mut tile = Some(TileType::Plain);
    object_interactions(
        Some(&shape),
        Vec2::new(12_000, 0),
        Vec2::zero(),
        &params(),
        &mut steering,
        Vec2::zero(),
        &mut a,
        16,
        &nowhere(),
        &mut tile,
    );
    assert_eq!(steering, Vec2::new(100_000, 0));
    assert_eq!(tile, Some(TileType::Plain));

    let mut steering = Vec2::zero();
    let mut tile = None;
    object_interactions(
        Some(&shape),
        Vec2::new(-13_000, -14_000),
        Vec2::zero(),
        &params(),
        &mut steering,
        Vec2::zero(),
        &mut a,
        16,
        &nowhere(),
        &mut tile,
    );
    assert_eq!(steering, Vec2::new(-24_000, -32_000));
    assert_eq!(a, boid(12_000, 0, 0, 0));
}

#[test]
fn a_fast_boid_inside_an_obstacle_steps_back() {
    let shape = AABB::new(Extent::splat(10_000));
    let mut steering = Vec2::new(1, 1);
    let mut a = boid(1_000, 0, 6_000, -8_000);
    let mut tile = None;
    object_interactions(
        Some(&shape),
        Vec2::new(1_000, 0),
        Vec2::zero(),
        &params(),
        &mut steering,
        Vec2::new(6_000, -8_000),
        &mut a,
        100,
        &nowhere(),
        &mut tile,
    );
    assert_eq!(steering, Vec2::new(1, 1));
    assert_eq!(a, boid(400, 800, 6_000, -8_000));
}

#[test]
fn a_slow_boid_inside_an_obstacle_is_put_elsewhere() {
    let shape = AABB::new(Extent::splat(10_000));
    let mut steering = Vec2::new(1, 1);
    let mut a = boid(1_000, 0, 3_000, 4_000);
    a.mass = 3;
    let mut tile = Some(TileType::Plain);
    object_interactions(
        Some(&shape),
        Vec2::new(1_000, 0),
        Vec2::zero(),
        &params(),
        &mut steering,
        Vec2::new(3_000, 4_000),
        &mut a,
        100,
        &nowhere(),
        &mut tile,
    );
    assert_eq!(steering, Vec2::new(1, 1));
    let mut wanted = boid(77_000, -33_000, 1_234, -5_678);
    wanted.mass = 3;
    assert_eq!(a, wanted);
    assert_eq!(tile, Some(TileType::Plain));
}

#[test]
fn a_boid_on_the_edge_of_an_obstacle_counts_as_inside() {
    let shape = AABB::new(Extent::splat(10_000));
    let mut steering = Vec2::zero();
    let mut a = boid(10_000, 10_000, 0, 0);
    let mut tile = None;
    object_interactions(
        Some(&shape),
        Vec2::new(10_000, 10_000),
        Vec2::zero(),
        &params(),
        &mut steering,
        Vec2::zero(),
        &mut a,
        100,
        &nowhere(),
        &mut tile,
    );
    assert_eq!(steering, Vec2::zero());
    assert_eq!(a, boid(77_000, -33_000, 1_234, -5_678));
}

#[test]
fn a_target_loses_a_hit_point_for_a_boid_inside() {
    let shape = AABB::new(Extent::splat(10_000));
    let mut steering = Vec2::new(2, 3);
    let mut a = boid(1_000, 0, 0, 0);
    let mut tile = Some(TileType::Target(5));
    object_interactions(
        Some(&shape),
        Vec2::new(1_000, 0),
        Vec2::zero(),
        &params(),
        &mut steering,
        Vec2::zero(),
        &mut a,
        100,
        &nowhere(),
        &mut tile,
    );
    assert_eq!(tile, Some(TileType::Target(4)));
    assert_eq!(steering, Vec2::new(2, 3));
    assert_eq!(a, boid(1_000, 0, 0, 0));

    let mut tile = Some(TileType::Target(i32::MIN));
    object_interactions(
        Some(&shape),
        Vec2::new(1_000, 0),
        Vec2::zero(),
        &params(),
        &mut steering,
        Vec2::zero(),
        &mut a,
        100,
        &nowhere(),
        &mut tile,
    );
    assert_eq!(tile, Some(TileType::Target(i32::MIN)));
}

#[test]
fn a_target_does_not_attract() {
    let shape = AABB::new(Extent::splat(10_000));
    let mut steering = Vec2::new(2, 3);
    let mut a = boid(12_000, 0, 0, 0);
    let mut tile = Some(TileType::Target(5));
    object_interactions(
        Some(&shape),
        Vec2::new(12_000, 0),
        Vec2::zero(),
        &params(),
        &mut steering,
        Vec2::zero(),
        &mut a,
        100,
        &nowhere(),
        &mut tile,
    );
    assert_eq!(tile, Some(TileType::Target(5)));
    assert_eq!(steering, Vec2::new(2, 3));
    assert_eq!(a, boid(12_000, 0, 0, 0));
}

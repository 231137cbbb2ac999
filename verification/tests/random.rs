use arcade_physics::boids::BoidParameters;
use arcade_physics::math::Extent;
use arcade_physics::physics::AABB;
use arcade_physics::random::{draw_jitter, draw_respawn, draw_symmetric, JITTER_RANGE};

#[test]
fn draws_lie_in_the_range_and_vary() {
    let mut low = 0;
    let mut high = 0;
    let first = draw_symmetric(1_000);
    let mut varied = false;
    for _ in 0..2_000 {
        let v = draw_symmetric(1_000);
        assert!(v >= -1_000 && v < 1_000);
        if v < 0 {
            low += 1;
        } else {
            high += 1;
        }
        if v != first {
            varied = true;
        }
    }
    assert!(varied);
    assert!(low > 500 && high > 500);
}

#[test]
fn the_narrowest_range_has_two_values() {
    let mut seen = [false, false];
    for _ in 0..200 {
        let v = draw_symmetric(1);
        assert!(v == -1 || v == 0);
        seen[(v + 1) as usize] = true;
    }
    assert_eq!(seen, [true, true]);
}

#[test]
fn an_empty_range_gives_zero() {
    assert_eq!(draw_symmetric(0), 0);
    assert_eq!(draw_symmetric(-5), 0);
    assert_eq!(draw_symmetric(i32::MIN), 0);
}

#[test]
fn the_widest_range_can_be_drawn_from() {
    for _ in 0..100 {
        let v = draw_symmetric(i32::MAX);
        assert!(v >= -i32::MAX && v < i32::MAX);
    }
}

#[test]
fn jitter_stays_below_three_tenths() {
    assert_eq!(JITTER_RANGE, 300);
    for _ in 0..500 {
        let j = draw_jitter();
        assert!(j.x >= -300 && j.x < 300);
        assert!(j.y >= -300 && j.y < 300);
    }
}

#[test]
fn a_respawn_lies_on_the_map() {
    let p = BoidParameters::default();
    let map = AABB::new(Extent::new(80_000, 60_000));
    let mut lowest = 0;
    let mut highest = 0;
    for _ in 0..2_000 {
        let r = draw_respawn(&map, &p);
        assert!(r.position.x >= -80_000 && r.position.x < 80_000);
        assert!(r.position.y >= -30_000 && r.position.y < 30_000);
        assert!(r.velocity.x >= -600_000 && r.velocity.x < 600_000);
        assert!(r.velocity.y >= -600_000 && r.velocity.y < 600_000);
        lowest = lowest.min(r.position.y);
        highest = highest.max(r.position.y);
    }
    assert!(lowest < -20_000 && highest > 20_000);
}

#[test]
fn a_respawn_on_a_map_without_size_is_at_the_origin() {
    let mut p = BoidParameters::default();
    p.max_velocity = 0;
    let map = AABB::new(Extent::new(0, 0));
    let r = draw_respawn(&map, &p);
    assert_eq!((r.position.x, r.position.y), (0, 0));
    assert_eq!((r.velocity.x, r.velocity.y), (0, 0));
    let huge = AABB::new(Extent::splat(u32::MAX));
    let r = draw_respawn(&huge, &p);
    assert!(r.position.x < i32::MAX);
}

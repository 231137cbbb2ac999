//! Flocking: the steering rules of an autonomous agent.

use vstd::prelude::*;
use crate::math::{
    accumulate, added, away_div, div_away_from_zero, div_toward_zero, isqrt_wide,
    isqrt_wide_ceil, lemma_sqrt_ceil_bounds, lemma_sqrt_floor_bounds, lemma_trunc_div_bounded,
    magnitude, saturate, saturate_to_i32, scale, scale_twice, scaled, scaled_twice, sqrt_ceil,
    sqrt_floor, square, trunc_div, Extent, Vec2, WideVec2, ROOT_SCALE, SCALE,
};
use crate::physics::{MovingObject, Position, Velocity, AABB};

verus! {

/// Settings of the flock. Speeds, distances and factors are fixed-point
/// numbers.
#[derive(Clone, Copy, Debug, PartialEq, Eq)]
pub struct BoidParameters {
    pub max_velocity: i32,
    pub min_velocity: i32,
    pub view_distance: i32,
    pub view_distance_aabb: AABB,
    pub avoid_factor: i32,
    pub centering_factor: i32,
    pub matching_factor: i32,
    pub multiplier: i32,
    pub random_factor: i32,
    pub disperse: bool,
    pub disperse_factor: i32,
    pub avoid_obstacles_factor: i32,
    pub avoid_obstacles_offset: i32,
    pub attract_target_factor: i32,
    pub attract_target_offset: i32,
    pub edge_avoidance_distance: i32,
    pub edge_avoidance_strength: i32,
    pub quadtree_capacity: usize,
    pub player_push_factor: i32,
}

impl BoidParameters {
    /// The settings a flock starts with.
    pub open spec fn standard() -> Self {
        BoidParameters {
            max_velocity: 600_000,
            min_velocity: 40_000,
            view_distance: 25_000,
            view_distance_aabb: AABB { halfsize: Extent { x: 25_000, y: 25_000 } },
            avoid_factor: 3_000,
            centering_factor: 5,
            matching_factor: 100,
            multiplier: 2_000,
            random_factor: 100,
            disperse: false,
            disperse_factor: 20_000,
            avoid_obstacles_factor: 200_000,
            avoid_obstacles_offset: 10_000,
            attract_target_factor: 200_000,
            attract_target_offset: 10_000,
            edge_avoidance_distance: 10_000,
            edge_avoidance_strength: 10_000,
            quadtree_capacity: 2,
            player_push_factor: 100,
        }
    }

    /// The speed limits make sense: neither is negative and the lower one is
    /// not above the upper one.
    pub open spec fn speed_limits_ordered(self) -> bool {
        0 <= self.min_velocity <= self.max_velocity
    }
}

impl Default for BoidParameters {
    fn default() -> (p: Self)
        ensures
            p == BoidParameters::standard(),
    {
        BoidParameters {
            max_velocity: 600_000,
            min_velocity: 40_000,
            view_distance: 25_000,
            view_distance_aabb: AABB { halfsize: Extent { x: 25_000, y: 25_000 } },
            avoid_factor: 3_000,
            centering_factor: 5,
            matching_factor: 100,
            multiplier: 2_000,
            random_factor: 100,
            disperse: false,
            disperse_factor: 20_000,
            avoid_obstacles_factor: 200_000,
            avoid_obstacles_offset: 10_000,
            attract_target_factor: 200_000,
            attract_target_offset: 10_000,
            edge_avoidance_distance: 10_000,
            edge_avoidance_strength: 10_000,
            quadtree_capacity: 2,
            player_push_factor: 100,
        }
    }
}

/// Push away from an edge of the viewport: towards the inside when the
/// coordinate is within `distance` of the border on either side.
pub open spec fn edge_push(a: int, half: int, distance: int, strength: int) -> int {
    if a < -half + distance {
        strength
    } else if a > half - distance {
        -strength
    } else {
        0
    }
}

/// Steers away from the border of the viewport.
pub fn avoid_edges(
    a_position: Vec2,
    window_halfsize: Extent,
    boid_params: &BoidParameters,
    final_velocity: &mut Vec2,
)
    ensures
        *final(final_velocity) == added(
            *old(final_velocity),
            edge_push(
                a_position.x as int,
                window_halfsize.x as int,
                boid_params.edge_avoidance_distance as int,
                boid_params.edge_avoidance_strength as int,
            ),
            edge_push(
                a_position.y as int,
                window_halfsize.y as int,
                boid_params.edge_avoidance_distance as int,
                boid_params.edge_avoidance_strength as int,
            ),
        ),
{
    let distance: i64 = boid_params.edge_avoidance_distance as i64;
    let strength: i128 = boid_params.edge_avoidance_strength as i128;
    let half_x: i64 = window_halfsize.x as i64;
    let half_y: i64 = window_halfsize.y as i64;
    let mut dx: i128 = 0;
    let mut dy: i128 = 0;
    if (a_position.x as i64) < -half_x + distance {
        dx = strength;
    } else if (a_position.x as i64) > half_x - distance {
        dx = -strength;
    }
    if (a_position.y as i64) < -half_y + distance {
        dy = strength;
    } else if (a_position.y as i64) > half_y - distance {
        dy = -strength;
    }
    accumulate(final_velocity, dx, dy);
}

/// The mean of the others as a boid perceives it: the sum less its own
/// value, divided by their number.
pub open spec fn perceived(total: int, own: int, amount: int) -> int {
    saturate(trunc_div(total - own, amount))
}

fn perceive(total: i64, own: i32, amount: usize) -> (r: i32)
    requires
        amount > 0,
    ensures
        r as int == perceived(total as int, own as int, amount as int),
{
    saturate_to_i32(div_toward_zero(total as i128 - own as i128, amount as i128))
}

/// What cohesion adds to one component of the steering: a pull towards the
/// perceived centre of the others, or, when the flock disperses, a stronger
/// push away from it. Without others it is nothing.
pub open spec fn cohesion(amount: int, total: int, own: int, p: BoidParameters) -> int {
    if amount > 0 {
        let center = perceived(total, own, amount);
        if p.disperse {
            scaled_twice(own - center, p.centering_factor as int, p.disperse_factor as int)
        } else {
            scaled(center - own, p.centering_factor as int)
        }
    } else {
        0
    }
}

/// Steers towards the perceived centre of the neighbouring boids, or away
/// from it when the flock is told to disperse.
pub fn steer_towards_center(
    boids_amount: usize,
    total_position: WideVec2,
    a_position: Vec2,
    boid_params: &BoidParameters,
    final_velocity: &mut Vec2,
)
    ensures
        *final(final_velocity) == added(
            *old(final_velocity),
            cohesion(
                boids_amount as int,
                total_position.x as int,
                a_position.x as int,
                *boid_params,
            ),
            cohesion(
                boids_amount as int,
                total_position.y as int,
                a_position.y as int,
                *boid_params,
            ),
        ),
{
    if boids_amount > 0 {
        let center_x: i32 = perceive(total_position.x, a_position.x, boids_amount);
        let center_y: i32 = perceive(total_position.y, a_position.y, boids_amount);
        if boid_params.disperse {
            let dx = scale_twice(
                a_position.x as i64 - center_x as i64,
                boid_params.centering_factor,
                boid_params.disperse_factor,
            );
            let dy = scale_twice(
                a_position.y as i64 - center_y as i64,
                boid_params.centering_factor,
                boid_params.disperse_factor,
            );
            accumulate(final_velocity, dx, dy);
        } else {
            let dx = scale(center_x as i64 - a_position.x as i64, boid_params.centering_factor);
            let dy = scale(center_y as i64 - a_position.y as i64, boid_params.centering_factor);
            accumulate(final_velocity, dx, dy);
        }
    }
}

/// The length of `v` in finer steps, rounded down.
pub open spec fn fine_length_floor(v: Vec2) -> int {
    sqrt_floor(v.fine_norm_squared()) as int
}

/// The length of `v` in finer steps, rounded up.
pub open spec fn fine_length_ceil(v: Vec2) -> int {
    sqrt_ceil(v.fine_norm_squared()) as int
}

/// `v` brought to the length `target` and rounded toward zero: each
/// component times `target` over the length of `v`, the length taken in
/// finer steps and rounded up. Of a vector that is not zero and for a
/// target that is not negative, the result is never longer than `target`
/// and less than two steps shorter.
pub open spec fn shortened(v: Vec2, target: int) -> Vec2 {
    let length = fine_length_ceil(v);
    Vec2 {
        x: saturate(trunc_div(v.x * (target * ROOT_SCALE), length)) as i32,
        y: saturate(trunc_div(v.y * (target * ROOT_SCALE), length)) as i32,
    }
}

/// `v` brought to the length `target` and rounded away from zero: each
/// component times `target` over the length of `v`, the length taken in
/// finer steps and rounded down. Of a vector that is not zero and for a
/// target that is not negative, the result is never shorter than `target`
/// and less than two steps longer.
pub open spec fn lengthened(v: Vec2, target: int) -> Vec2 {
    let length = fine_length_floor(v);
    Vec2 {
        x: saturate(away_div(v.x * (target * ROOT_SCALE), length)) as i32,
        y: saturate(away_div(v.y * (target * ROOT_SCALE), length)) as i32,
    }
}

/// The vector of length `target` along the coordinate axis nearest to `v`.
pub open spec fn snapped(v: Vec2, target: int) -> Vec2 {
    if magnitude(v.x as int) >= magnitude(v.y as int) {
        Vec2 {
            x: saturate(
                if v.x < 0 {
                    -target
                } else {
                    target
                },
            ) as i32,
            y: 0,
        }
    } else {
        Vec2 {
            x: 0,
            y: saturate(
                if v.y < 0 {
                    -target
                } else {
                    target
                },
            ) as i32,
        }
    }
}

/// The length of `v` lies between `min` and `max`.
pub open spec fn within_limits(v: Vec2, min: int, max: int) -> bool {
    min * min <= v.norm_squared() <= max * max
}

/// One step in the direction of `a`, or none where `a` is zero.
pub open spec fn toward(a: int) -> int {
    if a > 0 {
        1
    } else if a < 0 {
        -1
    } else {
        0
    }
}

/// The first of the four grid points around a rescaled vector that lies
/// within the limits: `base` itself, `base` moved one step along x, one step
/// along y, or one step along both.
pub open spec fn first_within(base: Vec2, sx: int, sy: int, min: int, max: int) -> Option<Vec2> {
    if within_limits(base, min, max) {
        Some(base)
    } else if within_limits(added(base, sx, 0), min, max) {
        Some(added(base, sx, 0))
    } else if within_limits(added(base, 0, sy), min, max) {
        Some(added(base, 0, sy))
    } else if within_limits(added(base, sx, sy), min, max) {
        Some(added(base, sx, sy))
    } else {
        None
    }
}

/// What is left of a steering vector that is too long, for ordered limits:
/// the vector shortened to the upper limit, or the first of its three
/// neighbours further out that lies within the limits. `None` where none of
/// the four does.
pub open spec fn slowed(v: Vec2, min: int, max: int) -> Option<Vec2> {
    first_within(shortened(v, max), toward(v.x as int), toward(v.y as int), min, max)
}

/// What becomes of a steering vector that is too short, for ordered
/// limits: the vector lengthened to the lower limit, or the first of its
/// three neighbours further in that lies within the limits. `None` where
/// none of the four does.
pub open spec fn hastened(v: Vec2, min: int, max: int) -> Option<Vec2> {
    first_within(lengthened(v, min), -toward(v.x as int), -toward(v.y as int), min, max)
}

/// A steering vector held within the speed limits.
///
/// The zero vector and a vector within the limits stay as they are. A longer
/// one is brought to the upper limit, a shorter one to the lower limit, the
/// direction kept: the result is one of the four grid points around the
/// exactly rescaled vector. Only where the limits are ordered and none of
/// the four lies within them, which takes limits less than two steps
/// apart, the result lies along the nearest coordinate axis instead, with
/// exactly the length of the limit.
pub open spec fn clamped_speed(v: Vec2, p: BoidParameters) -> Vec2 {
    let n = v.norm_squared();
    let min = p.min_velocity as int;
    let max = p.max_velocity as int;
    if n == 0 {
        v
    } else if max < 0 || n > max * max {
        if p.speed_limits_ordered() {
            match slowed(v, min, max) {
                Some(c) => c,
                None => snapped(v, max),
            }
        } else {
            shortened(v, max)
        }
    } else if min > 0 && n < min * min {
        if p.speed_limits_ordered() {
            match hastened(v, min, max) {
                Some(c) => c,
                None => snapped(v, min),
            }
        } else {
            lengthened(v, min)
        }
    } else {
        v
    }
}

/// `r` and `v` point the same way as far as whole steps allow: `r` is off
/// the line through `v` by less than one step along each axis.
pub open spec fn parallel_up_to_rounding(r: Vec2, v: Vec2) -> bool {
    magnitude(r.x * v.y - r.y * v.x) <= magnitude(v.x as int) + magnitude(v.y as int)
}

/// The squared length of a vector in finer steps.
fn fine_norm(v: Vec2) -> (r: u128)
    ensures
        r as nat == v.fine_norm_squared(),
        v.norm_squared() > 0 ==> r >= 0x1_0000_0000_0000_0000,
{
    let n: u128 = v.length_squared() as u128;
    assert(n * 0x1_0000_0000_0000_0000 <= 0x8000_0000_0000_0000_0000_0000_0000_0000);
    n * 0x1_0000_0000_0000_0000
}

/// A component times the target length, in finer steps.
fn fine_product(a: i32, target: i32) -> (r: i128)
    ensures
        r as int == a * (target * ROOT_SCALE),
        -0x4000_0000_0000_0000_0000_0000 <= r <= 0x4000_0000_0000_0000_0000_0000,
{
    let t: i128 = (target as i128) * 0x1_0000_0000;
    let x: i128 = a as i128;
    assert(-0x4000_0000_0000_0000_0000_0000 <= x * t <= 0x4000_0000_0000_0000_0000_0000)
        by (nonlinear_arith)
        requires
            -0x8000_0000 <= x <= 0x8000_0000,
            -0x8000_0000_0000_0000 <= t <= 0x8000_0000_0000_0000,
    ;
    x * t
}

fn shorten(v: Vec2, target: i32) -> (r: Vec2)
    requires
        v.norm_squared() > 0,
    ensures
        r == shortened(v, target as int),
{
    let length: i128 = isqrt_wide_ceil(fine_norm(v)) as i128;
    proof {
        lemma_sqrt_ceil_bounds(v.fine_norm_squared());
    }
    Vec2 {
        x: saturate_to_i32(div_toward_zero(fine_product(v.x, target), length)),
        y: saturate_to_i32(div_toward_zero(fine_product(v.y, target), length)),
    }
}

fn lengthen(v: Vec2, target: i32) -> (r: Vec2)
    requires
        v.norm_squared() > 0,
    ensures
        r == lengthened(v, target as int),
{
    let length: i128 = isqrt_wide(fine_norm(v)) as i128;
    proof {
        lemma_fine_length(v);
    }
    Vec2 {
        x: saturate_to_i32(div_away_from_zero(fine_product(v.x, target), length)),
        y: saturate_to_i32(div_away_from_zero(fine_product(v.y, target), length)),
    }
}

fn snap(v: Vec2, target: i32) -> (r: Vec2)
    ensures
        r == snapped(v, target as int),
{
    let size_x: i64 = if v.x < 0 {
        -(v.x as i64)
    } else {
        v.x as i64
    };
    let size_y: i64 = if v.y < 0 {
        -(v.y as i64)
    } else {
        v.y as i64
    };
    if size_x >= size_y {
        Vec2 {
            x: saturate_to_i32(
                if v.x < 0 {
                    -(target as i128)
                } else {
                    target as i128
                },
            ),
            y: 0,
        }
    } else {
        Vec2 {
            x: 0,
            y: saturate_to_i32(
                if v.y < 0 {
                    -(target as i128)
                } else {
                    target as i128
                },
            ),
        }
    }
}

fn is_within_limits(v: Vec2, min: i32, max: i32) -> (r: bool)
    ensures
        r == within_limits(v, min as int, max as int),
{
    let n: i128 = v.length_squared() as i128;
    square(min) <= n && n <= square(max)
}

fn step_toward(a: i32) -> (r: i128)
    ensures
        r as int == toward(a as int),
{
    if a > 0 {
        1
    } else if a < 0 {
        -1
    } else {
        0
    }
}

/// Looks among the four grid points around a rescaled vector for one that
/// lies within the limits.
fn find_within(base: Vec2, sx: i128, sy: i128, min: i32, max: i32) -> (r: Option<Vec2>)
    requires
        -1 <= sx <= 1,
        -1 <= sy <= 1,
    ensures
        r == first_within(base, sx as int, sy as int, min as int, max as int),
{
    if is_within_limits(base, min, max) {
        return Some(base);
    }
    let mut along_x = base;
    accumulate(&mut along_x, sx, 0);
    if is_within_limits(along_x, min, max) {
        return Some(along_x);
    }
    let mut along_y = base;
    accumulate(&mut along_y, 0, sy);
    if is_within_limits(along_y, min, max) {
        return Some(along_y);
    }
    let mut along_both = base;
    accumulate(&mut along_both, sx, sy);
    if is_within_limits(along_both, min, max) {
        return Some(along_both);
    }
    None
}

/// Holds the steering vector within the speed limits of the flock, its
/// direction kept. A vector of length zero has no direction and stays as it
/// is.
pub fn normalize_velocity(final_velocity: &mut Vec2, boid_params: &BoidParameters)
    ensures
        *final(final_velocity) == clamped_speed(*old(final_velocity), *boid_params),
        boid_params.speed_limits_ordered() && old(final_velocity).norm_squared() > 0 ==> {
            &&& within_limits(
                *final(final_velocity),
                boid_params.min_velocity as int,
                boid_params.max_velocity as int,
            )
            &&& near_crossed_limit(*final(final_velocity), *old(final_velocity), *boid_params)
            &&& parallel_up_to_rounding(*final(final_velocity), *old(final_velocity))
                || no_grid_point_within(*old(final_velocity), *boid_params)
        },
{
    let v = *final_velocity;
    let n: i128 = v.length_squared() as i128;
    let min = boid_params.min_velocity;
    let max = boid_params.max_velocity;
    let ordered = 0 <= min && min <= max;
    proof {
        if ordered && n > 0 {
            lemma_clamped_speed_within_limits(v, *boid_params);
            lemma_clamped_speed_near_limit(v, *boid_params);
            lemma_clamped_speed_keeps_direction(v, *boid_params);
        }
    }
    if n > 0 {
        if max < 0 || n > square(max) {
            let base = shorten(v, max);
            if ordered {
                match find_within(base, step_toward(v.x), step_toward(v.y), min, max) {
                    Some(c) => {
                        *final_velocity = c;
                    },
                    None => {
                        *final_velocity = snap(v, max);
                    },
                }
            } else {
                *final_velocity = base;
            }
        } else if min > 0 && n < square(min) {
            let base = lengthen(v, min);
            if ordered {
                match find_within(base, -step_toward(v.x), -step_toward(v.y), min, max) {
                    Some(c) => {
                        *final_velocity = c;
                    },
                    None => {
                        *final_velocity = snap(v, min);
                    },
                }
            } else {
                *final_velocity = base;
            }
        }
    }
}

/// None of the four grid points around the exactly rescaled vector lies
/// within the limits.
pub open spec fn no_grid_point_within(v: Vec2, p: BoidParameters) -> bool {
    let n = v.norm_squared();
    let min = p.min_velocity as int;
    let max = p.max_velocity as int;
    if n > max * max {
        slowed(v, min, max) is None
    } else if n < min * min {
        hastened(v, min, max) is None
    } else {
        false
    }
}

/// The length of `r` is within two steps of the limit that `v` crossed.
pub open spec fn near_crossed_limit(r: Vec2, v: Vec2, p: BoidParameters) -> bool {
    let n = v.norm_squared();
    let min = p.min_velocity as int;
    let max = p.max_velocity as int;
    if n > max * max {
        max >= 2 ==> (max - 2) * (max - 2) <= r.norm_squared()
    } else if n < min * min {
        r.norm_squared() <= (min + 2) * (min + 2)
    } else {
        r == v
    }
}

/// After clamping, a steering vector that had a direction is no shorter
/// than the lower speed limit and no longer than the upper one, whenever
/// the limits are ordered.
pub proof fn lemma_clamped_speed_within_limits(v: Vec2, p: BoidParameters)
    requires
        p.speed_limits_ordered(),
        v.norm_squared() > 0,
    ensures
        within_limits(clamped_speed(v, p), p.min_velocity as int, p.max_velocity as int),
{
    let n = v.norm_squared();
    let min = p.min_velocity as int;
    let max = p.max_velocity as int;
    assert(min * min <= max * max) by (nonlinear_arith)
        requires
            0 <= min <= max,
    ;
    if n > max * max {
        lemma_snapped_length(v, max);
    } else if min > 0 && n < min * min {
        lemma_snapped_length(v, min);
    } else {
        if min == 0 {
            assert(min * min == 0) by (nonlinear_arith)
                requires
                    min == 0,
            ;
        }
    }
}

/// A snapped vector has exactly the length asked for.
proof fn lemma_snapped_length(v: Vec2, target: int)
    requires
        0 <= target <= i32::MAX,
    ensures
        snapped(v, target).norm_squared() == target * target,
{
    let s = snapped(v, target);
    assert((-target) * (-target) == target * target) by (nonlinear_arith);
    assert(s.x * s.x + s.y * s.y == target * target) by (nonlinear_arith)
        requires
            (s.x == target || s.x == -target) && s.y == 0 || (s.y == target || s.y == -target)
                && s.x == 0,
    ;
}

/// Of two numbers that are not negative, the one with the smaller square
/// is the smaller.
proof fn lemma_square_order(s: int, t: int)
    requires
        0 <= s,
        0 <= t,
        s * s <= t * t,
    ensures
        s <= t,
{
    assert(s <= t) by (nonlinear_arith)
        requires
            0 <= s,
            0 <= t,
            s * s <= t * t,
    ;
}

/// The length of a vector that is not zero, in finer steps: at least one
/// whole step, and bracketed by its roundings.
pub proof fn lemma_fine_length(v: Vec2)
    requires
        v.norm_squared() > 0,
    ensures
        fine_length_floor(v) >= ROOT_SCALE,
        fine_length_floor(v) * fine_length_floor(v) <= v.fine_norm_squared(),
        v.fine_norm_squared() < (fine_length_floor(v) + 1) * (fine_length_floor(v) + 1),
        fine_length_ceil(v) >= ROOT_SCALE,
        v.fine_norm_squared() <= fine_length_ceil(v) * fine_length_ceil(v),
        (fine_length_ceil(v) - 1) * (fine_length_ceil(v) - 1) < v.fine_norm_squared(),
{
    let n = v.fine_norm_squared();
    lemma_sqrt_floor_bounds(n);
    lemma_sqrt_ceil_bounds(n);
    let f = sqrt_floor(n) as int;
    assert(n >= 0x1_0000_0000_0000_0000);
    assert(f + 1 > 0x1_0000_0000) by (nonlinear_arith)
        requires
            (f + 1) * (f + 1) > 0x1_0000_0000_0000_0000,
            f >= 0,
    ;
}

/// A quotient rounded toward zero, times the divisor, falls short of what
/// was divided by less than the divisor.
proof fn lemma_trunc_div_product(c: int, a: int, t: int, l: int)
    requires
        l > 0,
        t >= 0,
        c == trunc_div(a * t, l),
    ensures
        magnitude(c) * l <= magnitude(a) * t,
        magnitude(a) * t < magnitude(c) * l + l,
        a >= 0 ==> c >= 0,
        a <= 0 ==> c <= 0,
{
    let n = magnitude(a) * t;
    assert(n >= 0) by (nonlinear_arith)
        requires
            n == magnitude(a) * t,
            magnitude(a) >= 0,
            t >= 0,
    ;
    assert(a >= 0 ==> a * t == n);
    assert(a < 0 ==> -(a * t) == n) by (nonlinear_arith)
        requires
            n == magnitude(a) * t,
            magnitude(a) == if a < 0 {
                -a
            } else {
                a
            },
    ;
    vstd::arithmetic::div_mod::lemma_div_pos_is_pos(n, l);
    assert(magnitude(c) == n / l);
    vstd::arithmetic::div_mod::lemma_fundamental_div_mod(n, l);
    vstd::arithmetic::div_mod::lemma_mod_bound(n, l);
    assert((n / l) * l == l * (n / l)) by (nonlinear_arith);
}

/// A quotient rounded away from zero, times the divisor, exceeds what was
/// divided by less than the divisor.
proof fn lemma_away_div_product(c: int, a: int, t: int, l: int)
    requires
        l > 0,
        t >= 0,
        c == away_div(a * t, l),
    ensures
        magnitude(c) * l >= magnitude(a) * t,
        magnitude(c) * l < magnitude(a) * t + l,
        a >= 0 ==> c >= 0,
        a <= 0 ==> c <= 0,
{
    let n = magnitude(a) * t;
    assert(n >= 0) by (nonlinear_arith)
        requires
            n == magnitude(a) * t,
            magnitude(a) >= 0,
            t >= 0,
    ;
    assert(a >= 0 ==> a * t == n);
    assert(a < 0 ==> -(a * t) == n) by (nonlinear_arith)
        requires
            n == magnitude(a) * t,
            magnitude(a) == if a < 0 {
                -a
            } else {
                a
            },
    ;
    let m = n + l - 1;
    vstd::arithmetic::div_mod::lemma_div_pos_is_pos(m, l);
    if n == 0 {
        vstd::arithmetic::div_mod::lemma_basic_div(m, l);
    }
    assert(magnitude(c) == m / l);
    vstd::arithmetic::div_mod::lemma_fundamental_div_mod(m, l);
    vstd::arithmetic::div_mod::lemma_mod_bound(m, l);
    assert((m / l) * l == l * (m / l)) by (nonlinear_arith);
}

/// The sizes of the two components of a vector add up to less than
/// seventeen twelfths of its length: twelve times their sum, times `t`, is
/// at most seventeen times any bound whose square reaches the squared
/// length times the square of `t`.
proof fn lemma_sum_of_components(a: int, b: int, t: int, bound: int)
    requires
        a >= 0,
        b >= 0,
        t >= 0,
        bound >= 0,
        (a * a + b * b) * (t * t) <= bound * bound,
    ensures
        12 * (a * t + b * t) <= 17 * bound,
{
    let u = a * t;
    let w = b * t;
    assert(u >= 0 && w >= 0) by (nonlinear_arith)
        requires
            u == a * t,
            w == b * t,
            a >= 0,
            b >= 0,
            t >= 0,
    ;
    assert(u * u + w * w == (a * a + b * b) * (t * t)) by (nonlinear_arith)
        requires
            u == a * t,
            w == b * t,
    ;
    assert((u + w) * (u + w) <= 2 * (u * u + w * w)) by (nonlinear_arith);
    let s = 12 * (u + w);
    assert(s * s <= (17 * bound) * (17 * bound)) by (nonlinear_arith)
        requires
            s == 12 * (u + w),
            (u + w) * (u + w) <= 2 * (u * u + w * w),
            u * u + w * w <= bound * bound,
    ;
    lemma_square_order(s, 17 * bound);
}

/// The square of a number that falls short of `u` by at most `l`.
proof fn lemma_square_from_below(x: int, u: int, l: int)
    requires
        x >= 0,
        u >= 0,
        l > 0,
        x >= u - l,
    ensures
        x * x >= u * u - 2 * l * u,
{
    if u >= l {
        assert(x * x >= (u - l) * (u - l)) by (nonlinear_arith)
            requires
                x >= u - l,
                u - l >= 0,
        ;
        assert((u - l) * (u - l) == u * u - 2 * l * u + l * l) by (nonlinear_arith);
        assert(l * l >= 0) by (nonlinear_arith);
    } else {
        assert(u * u - 2 * l * u <= 0) by (nonlinear_arith)
            requires
                0 <= u < l,
        ;
        assert(x * x >= 0) by (nonlinear_arith);
    }
}

/// The square of a number that exceeds `u` by at most `l`.
proof fn lemma_square_from_above(x: int, u: int, l: int)
    requires
        x >= 0,
        u >= 0,
        l > 0,
        x <= u + l,
    ensures
        x * x <= u * u + 2 * l * u + l * l,
{
    assert(x * x <= (u + l) * (u + l)) by (nonlinear_arith)
        requires
            0 <= x <= u + l,
    ;
    assert((u + l) * (u + l) == u * u + 2 * l * u + l * l) by (nonlinear_arith);
}

/// The squares of two components scaled by `t * k` add up to the squared
/// length times the squares of `k` and `t`.
proof fn lemma_scaled_squares(a: int, b: int, t: int, k: int)
    ensures
        (a * (t * k)) * (a * (t * k)) + (b * (t * k)) * (b * (t * k)) == (a * a + b * b) * (k * k)
            * (t * t),
        (a * a + b * b) * ((t * k) * (t * k)) == (a * a + b * b) * (k * k) * (t * t),
{
    let big = t * k;
    let aa = a * a;
    let bb = b * b;
    let gg = big * big;
    let kk = k * k;
    let tt = t * t;
    assert(gg == kk * tt) by (nonlinear_arith)
        requires
            gg == (t * k) * (t * k),
            kk == k * k,
            tt == t * t,
    ;
    assert((a * big) * (a * big) == aa * gg) by (nonlinear_arith)
        requires
            aa == a * a,
            gg == big * big,
    ;
    assert((b * big) * (b * big) == bb * gg) by (nonlinear_arith)
        requires
            bb == b * b,
            gg == big * big,
    ;
    assert(aa * gg + bb * gg == (aa + bb) * gg) by (nonlinear_arith);
    assert((aa + bb) * (kk * tt) == (aa + bb) * kk * tt) by (nonlinear_arith);
}

/// Components rescaled toward zero by a length rounded up make a vector no
/// longer than the target.
proof fn lemma_down_not_longer(a: int, b: int, p: int, q: int, t: int, k: int, l: int)
    requires
        a >= 0,
        b >= 0,
        p >= 0,
        q >= 0,
        t >= 0,
        k > 0,
        l > 0,
        (a * a + b * b) * (k * k) <= l * l,
        p * l <= a * (t * k),
        q * l <= b * (t * k),
    ensures
        p <= t,
        q <= t,
        p * p + q * q <= t * t,
{
    let n = a * a + b * b;
    let big = t * k;
    let x = p * l;
    let y = q * l;
    let u = a * big;
    let w = b * big;
    assert(x >= 0 && y >= 0 && u >= 0 && w >= 0 && big >= 0) by (nonlinear_arith)
        requires
            x == p * l,
            y == q * l,
            u == a * big,
            w == b * big,
            big == t * k,
            a >= 0,
            b >= 0,
            p >= 0,
            q >= 0,
            t >= 0,
            k > 0,
            l > 0,
    ;
    assert(x * x <= u * u && y * y <= w * w) by (nonlinear_arith)
        requires
            0 <= x <= u,
            0 <= y <= w,
    ;
    lemma_scaled_squares(a, b, t, k);
    assert(u * u + w * w == n * (k * k) * (t * t));
    assert(n * (k * k) * (t * t) <= (l * l) * (t * t)) by (nonlinear_arith)
        requires
            n * (k * k) <= l * l,
            t * t >= 0,
    ;
    let c = p * p + q * q;
    assert(l * l > 0) by (nonlinear_arith)
        requires
            l > 0,
    ;
    assert(x * x + y * y == c * (l * l)) by (nonlinear_arith)
        requires
            x == p * l,
            y == q * l,
            c == p * p + q * q,
    ;
    assert(c <= t * t) by (nonlinear_arith)
        requires
            c * (l * l) <= (l * l) * (t * t),
            l * l > 0,
    ;
    assert(p * p <= t * t && q * q <= t * t) by (nonlinear_arith)
        requires
            p * p + q * q <= t * t,
    ;
    lemma_square_order(p, t);
    lemma_square_order(q, t);
}

/// Components rescaled toward zero make a vector less than two steps
/// shorter than the target.
proof fn lemma_down_not_much_shorter(a: int, b: int, p: int, q: int, t: int, k: int, l: int)
    requires
        a >= 0,
        b >= 0,
        p >= 0,
        q >= 0,
        2 <= t,
        2 * t <= k,
        4096 <= k <= l,
        (l - 1) * (l - 1) < (a * a + b * b) * (k * k),
        (a * a + b * b) * (k * k) <= l * l,
        a * (t * k) < p * l + l,
        b * (t * k) < q * l + l,
    ensures
        (t - 2) * (t - 2) <= p * p + q * q,
{
    let nn = (a * a + b * b) * (k * k);
    let big = t * k;
    let x = p * l;
    let y = q * l;
    let u = a * big;
    let w = b * big;
    assert(x >= 0 && y >= 0 && u >= 0 && w >= 0 && big >= 0) by (nonlinear_arith)
        requires
            x == p * l,
            y == q * l,
            u == a * big,
            w == b * big,
            big == t * k,
            a >= 0,
            b >= 0,
            p >= 0,
            q >= 0,
            t >= 0,
            k > 0,
            l > 0,
    ;
    lemma_square_from_below(x, u, l);
    lemma_square_from_below(y, w, l);
    lemma_scaled_squares(a, b, t, k);
    assert(u * u + w * w == nn * (t * t));
    assert(nn * (t * t) <= (t * l) * (t * l)) by (nonlinear_arith)
        requires
            nn <= l * l,
            t * t >= 0,
    ;
    assert((a * a + b * b) * (big * big) == nn * (t * t));
    assert(t * l >= 0) by (nonlinear_arith)
        requires
            t >= 0,
            l > 0,
    ;
    lemma_sum_of_components(a, b, big, t * l);
    let c = p * p + q * q;
    assert(l * l > 0) by (nonlinear_arith)
        requires
            l > 0,
    ;
    assert(x * x + y * y == c * (l * l)) by (nonlinear_arith)
        requires
            x == p * l,
            y == q * l,
            c == p * p + q * q,
    ;
    let sum = u + w;
    assert(12 * l * sum == 6 * (2 * l * u) + 6 * (2 * l * w)) by (nonlinear_arith)
        requires
            sum == u + w,
    ;
    assert(6 * (c * (l * l)) >= 6 * (nn * (t * t)) - 12 * l * sum);
    assert(12 * l * sum <= 17 * t * l * l) by (nonlinear_arith)
        requires
            12 * sum <= 17 * (t * l),
            l > 0,
    ;
    assert(nn * (t * t) >= ((l - 1) * (l - 1) + 1) * (t * t)) by (nonlinear_arith)
        requires
            nn >= (l - 1) * (l - 1) + 1,
            t * t >= 0,
    ;
    if t == 2 {
        assert(c >= 0) by (nonlinear_arith)
            requires
                c == p * p + q * q,
        ;
        assert((t - 2) * (t - 2) == 0) by (nonlinear_arith)
            requires
                t == 2,
        ;
    } else {
        // six times what is left over: l * gain + 6 * t * t, and more
        let gain = 7 * t * l - 12 * (t * t) - 24 * l;
        assert(6 * (((l - 1) * (l - 1) + 1) * (t * t)) - 17 * t * l * l - 6 * ((t - 2) * (t - 2)
            * (l * l)) == l * gain + 12 * (t * t)) by (nonlinear_arith)
            requires
                gain == 7 * t * l - 12 * (t * t) - 24 * l,
        ;
        if t >= 4 {
            assert(gain >= 0) by (nonlinear_arith)
                requires
                    gain == 7 * t * l - 12 * (t * t) - 24 * l,
                    t >= 4,
                    l >= 2 * t,
                    l >= 4096,
            ;
            assert(l * gain + 12 * (t * t) >= 0) by (nonlinear_arith)
                requires
                    gain >= 0,
                    l > 0,
            ;
            assert(c >= (t - 2) * (t - 2)) by (nonlinear_arith)
                requires
                    6 * (c * (l * l)) >= 6 * ((t - 2) * (t - 2) * (l * l)),
                    l * l > 0,
            ;
        } else {
            // t == 3: the vector is not zero
            assert((t - 2) * (t - 2) == 1) by (nonlinear_arith)
                requires
                    t == 3,
            ;
            assert(6 * (c * (l * l)) > 0) by (nonlinear_arith)
                requires
                    6 * (c * (l * l)) >= 6 * (((l - 1) * (l - 1) + 1) * (t * t)) - 17 * t * l * l,
                    t == 3,
                    l >= 4096,
            ;
            assert(c >= 1) by (nonlinear_arith)
                requires
                    6 * (c * (l * l)) > 0,
                    l * l > 0,
            ;
        }
    }
}

/// Components rescaled away from zero by a length rounded down make a
/// vector no shorter than the target.
proof fn lemma_up_not_shorter(a: int, b: int, p: int, q: int, t: int, k: int, l: int)
    requires
        a >= 0,
        b >= 0,
        p >= 0,
        q >= 0,
        t >= 0,
        k > 0,
        l > 0,
        l * l <= (a * a + b * b) * (k * k),
        p * l >= a * (t * k),
        q * l >= b * (t * k),
    ensures
        p * p + q * q >= t * t,
{
    let n = a * a + b * b;
    let big = t * k;
    let x = p * l;
    let y = q * l;
    let u = a * big;
    let w = b * big;
    assert(u >= 0 && w >= 0) by (nonlinear_arith)
        requires
            u == a * big,
            w == b * big,
            big == t * k,
            a >= 0,
            b >= 0,
            t >= 0,
            k > 0,
    ;
    assert(x * x >= u * u && y * y >= w * w) by (nonlinear_arith)
        requires
            x >= u,
            u >= 0,
            y >= w,
            w >= 0,
    ;
    lemma_scaled_squares(a, b, t, k);
    assert(u * u + w * w == n * (k * k) * (t * t));
    assert(n * (k * k) * (t * t) >= (l * l) * (t * t)) by (nonlinear_arith)
        requires
            n * (k * k) >= l * l,
            t * t >= 0,
    ;
    let c = p * p + q * q;
    assert(l * l > 0) by (nonlinear_arith)
        requires
            l > 0,
    ;
    assert(x * x + y * y == c * (l * l)) by (nonlinear_arith)
        requires
            x == p * l,
            y == q * l,
            c == p * p + q * q,
    ;
    assert(c >= t * t) by (nonlinear_arith)
        requires
            c * (l * l) >= (l * l) * (t * t),
            l * l > 0,
    ;
}

/// Components rescaled away from zero make a vector less than two steps
/// longer than the target.
proof fn lemma_up_not_much_longer(a: int, b: int, p: int, q: int, t: int, k: int, l: int)
    requires
        a >= 0,
        b >= 0,
        p >= 0,
        q >= 0,
        0 <= t,
        2 * t <= k,
        0 < k <= l,
        l * l <= (a * a + b * b) * (k * k),
        (a * a + b * b) * (k * k) < (l + 1) * (l + 1),
        p * l < a * (t * k) + l,
        q * l < b * (t * k) + l,
    ensures
        p * p + q * q <= (t + 2) * (t + 2),
        p <= t,
        q <= t,
{
    let n = a * a + b * b;
    let nn = n * (k * k);
    let big = t * k;
    let x = p * l;
    let y = q * l;
    let u = a * big;
    let w = b * big;
    assert(x >= 0 && y >= 0 && u >= 0 && w >= 0 && big >= 0) by (nonlinear_arith)
        requires
            x == p * l,
            y == q * l,
            u == a * big,
            w == b * big,
            big == t * k,
            a >= 0,
            b >= 0,
            p >= 0,
            q >= 0,
            t >= 0,
            k > 0,
            l > 0,
    ;
    lemma_square_from_above(x, u, l);
    lemma_square_from_above(y, w, l);
    lemma_scaled_squares(a, b, t, k);
    assert(u * u + w * w == nn * (t * t));
    assert((a * a + b * b) * (big * big) == nn * (t * t));
    let edge = t * (l + 1);
    assert(edge >= 0) by (nonlinear_arith)
        requires
            edge == t * (l + 1),
            t >= 0,
            l > 0,
    ;
    assert(nn * (t * t) <= edge * edge) by (nonlinear_arith)
        requires
            nn <= (l + 1) * (l + 1),
            t * t >= 0,
            edge == t * (l + 1),
    ;
    lemma_sum_of_components(a, b, big, edge);
    let c = p * p + q * q;
    assert(l * l > 0) by (nonlinear_arith)
        requires
            l > 0,
    ;
    assert(x * x + y * y == c * (l * l)) by (nonlinear_arith)
        requires
            x == p * l,
            y == q * l,
            c == p * p + q * q,
    ;
    let sum = u + w;
    assert(2 * l * sum == 2 * l * u + 2 * l * w) by (nonlinear_arith)
        requires
            sum == u + w,
    ;
    assert(c * (l * l) <= nn * (t * t) + 2 * l * sum + 2 * (l * l));
    assert(12 * l * sum == 6 * (2 * l * sum)) by (nonlinear_arith);
    assert(12 * l * sum <= 17 * edge * l) by (nonlinear_arith)
        requires
            12 * sum <= 17 * edge,
            l > 0,
    ;
    assert(6 * (edge * edge) + 17 * edge * l + 12 * (l * l) <= 6 * ((t + 2) * (t + 2) * (l * l)))
        by (nonlinear_arith)
        requires
            edge == t * (l + 1),
            0 <= t,
            2 * t <= l,
            l > 0,
    ;
    assert(c <= (t + 2) * (t + 2)) by (nonlinear_arith)
        requires
            6 * (c * (l * l)) <= 6 * ((t + 2) * (t + 2) * (l * l)),
            l * l > 0,
    ;
    // each component alone
    assert(a * a * (k * k) < (l + 1) * (l + 1) && b * b * (k * k) < (l + 1) * (l + 1))
        by (nonlinear_arith)
        requires
            (a * a + b * b) * (k * k) < (l + 1) * (l + 1),
            k > 0,
    ;
    assert((a * k) * (a * k) == a * a * (k * k) && (b * k) * (b * k) == b * b * (k * k))
        by (nonlinear_arith);
    assert(a * k >= 0 && b * k >= 0) by (nonlinear_arith)
        requires
            a >= 0,
            b >= 0,
            k > 0,
    ;
    assert(a * k < l + 1 && b * k < l + 1) by (nonlinear_arith)
        requires
            (a * k) * (a * k) < (l + 1) * (l + 1),
            (b * k) * (b * k) < (l + 1) * (l + 1),
            a * k >= 0,
            b * k >= 0,
            l > 0,
    ;
    assert(p <= t && q <= t) by (nonlinear_arith)
        requires
            p * l < a * (t * k) + l,
            q * l < b * (t * k) + l,
            a * k <= l,
            b * k <= l,
            a * k >= 0,
            b * k >= 0,
            t >= 0,
            l > 0,
            p >= 0,
            q >= 0,
    ;
}

/// Two components that are each within one step of an exactly rescaled
/// vector make a vector parallel to the first up to rounding.
proof fn lemma_near_is_parallel(rx: int, ry: int, x: int, y: int, big: int, l: int)
    requires
        l > 0,
        magnitude(rx * l - x * big) <= l,
        magnitude(ry * l - y * big) <= l,
    ensures
        magnitude(rx * y - ry * x) <= magnitude(x) + magnitude(y),
{
    let dx = rx * l - x * big;
    let dy = ry * l - y * big;
    let cross = rx * y - ry * x;
    assert(cross * l == dx * y - dy * x) by (nonlinear_arith)
        requires
            dx == rx * l - x * big,
            dy == ry * l - y * big,
            cross == rx * y - ry * x,
    ;
    let m = magnitude(x) + magnitude(y);
    assert(-(l * m) <= dx * y - dy * x <= l * m) by (nonlinear_arith)
        requires
            -l <= dx <= l,
            -l <= dy <= l,
            m == magnitude(x) + magnitude(y),
            magnitude(x) == if x < 0 {
                -x
            } else {
                x
            },
            magnitude(y) == if y < 0 {
                -y
            } else {
                y
            },
            l > 0,
    ;
    assert(-m <= cross <= m) by (nonlinear_arith)
        requires
            -(l * m) <= cross * l <= l * m,
            l > 0,
    ;
}

/// `r`, times the length, is within one length of `a` times the target in
/// finer steps: `r` is within one step of the exactly rescaled component.
pub open spec fn near(r: int, a: int, target: int, length: int) -> bool {
    magnitude(r * length - a * (target * ROOT_SCALE)) <= length
}

/// What [`shortened`] gives: each component rounded toward zero from the
/// exactly rescaled one, and a vector no longer than the target and less
/// than two steps shorter.
pub proof fn lemma_shortened(v: Vec2, target: int)
    requires
        v.norm_squared() > 0,
        0 <= target <= i32::MAX,
    ensures
        shortened(v, target).norm_squared() <= target * target,
        target >= 2 ==> (target - 2) * (target - 2) <= shortened(v, target).norm_squared(),
        near(shortened(v, target).x as int, v.x as int, target, fine_length_ceil(v)),
        near(shortened(v, target).y as int, v.y as int, target, fine_length_ceil(v)),
        near(
            added(shortened(v, target), toward(v.x as int), 0).x as int,
            v.x as int,
            target,
            fine_length_ceil(v),
        ),
        near(
            added(shortened(v, target), 0, toward(v.y as int)).y as int,
            v.y as int,
            target,
            fine_length_ceil(v),
        ),
{
    let k = ROOT_SCALE as int;
    assert(k == 0x1_0000_0000);
    let l = fine_length_ceil(v);
    let big = target * k;
    lemma_fine_length(v);
    let x = v.x as int;
    let y = v.y as int;
    let a = magnitude(x);
    let b = magnitude(y);
    let cx = trunc_div(x * big, l);
    let cy = trunc_div(y * big, l);
    let p = magnitude(cx);
    let q = magnitude(cy);
    assert(big >= 0) by (nonlinear_arith)
        requires
            big == target * k,
            target >= 0,
            k > 0,
    ;
    lemma_trunc_div_product(cx, x, big, l);
    lemma_trunc_div_product(cy, y, big, l);
    assert(a * a == x * x && b * b == y * y) by (nonlinear_arith)
        requires
            a == x || a == -x,
            b == y || b == -y,
    ;
    assert(v.fine_norm_squared() == (a * a + b * b) * (k * k)) by (nonlinear_arith)
        requires
            v.fine_norm_squared() == (x * x + y * y) * 0x1_0000_0000_0000_0000,
            a * a == x * x,
            b * b == y * y,
            k == 0x1_0000_0000,
    ;
    lemma_down_not_longer(a, b, p, q, target, k, l);
    let s = shortened(v, target);
    assert(s.x == cx && s.y == cy);
    assert(p * p == cx * cx && q * q == cy * cy) by (nonlinear_arith)
        requires
            p == cx || p == -cx,
            q == cy || q == -cy,
    ;
    if target >= 2 {
        lemma_down_not_much_shorter(a, b, p, q, target, k, l);
    }
    // the components and their neighbours further out
    assert(a * big == magnitude(x * big) && b * big == magnitude(y * big)) by (nonlinear_arith)
        requires
            a == magnitude(x),
            b == magnitude(y),
            big >= 0,
            magnitude(x) == if x < 0 {
                -x
            } else {
                x
            },
            magnitude(y) == if y < 0 {
                -y
            } else {
                y
            },
            magnitude(x * big) == if x * big < 0 {
                -(x * big)
            } else {
                x * big
            },
            magnitude(y * big) == if y * big < 0 {
                -(y * big)
            } else {
                y * big
            },
    ;
    lemma_signed_products(cx, x, big, l);
    lemma_signed_products(cy, y, big, l);
    lemma_step_product(cx, toward(x), l);
    lemma_step_product(cy, toward(y), l);
}

/// The signed products behind the sizes: where `c` has the sign of `a`,
/// `c * l - a * big` is `|c| * l - |a| * big` with that sign.
proof fn lemma_signed_products(c: int, a: int, big: int, l: int)
    requires
        big >= 0,
        l > 0,
        a >= 0 ==> c >= 0,
        a <= 0 ==> c <= 0,
    ensures
        a >= 0 ==> c * l - a * big == magnitude(c) * l - magnitude(a) * big,
        a <= 0 ==> c * l - a * big == -(magnitude(c) * l - magnitude(a) * big),
{
    assert(a <= 0 ==> c * l - a * big == -((-c) * l - (-a) * big)) by (nonlinear_arith);
}

/// Moving a component by one step moves its product with the length by one
/// length.
proof fn lemma_step_product(c: int, step: int, l: int)
    ensures
        (c + step) * l == c * l + step * l,
        step == 1 ==> step * l == l,
        step == -1 ==> step * l == -l,
        step == 0 ==> step * l == 0,
{
    assert((c + step) * l == c * l + step * l) by (nonlinear_arith);
    assert(step == 1 ==> step * l == l) by (nonlinear_arith);
    assert(step == -1 ==> step * l == -l) by (nonlinear_arith);
    assert(step == 0 ==> step * l == 0) by (nonlinear_arith);
}

/// What [`lengthened`] gives: each component rounded away from zero from
/// the exactly rescaled one, and a vector no shorter than the target and
/// less than two steps longer.
pub proof fn lemma_lengthened(v: Vec2, target: int)
    requires
        v.norm_squared() > 0,
        0 <= target <= i32::MAX,
    ensures
        target * target <= lengthened(v, target).norm_squared(),
        lengthened(v, target).norm_squared() <= (target + 2) * (target + 2),
        near(lengthened(v, target).x as int, v.x as int, target, fine_length_floor(v)),
        near(lengthened(v, target).y as int, v.y as int, target, fine_length_floor(v)),
        near(
            added(lengthened(v, target), -toward(v.x as int), 0).x as int,
            v.x as int,
            target,
            fine_length_floor(v),
        ),
        near(
            added(lengthened(v, target), 0, -toward(v.y as int)).y as int,
            v.y as int,
            target,
            fine_length_floor(v),
        ),
{
    let k = ROOT_SCALE as int;
    assert(k == 0x1_0000_0000);
    let l = fine_length_floor(v);
    let big = target * k;
    lemma_fine_length(v);
    let x = v.x as int;
    let y = v.y as int;
    let a = magnitude(x);
    let b = magnitude(y);
    let cx = away_div(x * big, l);
    let cy = away_div(y * big, l);
    let p = magnitude(cx);
    let q = magnitude(cy);
    assert(big >= 0) by (nonlinear_arith)
        requires
            big == target * k,
            target >= 0,
            k > 0,
    ;
    lemma_away_div_product(cx, x, big, l);
    lemma_away_div_product(cy, y, big, l);
    assert(a * a == x * x && b * b == y * y) by (nonlinear_arith)
        requires
            a == x || a == -x,
            b == y || b == -y,
    ;
    assert(v.fine_norm_squared() == (a * a + b * b) * (k * k)) by (nonlinear_arith)
        requires
            v.fine_norm_squared() == (x * x + y * y) * 0x1_0000_0000_0000_0000,
            a * a == x * x,
            b * b == y * y,
            k == 0x1_0000_0000,
    ;
    lemma_up_not_shorter(a, b, p, q, target, k, l);
    lemma_up_not_much_longer(a, b, p, q, target, k, l);
    let s = lengthened(v, target);
    assert(s.x == cx && s.y == cy);
    assert(p * p == cx * cx && q * q == cy * cy) by (nonlinear_arith)
        requires
            p == cx || p == -cx,
            q == cy || q == -cy,
    ;
    lemma_signed_products(cx, x, big, l);
    lemma_signed_products(cy, y, big, l);
    lemma_step_product(cx, -toward(x), l);
    lemma_step_product(cy, -toward(y), l);
}

/// A vector that was too long and is still one of the four grid points
/// around its exactly rescaled self is parallel to what it was, up to
/// rounding.
pub proof fn lemma_slowed_is_parallel(v: Vec2, min: int, max: int)
    requires
        v.norm_squared() > 0,
        0 <= max <= i32::MAX,
        slowed(v, min, max) is Some,
    ensures
        parallel_up_to_rounding(slowed(v, min, max)->0, v),
{
    let r = slowed(v, min, max)->0;
    let l = fine_length_ceil(v);
    lemma_fine_length(v);
    lemma_shortened(v, max);
    lemma_near_is_parallel(r.x as int, r.y as int, v.x as int, v.y as int, max * ROOT_SCALE, l);
}

/// A vector that was too short and is still one of the four grid points
/// around its exactly rescaled self is parallel to what it was, up to
/// rounding.
pub proof fn lemma_hastened_is_parallel(v: Vec2, min: int, max: int)
    requires
        v.norm_squared() > 0,
        0 <= min <= i32::MAX,
        hastened(v, min, max) is Some,
    ensures
        parallel_up_to_rounding(hastened(v, min, max)->0, v),
{
    let r = hastened(v, min, max)->0;
    let l = fine_length_floor(v);
    lemma_fine_length(v);
    lemma_lengthened(v, min);
    lemma_near_is_parallel(r.x as int, r.y as int, v.x as int, v.y as int, min * ROOT_SCALE, l);
}

/// Clamping keeps the direction: for ordered limits, what becomes of a
/// vector that had a direction is parallel to it up to rounding, unless
/// none of the four grid points around the exactly rescaled vector lies
/// within the limits.
pub proof fn lemma_clamped_speed_keeps_direction(v: Vec2, p: BoidParameters)
    requires
        p.speed_limits_ordered(),
        v.norm_squared() > 0,
    ensures
        parallel_up_to_rounding(clamped_speed(v, p), v) || no_grid_point_within(v, p),
{
    let n = v.norm_squared();
    let min = p.min_velocity as int;
    let max = p.max_velocity as int;
    assert(min * min <= max * max) by (nonlinear_arith)
        requires
            0 <= min <= max,
    ;
    if n > max * max {
        if slowed(v, min, max) is Some {
            lemma_slowed_is_parallel(v, min, max);
        }
    } else if min > 0 && n < min * min {
        if hastened(v, min, max) is Some {
            lemma_hastened_is_parallel(v, min, max);
        }
    } else {
        assert(v.x * v.y - v.y * v.x == 0) by (nonlinear_arith);
    }
}

/// Clamping brings a vector to the limit it crossed: for ordered limits,
/// what becomes of a vector that had a direction is less than two steps
/// short of the upper limit where it was too long, and less than two steps
/// beyond the lower limit where it was too short.
pub proof fn lemma_clamped_speed_near_limit(v: Vec2, p: BoidParameters)
    requires
        p.speed_limits_ordered(),
        v.norm_squared() > 0,
    ensures
        near_crossed_limit(clamped_speed(v, p), v, p),
{
    let n = v.norm_squared();
    let min = p.min_velocity as int;
    let max = p.max_velocity as int;
    assert(min * min <= max * max) by (nonlinear_arith)
        requires
            0 <= min <= max,
    ;
    if n > max * max {
        lemma_shortened(v, max);
        lemma_snapped_length(v, max);
        if max >= 2 {
            assert((max - 2) * (max - 2) <= max * max) by (nonlinear_arith)
                requires
                    max >= 2,
            ;
        }
    } else if min > 0 && n < min * min {
        lemma_lengthened(v, min);
        lemma_snapped_length(v, min);
        assert(min * min <= (min + 2) * (min + 2)) by (nonlinear_arith)
            requires
                min >= 0,
        ;
    } else {
        if min == 0 {
            assert(min * min == 0) by (nonlinear_arith)
                requires
                    min == 0,
            ;
        }
    }
}

/// Limits that are at least two steps apart never make a vector lose its
/// direction: one of the four grid points around the exactly rescaled
/// vector lies within them.
pub proof fn lemma_apart_limits_keep_direction(v: Vec2, p: BoidParameters)
    requires
        p.speed_limits_ordered(),
        p.min_velocity + 2 <= p.max_velocity,
        v.norm_squared() > 0,
    ensures
        !no_grid_point_within(v, p),
        parallel_up_to_rounding(clamped_speed(v, p), v),
{
    let n = v.norm_squared();
    let min = p.min_velocity as int;
    let max = p.max_velocity as int;
    lemma_clamped_speed_keeps_direction(v, p);
    if n > max * max {
        lemma_shortened(v, max);
        assert(min * min <= (max - 2) * (max - 2)) by (nonlinear_arith)
            requires
                0 <= min <= max - 2,
        ;
    } else if n < min * min {
        lemma_lengthened(v, min);
        assert((min + 2) * (min + 2) <= max * max) by (nonlinear_arith)
            requires
                0 <= min + 2 <= max,
        ;
    }
}

/// The heading that alignment steers by: the mean velocity of the others
/// brought to full speed is parallel to that mean up to rounding, no
/// faster than the top speed and less than two steps slower.
pub proof fn lemma_heading_at_full_speed(mean: Vec2, p: BoidParameters)
    requires
        mean.norm_squared() > 0,
        p.max_velocity >= 0,
    ensures
        parallel_up_to_rounding(shortened(mean, p.max_velocity as int), mean),
        shortened(mean, p.max_velocity as int).norm_squared() <= p.max_velocity * p.max_velocity,
        p.max_velocity >= 2 ==> (p.max_velocity - 2) * (p.max_velocity - 2) <= shortened(
            mean,
            p.max_velocity as int,
        ).norm_squared(),
{
    let max = p.max_velocity as int;
    let r = shortened(mean, max);
    lemma_fine_length(mean);
    lemma_shortened(mean, max);
    lemma_near_is_parallel(
        r.x as int,
        r.y as int,
        mean.x as int,
        mean.y as int,
        max * ROOT_SCALE,
        fine_length_ceil(mean),
    );
}

/// What alignment adds to the steering: a fraction of the difference
/// between the boid's own velocity and the perceived mean velocity of the
/// others brought to full speed, its direction kept. Without others, or
/// where that mean is zero and so has no direction, it is nothing.
pub open spec fn alignment(
    amount: int,
    total_velocity: WideVec2,
    a_velocity: Vec2,
    p: BoidParameters,
) -> (int, int) {
    if amount > 0 {
        let mean = Vec2 {
            x: perceived(total_velocity.x as int, a_velocity.x as int, amount) as i32,
            y: perceived(total_velocity.y as int, a_velocity.y as int, amount) as i32,
        };
        if mean.norm_squared() == 0 {
            (0, 0)
        } else {
            let heading = shortened(mean, p.max_velocity as int);
            (
                scaled(heading.x - a_velocity.x, p.matching_factor as int),
                scaled(heading.y - a_velocity.y, p.matching_factor as int),
            )
        }
    } else {
        (0, 0)
    }
}

/// Steers towards the direction in which the neighbouring boids fly.
pub fn align_velocities(
    boids_amount: usize,
    total_velocity: WideVec2,
    a_velocity: Vec2,
    boid_params: &BoidParameters,
    final_velocity: &mut Vec2,
)
    ensures
        *final(final_velocity) == added(
            *old(final_velocity),
            alignment(boids_amount as int, total_velocity, a_velocity, *boid_params).0,
            alignment(boids_amount as int, total_velocity, a_velocity, *boid_params).1,
        ),
{
    if boids_amount > 0 {
        let mean = Vec2 {
            x: perceive(total_velocity.x, a_velocity.x, boids_amount),
            y: perceive(total_velocity.y, a_velocity.y, boids_amount),
        };
        if mean.length_squared() > 0 {
            let percieved_velocity = shorten(mean, boid_params.max_velocity);
            let dx = scale(
                percieved_velocity.x as i64 - a_velocity.x as i64,
                boid_params.matching_factor,
            );
            let dy = scale(
                percieved_velocity.y as i64 - a_velocity.y as i64,
                boid_params.matching_factor,
            );
            accumulate(final_velocity, dx, dy);
        }
    }
}

/// What the random jitter adds to one component of the steering: the drawn
/// fraction of the top speed, weighted by the randomness factor.
pub open spec fn jitter(drawn: int, p: BoidParameters) -> int {
    scaled_twice(drawn, p.max_velocity as int, p.random_factor as int)
}

/// Adds the drawn jitter to the steering vector.
pub fn random_movement(final_velocity: &mut Vec2, drawn: Vec2, boid_params: &BoidParameters)
    ensures
        *final(final_velocity) == added(
            *old(final_velocity),
            jitter(drawn.x as int, *boid_params),
            jitter(drawn.y as int, *boid_params),
        ),
{
    let dx = scale_twice(drawn.x as i64, boid_params.max_velocity, boid_params.random_factor);
    let dy = scale_twice(drawn.y as i64, boid_params.max_velocity, boid_params.random_factor);
    accumulate(final_velocity, dx, dy);
}

/// Square of the speed, five units per second, above which a boid inside an
/// obstacle backs out of it instead of being put elsewhere.
pub const ESCAPE_SPEED_SQUARED: u64 = 25_000_000;

/// What a tile of the map is to the flock.
#[derive(Clone, Copy, Debug, PartialEq, Eq)]
pub enum TileType {
    /// Something in the way.
    Plain,
    /// A target, with the hit points it has left.
    Target(i32),
}

/// Where a boid that got stuck inside an obstacle is put, and how fast it
/// flies from there.
#[derive(Clone, Copy, Debug, PartialEq, Eq)]
pub struct Respawn {
    pub position: Vec2,
    pub velocity: Vec2,
}

/// The nearest value to `a` in the interval of half-length `half` around
/// `b`.
pub open spec fn closest(a: int, b: int, half: int) -> int {
    if a < b - half {
        b - half
    } else if a > b + half {
        b + half
    } else {
        a
    }
}

fn closest_to(a: i32, b: i32, half: u32) -> (r: i64)
    ensures
        r as int == closest(a as int, b as int, half as int),
        i32::MIN <= r <= i32::MAX,
{
    let low: i64 = b as i64 - half as i64;
    let high: i64 = b as i64 + half as i64;
    if (a as i64) < low {
        low
    } else if (a as i64) > high {
        high
    } else {
        a as i64
    }
}

/// A push along `(dx, dy)` whose strength is `factor` over the length of
/// `(dx, dy)`: the smaller the distance, the stronger the push. At distance
/// zero there is no direction and no push.
pub open spec fn impulse(dx: int, dy: int, factor: int) -> (int, int) {
    let d = dx * dx + dy * dy;
    if d > 0 {
        (trunc_div(SCALE * dx * factor, d), trunc_div(SCALE * dy * factor, d))
    } else {
        (0, 0)
    }
}

/// Squared length of a difference of two positions.
fn distance_squared(dx: i64, dy: i64) -> (r: i128)
    requires
        -0x1_0000_0000 <= dx <= 0x1_0000_0000,
        -0x1_0000_0000 <= dy <= 0x1_0000_0000,
    ensures
        r as int == dx * dx + dy * dy,
        0 <= r <= 0x2_0000_0000_0000_0000,
{
    let x: i128 = dx as i128;
    let y: i128 = dy as i128;
    assert(0 <= x * x <= 0x1_0000_0000_0000_0000) by (nonlinear_arith)
        requires
            -0x1_0000_0000 <= x <= 0x1_0000_0000,
    ;
    assert(0 <= y * y <= 0x1_0000_0000_0000_0000) by (nonlinear_arith)
        requires
            -0x1_0000_0000 <= y <= 0x1_0000_0000,
    ;
    x * x + y * y
}

/// One component of an impulse.
fn impulse_along(d: i64, factor: i32, distance_squared: i128) -> (r: i128)
    requires
        -0x1_0000_0000 <= d <= 0x1_0000_0000,
        distance_squared > 0,
    ensures
        r as int == trunc_div(SCALE * d * factor, distance_squared as int),
        -0x8_0000_0000_0000_0000_0000 <= r <= 0x8_0000_0000_0000_0000_0000,
{
    let x: i128 = d as i128;
    let f: i128 = factor as i128;
    let scale: i128 = SCALE as i128;
    assert(scale == 1000);
    let sx: i128 = scale * x;
    assert(-0x8_0000_0000_0000_0000_0000 <= sx * f <= 0x8_0000_0000_0000_0000_0000)
        by (nonlinear_arith)
        requires
            -0x400_0000_0000 <= sx <= 0x400_0000_0000,
            -0x8000_0000 <= f <= 0x8000_0000,
    ;
    let n: i128 = sx * f;
    let q: i128 = div_toward_zero(n, distance_squared);
    proof {
        lemma_trunc_div_bounded(n as int, distance_squared as int);
    }
    q
}

/// The outcome of one boid meeting one neighbour: the steering vector, the
/// boid, and the neighbour's tile afterwards.
///
/// Another boid pushes the boid away. A target is not steered at; a boid
/// inside it takes one hit point from it. An obstacle pushes the boid away
/// from its nearest point. A boid inside an obstacle steps back along its
/// velocity if it is faster than five units per second, and is put at
/// `respawn` otherwise.
pub open spec fn interaction(
    b_aabb: Option<AABB>,
    a_position: Vec2,
    b_position: Vec2,
    p: BoidParameters,
    final_velocity: Vec2,
    a_velocity: Vec2,
    a: MovingObject,
    delta: i32,
    respawn: Respawn,
    tile: Option<TileType>,
) -> (Vec2, MovingObject, Option<TileType>) {
    match b_aabb {
        None => {
            let push = impulse(
                a_position.x - b_position.x,
                a_position.y - b_position.y,
                p.avoid_factor as int,
            );
            (added(final_velocity, push.0, push.1), a, tile)
        },
        Some(shape) => {
            let dx = a_position.x - closest(
                a_position.x as int,
                b_position.x as int,
                shape.halfsize.x as int,
            );
            let dy = a_position.y - closest(
                a_position.y as int,
                b_position.y as int,
                shape.halfsize.y as int,
            );
            let apart = dx * dx + dy * dy > 0;
            match tile {
                Some(TileType::Target(hp)) => {
                    if apart {
                        (final_velocity, a, tile)
                    } else {
                        (final_velocity, a, Some(TileType::Target(saturate(hp - 1) as i32)))
                    }
                },
                _ => {
                    if apart {
                        let push = impulse(dx, dy, p.avoid_obstacles_factor as int);
                        (added(final_velocity, push.0, push.1), a, tile)
                    } else if a_velocity.norm_squared() > ESCAPE_SPEED_SQUARED {
                        (
                            final_velocity,
                            MovingObject {
                                position: Position {
                                    value: added(
                                        a.position.value,
                                        -scaled(a_velocity.x as int, delta as int),
                                        -scaled(a_velocity.y as int, delta as int),
                                    ),
                                },
                                ..a
                            },
                            tile,
                        )
                    } else {
                        (
                            final_velocity,
                            MovingObject {
                                position: Position { value: respawn.position },
                                velocity: Velocity { value: respawn.velocity },
                                ..a
                            },
                            tile,
                        )
                    }
                },
            }
        },
    }
}

/// Lets the boid at `a_position` react to one neighbour at `b_position`:
/// to another boid when `b_aabb` is `None`, else to a tile of the map.
pub fn object_interactions(
    b_aabb: Option<&AABB>,
    a_position: Vec2,
    b_position: Vec2,
    boid_params: &BoidParameters,
    final_velocity: &mut Vec2,
    a_velocity: Vec2,
    a_moving_object: &mut MovingObject,
    delta: i32,
    respawn: &Respawn,
    tile_type: &mut Option<TileType>,
)
    ensures
        (*final(final_velocity), *final(a_moving_object), *final(tile_type)) == interaction(
            match b_aabb {
                Some(shape) => Some(*shape),
                None => None,
            },
            a_position,
            b_position,
            *boid_params,
            *old(final_velocity),
            a_velocity,
            *old(a_moving_object),
            delta,
            *respawn,
            *old(tile_type),
        ),
{
    match b_aabb {
        Some(b_aabb) => {
            let dx: i64 = a_position.x as i64 - closest_to(
                a_position.x,
                b_position.x,
                b_aabb.halfsize.x,
            );
            let dy: i64 = a_position.y as i64 - closest_to(
                a_position.y,
                b_position.y,
                b_aabb.halfsize.y,
            );
            let distance: i128 = distance_squared(dx, dy);
            if let Some(TileType::Target(hp)) = *tile_type {
                if distance > 0 {
                } else {
                    *tile_type = Some(TileType::Target(saturate_to_i32(hp as i128 - 1)));
                }
            } else {
                if distance > 0 {
                    let push_x = impulse_along(dx, boid_params.avoid_obstacles_factor, distance);
                    let push_y = impulse_along(dy, boid_params.avoid_obstacles_factor, distance);
                    accumulate(final_velocity, push_x, push_y);
                } else if a_velocity.length_squared() > ESCAPE_SPEED_SQUARED {
                    let back_x = scale(a_velocity.x as i64, delta);
                    let back_y = scale(a_velocity.y as i64, delta);
                    accumulate(&mut a_moving_object.position.value, -back_x, -back_y);
                } else {
                    a_moving_object.position.value = respawn.position;
                    a_moving_object.velocity.value = respawn.velocity;
                }
            }
        },
        None => {
            let dx: i64 = a_position.x as i64 - b_position.x as i64;
            let dy: i64 = a_position.y as i64 - b_position.y as i64;
            let distance: i128 = distance_squared(dx, dy);
            if distance > 0 {
                let push_x = impulse_along(dx, boid_params.avoid_factor, distance);
                let push_y = impulse_along(dy, boid_params.avoid_factor, distance);
                accumulate(final_velocity, push_x, push_y);
            }
        },
    }
}

} // verus!

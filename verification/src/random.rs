//! Random draws for the flock.

use vstd::prelude::*;
use rand::Rng;
use crate::boids::{BoidParameters, Respawn};
use crate::math::{trunc_div, Vec2};
use crate::physics::AABB;

verus! {

/// A whole number drawn by `rand::Rng::gen_range` from the half-open range
/// `low..high`, on the generator that `rand::thread_rng()` hands out.
///
/// `gen_range` panics on an empty range, which the precondition excludes.
/// For `i32` it returns `low` plus an offset below `high - low`, so the
/// result lies in the range. Nothing else is claimed of it: two draws from
/// the same range may differ.
#[verifier::external_body]
fn random_between(low: i32, high: i32) -> (r: i32)
    requires
        low < high,
    ensures
        low <= r < high,
{
    rand::thread_rng().gen_range(low..high)
}

/// `v` may come out of a draw between `-bound` and `bound`: it lies in that
/// range, upper end excluded, or is zero where the range is empty.
pub open spec fn drawn_symmetric(bound: int, v: int) -> bool {
    if bound > 0 {
        -bound <= v < bound
    } else {
        v == 0
    }
}

/// Draws a number between `-bound` and `bound`, upper end excluded, or zero
/// if there is no such number.
pub fn draw_symmetric(bound: i32) -> (r: i32)
    ensures
        drawn_symmetric(bound as int, r as int),
{
    if bound > 0 {
        random_between(-bound, bound)
    } else {
        0
    }
}

/// Share of the top speed, in thousandths, that the jitter of one tick may
/// reach in either direction.
pub const JITTER_RANGE: i32 = 300;

/// `jitter` may come out of [`draw_jitter`].
pub open spec fn jitter_allowed(jitter: Vec2) -> bool {
    &&& drawn_symmetric(JITTER_RANGE as int, jitter.x as int)
    &&& drawn_symmetric(JITTER_RANGE as int, jitter.y as int)
}

/// Draws the jitter of one boid for one tick.
pub fn draw_jitter() -> (jitter: Vec2)
    ensures
        jitter_allowed(jitter),
{
    let x = draw_symmetric(JITTER_RANGE);
    let y = draw_symmetric(JITTER_RANGE);
    Vec2 { x, y }
}

/// The largest coordinate that a half-extent admits.
pub open spec fn reach(half: u32) -> int {
    if half > i32::MAX {
        i32::MAX as int
    } else {
        half as int
    }
}

/// `respawn` may come out of [`draw_respawn`]: a position across the full
/// width of the map and over the middle half of its height, and a velocity
/// of at most the top speed along each axis.
pub open spec fn respawn_allowed(respawn: Respawn, map_aabb: AABB, p: BoidParameters) -> bool {
    &&& drawn_symmetric(reach(map_aabb.halfsize.x), respawn.position.x as int)
    &&& exists|t: int|
        drawn_symmetric(reach(map_aabb.halfsize.y), t) && respawn.position.y == trunc_div(t, 2)
    &&& drawn_symmetric(p.max_velocity as int, respawn.velocity.x as int)
    &&& drawn_symmetric(p.max_velocity as int, respawn.velocity.y as int)
}

fn reach_of(half: u32) -> (r: i32)
    ensures
        r as int == reach(half),
{
    if half > i32::MAX as u32 {
        i32::MAX
    } else {
        half as i32
    }
}

/// Draws where a stuck boid is put and how fast it flies from there.
pub fn draw_respawn(map_aabb: &AABB, boid_params: &BoidParameters) -> (respawn: Respawn)
    ensures
        respawn_allowed(respawn, *map_aabb, *boid_params),
{
    let x = draw_symmetric(reach_of(map_aabb.halfsize.x));
    let t = draw_symmetric(reach_of(map_aabb.halfsize.y));
    let y = t / 2;
    let vx = draw_symmetric(boid_params.max_velocity);
    let vy = draw_symmetric(boid_params.max_velocity);
    assert(drawn_symmetric(reach(map_aabb.halfsize.y), t as int) && y == trunc_div(t as int, 2));
    Respawn { position: Vec2 { x, y }, velocity: Vec2 { x: vx, y: vy } }
}

} // verus!

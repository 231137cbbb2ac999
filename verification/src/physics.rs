//! Components of a moving body, the narrow-phase tests on axis-aligned boxes,
//! and the per-body passes of a simulation tick.

use vstd::prelude::*;
use crate::math::{
    accumulate, added, saturate, saturate_to_i32, scale, scale_twice, scaled, scaled_twice, Extent,
    Vec2,
};

verus! {

/// Downward acceleration of free fall, in world units.
pub const GRAVITY_CONSTANT: i32 = 9800;

/// Velocity of a body, in world units per second.
#[derive(Clone, Copy, Debug, PartialEq, Eq)]
pub struct Velocity {
    pub value: Vec2,
}

impl Velocity {
    pub fn new(value: Vec2) -> (v: Self)
        ensures
            v.value == value,
    {
        Velocity { value }
    }
}

/// Centre of a body in world space.
#[derive(Clone, Copy, Debug, PartialEq, Eq)]
pub struct Position {
    pub value: Vec2,
}

impl Position {
    pub fn new(value: Vec2) -> (p: Self)
        ensures
            p.value == value,
    {
        Position { value }
    }
}

/// An axis-aligned box, given by its half-extent around a centre that is
/// supplied separately.
#[derive(Clone, Copy, Debug, PartialEq, Eq)]
pub struct AABB {
    pub halfsize: Extent,
}

/// Two intervals, each given by centre and half-length, share an open stretch.
pub open spec fn spans_overlap(a: int, a_half: int, b: int, b_half: int) -> bool {
    a - a_half < b + b_half && a + a_half > b - b_half
}

/// The interval around `a` lies strictly around the interval around `b`.
pub open spec fn span_encloses(a: int, a_half: int, b: int, b_half: int) -> bool {
    a - a_half < b - b_half && a + a_half > b + b_half
}

impl AABB {
    pub fn new(halfsize: Extent) -> (b: Self)
        ensures
            b.halfsize == halfsize,
    {
        AABB { halfsize }
    }

    /// The box at `self_pos` has `other` at `other_pos` strictly inside it.
    pub open spec fn encloses(self, self_pos: Position, other: AABB, other_pos: Position) -> bool {
        &&& span_encloses(
            self_pos.value.x as int,
            self.halfsize.x as int,
            other_pos.value.x as int,
            other.halfsize.x as int,
        )
        &&& span_encloses(
            self_pos.value.y as int,
            self.halfsize.y as int,
            other_pos.value.y as int,
            other.halfsize.y as int,
        )
    }

    /// The box at `self_pos` has the point `point` strictly inside it.
    pub open spec fn holds_point(self, self_pos: Position, point: Position) -> bool {
        &&& span_encloses(self_pos.value.x as int, self.halfsize.x as int, point.value.x as int, 0)
        &&& span_encloses(self_pos.value.y as int, self.halfsize.y as int, point.value.y as int, 0)
    }

    /// The boxes share interior points. Boxes that only touch do not.
    pub open spec fn overlaps(self, self_pos: Position, other: AABB, other_pos: Position) -> bool {
        &&& spans_overlap(
            self_pos.value.x as int,
            self.halfsize.x as int,
            other_pos.value.x as int,
            other.halfsize.x as int,
        )
        &&& spans_overlap(
            self_pos.value.y as int,
            self.halfsize.y as int,
            other_pos.value.y as int,
            other.halfsize.y as int,
        )
    }

    /// Whether `other` lies fully inside this box, edges excluded.
    pub fn contains(&self, self_pos: Position, other: &AABB, other_pos: Position) -> (r: bool)
        ensures
            r == self.encloses(self_pos, *other, other_pos),
    {
        let sx: i64 = self_pos.value.x as i64;
        let sy: i64 = self_pos.value.y as i64;
        let ox: i64 = other_pos.value.x as i64;
        let oy: i64 = other_pos.value.y as i64;
        sx - (self.halfsize.x as i64) < ox - (other.halfsize.x as i64)
            && sx + (self.halfsize.x as i64) > ox + (other.halfsize.x as i64)
            && sy - (self.halfsize.y as i64) < oy - (other.halfsize.y as i64)
            && sy + (self.halfsize.y as i64) > oy + (other.halfsize.y as i64)
    }
}

/// How far box A reaches into box B on each axis, signed by the side of B
/// that A sits on.
#[derive(Clone, Copy, Debug, PartialEq, Eq)]
pub struct Penetration {
    pub x: i64,
    pub y: i64,
}

/// Displacement that takes the interval around `a` clear of the interval
/// around `b`, leaving on the side where `a` already is.
pub open spec fn span_penetration(a: int, a_half: int, b: int, b_half: int) -> int {
    if a > b {
        (b + b_half) - (a - a_half)
    } else {
        (b - b_half) - (a + a_half)
    }
}

/// Penetration of A into B, if the boxes overlap.
pub open spec fn penetration(a_aabb: AABB, a_pos: Position, b_aabb: AABB, b_pos: Position)
    -> Option<Penetration> {
    if a_aabb.overlaps(a_pos, b_aabb, b_pos) {
        Some(
            Penetration {
                x: span_penetration(
                    a_pos.value.x as int,
                    a_aabb.halfsize.x as int,
                    b_pos.value.x as int,
                    b_aabb.halfsize.x as int,
                ) as i64,
                y: span_penetration(
                    a_pos.value.y as int,
                    a_aabb.halfsize.y as int,
                    b_pos.value.y as int,
                    b_aabb.halfsize.y as int,
                ) as i64,
            },
        )
    } else {
        None
    }
}

/// Whether two boxes overlap. Touching edges do not count.
pub fn collides(a_aabb: &AABB, a_pos: Position, b_aabb: &AABB, b_pos: Position) -> (r: bool)
    ensures
        r == a_aabb.overlaps(a_pos, *b_aabb, b_pos),
{
    let a_x: i64 = a_pos.value.x as i64;
    let a_y: i64 = a_pos.value.y as i64;
    let b_x: i64 = b_pos.value.x as i64;
    let b_y: i64 = b_pos.value.y as i64;
    (a_x - (a_aabb.halfsize.x as i64)) < (b_x + (b_aabb.halfsize.x as i64))
        && (a_x + (a_aabb.halfsize.x as i64)) > (b_x - (b_aabb.halfsize.x as i64))
        && (a_y + (a_aabb.halfsize.y as i64)) > (b_y - (b_aabb.halfsize.y as i64))
        && (a_y - (a_aabb.halfsize.y as i64)) < (b_y + (b_aabb.halfsize.y as i64))
}

/// Whether the point `b_pos` lies inside the box, edges excluded.
pub fn intersects(a_aabb: &AABB, a_pos: Position, b_pos: Position) -> (r: bool)
    ensures
        r == a_aabb.holds_point(a_pos, b_pos),
{
    let a_x: i64 = a_pos.value.x as i64;
    let a_y: i64 = a_pos.value.y as i64;
    let b_x: i64 = b_pos.value.x as i64;
    let b_y: i64 = b_pos.value.y as i64;
    (a_x - (a_aabb.halfsize.x as i64)) < b_x && (a_x + (a_aabb.halfsize.x as i64)) > b_x && (a_y + (
    a_aabb.halfsize.y as i64)) > b_y && (a_y - (a_aabb.halfsize.y as i64)) < b_y
}

/// Signed overlap of A with B on both axes, or `None` when the boxes do not
/// overlap.
pub fn penetration_depth(
    a_aabb: &AABB,
    a_pos: Position,
    b_aabb: &AABB,
    b_pos: Position,
) -> (r: Option<Penetration>)
    ensures
        r == penetration(*a_aabb, a_pos, *b_aabb, b_pos),
{
    if collides(a_aabb, a_pos, b_aabb, b_pos) {
        let a_x: i64 = a_pos.value.x as i64;
        let a_y: i64 = a_pos.value.y as i64;
        let b_x: i64 = b_pos.value.x as i64;
        let b_y: i64 = b_pos.value.y as i64;
        let x: i64 = if a_x > b_x {
            (b_x + (b_aabb.halfsize.x as i64)) - (a_x - (a_aabb.halfsize.x as i64))
        } else {
            (b_x - (b_aabb.halfsize.x as i64)) - (a_x + (a_aabb.halfsize.x as i64))
        };
        let y: i64 = if a_y > b_y {
            (b_y + (b_aabb.halfsize.y as i64)) - (a_y - (a_aabb.halfsize.y as i64))
        } else {
            (b_y - (b_aabb.halfsize.y as i64)) - (a_y + (a_aabb.halfsize.y as i64))
        };
        return Some(Penetration { x, y });
    }
    None
}

/// Overlap of two boxes does not depend on which one is named first.
pub proof fn lemma_overlap_symmetric(a_aabb: AABB, a_pos: Position, b_aabb: AABB, b_pos: Position)
    ensures
        a_aabb.overlaps(a_pos, b_aabb, b_pos) == b_aabb.overlaps(b_pos, a_aabb, a_pos),
{
}

/// The sign of a penetration tells the side: it is positive exactly when A's
/// centre lies beyond B's, and its size is the length of the shared stretch
/// measured from that side. However the penetration on an axis is split
/// between the two boxes, moving A by its share and B against its share
/// leaves them touching on that axis, no longer overlapping.
pub proof fn lemma_penetration_clears_axis(
    a: int,
    a_half: int,
    b: int,
    b_half: int,
    a_share: int,
    b_share: int,
)
    requires
        a_half >= 0,
        b_half >= 0,
        spans_overlap(a, a_half, b, b_half),
        a_share + b_share == span_penetration(a, a_half, b, b_half),
    ensures
        a > b ==> span_penetration(a, a_half, b, b_half) > 0,
        a <= b ==> span_penetration(a, a_half, b, b_half) < 0,
        !spans_overlap(a + a_share, a_half, b - b_share, b_half),
        a > b ==> (a + a_share) - a_half == (b - b_share) + b_half,
        a <= b ==> (a + a_share) + a_half == (b - b_share) - b_half,
{
}

/// Where two boxes overlap, the penetration is the displacement that takes
/// box A clear of box B on either axis: positive exactly when A's centre
/// lies beyond B's, and such that moving A by a part of it and B against
/// the rest ends the overlap.
pub proof fn lemma_penetration_separates(
    a_aabb: AABB,
    a_pos: Position,
    b_aabb: AABB,
    b_pos: Position,
    a_share: int,
    b_share: int,
)
    requires
        a_aabb.overlaps(a_pos, b_aabb, b_pos),
    ensures
        penetration(a_aabb, a_pos, b_aabb, b_pos) matches Some(p) && {
            &&& (p.x > 0) == (a_pos.value.x > b_pos.value.x)
            &&& (p.y > 0) == (a_pos.value.y > b_pos.value.y)
            &&& p.x != 0
            &&& p.y != 0
            &&& a_share + b_share == p.x ==> !spans_overlap(
                a_pos.value.x + a_share,
                a_aabb.halfsize.x as int,
                b_pos.value.x - b_share,
                b_aabb.halfsize.x as int,
            )
            &&& a_share + b_share == p.y ==> !spans_overlap(
                a_pos.value.y + a_share,
                a_aabb.halfsize.y as int,
                b_pos.value.y - b_share,
                b_aabb.halfsize.y as int,
            )
        },
{
}

/// Force of gravity on a body and the fastest it may fall or rise.
#[derive(Clone, Copy, Debug, PartialEq, Eq)]
pub struct Gravity {
    pub force: i32,
    pub terminal_velocity: i32,
}

impl Gravity {
    pub fn new(force: i32, terminal_velocity: i32) -> (g: Self)
        ensures
            g.force == force,
            g.terminal_velocity == terminal_velocity,
    {
        Gravity { force, terminal_velocity }
    }
}

/// Marks a body that others pass through, slowed to `slowdown` thousandths
/// of their speed.
#[derive(Clone, Copy, Debug, PartialEq, Eq)]
pub struct Translucent {
    pub slowdown: i32,
}

impl Default for Translucent {
    fn default() -> (t: Self)
        ensures
            t.slowdown == 500,
    {
        Translucent { slowdown: 500 }
    }
}

/// The sides on which a body touches something solid in the current tick.
#[derive(Clone, Copy, Debug, PartialEq, Eq)]
pub struct MovingObjectState {
    pub right: bool,
    pub left: bool,
    pub ground: bool,
    pub ceiling: bool,
}

impl MovingObjectState {
    /// No side is in contact.
    pub open spec fn clear() -> Self {
        MovingObjectState { right: false, left: false, ground: false, ceiling: false }
    }
}

impl Default for MovingObjectState {
    fn default() -> (s: Self)
        ensures
            s == MovingObjectState::clear(),
    {
        MovingObjectState { right: false, left: false, ground: false, ceiling: false }
    }
}

/// Physical state of one body: what it is now and what it was one tick ago.
#[derive(Clone, Copy, Debug, PartialEq, Eq)]
pub struct MovingObject {
    pub mass: u32,
    pub velocity_factor: i32,
    pub position: Position,
    pub velocity: Velocity,
    pub state: MovingObjectState,
    pub old_position: Position,
    pub old_velocity: Velocity,
    pub old_state: MovingObjectState,
}

impl MovingObject {
    /// A massless body at rest at the origin, moving at full speed factor.
    pub open spec fn at_rest() -> Self {
        MovingObject {
            mass: 0,
            velocity_factor: 1000,
            position: Position { value: Vec2 { x: 0, y: 0 } },
            velocity: Velocity { value: Vec2 { x: 0, y: 0 } },
            state: MovingObjectState::clear(),
            old_position: Position { value: Vec2 { x: 0, y: 0 } },
            old_velocity: Velocity { value: Vec2 { x: 0, y: 0 } },
            old_state: MovingObjectState::clear(),
        }
    }
}

impl Default for MovingObject {
    fn default() -> (m: Self)
        ensures
            m == MovingObject::at_rest(),
    {
        MovingObject {
            mass: 0,
            velocity_factor: 1000,
            position: Position { value: Vec2 { x: 0, y: 0 } },
            velocity: Velocity { value: Vec2 { x: 0, y: 0 } },
            state: MovingObjectState { right: false, left: false, ground: false, ceiling: false },
            old_position: Position { value: Vec2 { x: 0, y: 0 } },
            old_velocity: Velocity { value: Vec2 { x: 0, y: 0 } },
            old_state: MovingObjectState {
                right: false,
                left: false,
                ground: false,
                ceiling: false,
            },
        }
    }
}

/// The body one integration step later: the present state becomes the
/// previous one and the position moves along the velocity for `delta`
/// thousandths of a second, the velocity weighted by the body's factor.
pub open spec fn integrated(m: MovingObject, delta: i32) -> MovingObject {
    MovingObject {
        position: Position {
            value: added(
                m.position.value,
                scaled_twice(m.velocity.value.x as int, delta as int, m.velocity_factor as int),
                scaled_twice(m.velocity.value.y as int, delta as int, m.velocity_factor as int),
            ),
        },
        old_position: m.position,
        old_velocity: m.velocity,
        old_state: m.state,
        ..m
    }
}

/// Integrates one body over `delta` thousandths of a second, after saving
/// its present state as the previous one.
pub fn update_physics(moving_object: &mut MovingObject, delta: i32)
    ensures
        *final(moving_object) == integrated(*old(moving_object), delta),
{
    moving_object.old_position = moving_object.position;
    moving_object.old_velocity = moving_object.velocity;
    moving_object.old_state = moving_object.state;
    let dx = scale_twice(
        moving_object.velocity.value.x as i64,
        delta,
        moving_object.velocity_factor,
    );
    let dy = scale_twice(
        moving_object.velocity.value.y as i64,
        delta,
        moving_object.velocity_factor,
    );
    accumulate(&mut moving_object.position.value, dx, dy);
}

/// Moves a position along a velocity for `delta` thousandths of a second.
pub fn apply_velocity(position: &mut Position, velocity: &Velocity, delta: i32)
    ensures
        final(position).value == added(
            old(position).value,
            scaled(velocity.value.x as int, delta as int),
            scaled(velocity.value.y as int, delta as int),
        ),
{
    let dx = scale(velocity.value.x as i64, delta);
    let dy = scale(velocity.value.y as i64, delta);
    accumulate(&mut position.value, dx, dy);
}

/// A contact on the vertical axis began in this tick.
pub open spec fn landed(m: MovingObject) -> bool {
    (m.state.ground && !m.old_state.ground) || (m.state.ceiling && !m.old_state.ceiling)
}

/// A contact on the horizontal axis began in this tick.
pub open spec fn bumped(m: MovingObject) -> bool {
    (m.state.left && !m.old_state.left) || (m.state.right && !m.old_state.right)
}

/// The body with the velocity component of each freshly made contact set to
/// zero.
pub open spec fn stopped(m: MovingObject) -> MovingObject {
    MovingObject {
        velocity: Velocity {
            value: Vec2 {
                x: if bumped(m) {
                    0
                } else {
                    m.velocity.value.x
                },
                y: if landed(m) {
                    0
                } else {
                    m.velocity.value.y
                },
            },
        },
        ..m
    }
}

/// Stops the body along each axis on which a contact is new in this tick.
pub fn stop_movement(moving_object: &mut MovingObject)
    ensures
        *final(moving_object) == stopped(*old(moving_object)),
{
    if (moving_object.state.ceiling && !moving_object.old_state.ceiling) || (
    moving_object.state.ground && !moving_object.old_state.ground) {
        moving_object.velocity.value.y = 0;
    }
    if (moving_object.state.left && !moving_object.old_state.left) || (moving_object.state.right
        && !moving_object.old_state.right) {
        moving_object.velocity.value.x = 0;
    }
}

/// Vertical speed after gravity acted for one tick: zero on the ground, held
/// at the terminal speed once beyond it, else reduced by the force.
pub open spec fn fallen(grounded: bool, vy: int, force: int, terminal: int) -> int {
    if grounded {
        0
    } else if vy > terminal {
        saturate(terminal)
    } else if vy < -terminal {
        saturate(-terminal)
    } else {
        saturate(vy - force)
    }
}

/// Applies gravity to the vertical velocity of one body.
pub fn apply_gravity(moving_object: &mut MovingObject, gravity: &Gravity)
    ensures
        *final(moving_object) == (MovingObject {
            velocity: Velocity {
                value: Vec2 {
                    x: old(moving_object).velocity.value.x,
                    y: fallen(
                        old(moving_object).state.ground,
                        old(moving_object).velocity.value.y as int,
                        gravity.force as int,
                        gravity.terminal_velocity as int,
                    ) as i32,
                },
            },
            ..*old(moving_object)
        }),
{
    let vy: i128 = moving_object.velocity.value.y as i128;
    let terminal: i128 = gravity.terminal_velocity as i128;
    if moving_object.state.ground {
        moving_object.velocity.value.y = 0;
    } else if vy > terminal {
        moving_object.velocity.value.y = gravity.terminal_velocity;
    } else if vy < -terminal {
        moving_object.velocity.value.y = saturate_to_i32(-terminal);
    } else {
        moving_object.velocity.value.y = saturate_to_i32(vy - gravity.force as i128);
    }
}

} // verus!

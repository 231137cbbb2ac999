//! Oriented boxes and the separating-axis test.

use vstd::prelude::*;
use crate::math::{abs_wide, dot, dot_wide, magnitude, Extent, Vec2, WideVec2, SCALE};
use crate::physics::Position;

verus! {

/// Orientation of a box: the directions of its own two axes in the world,
/// as unit vectors in fixed point.
#[derive(Clone, Copy, Debug, PartialEq, Eq)]
pub struct Rotation {
    pub x_axis: Vec2,
    pub y_axis: Vec2,
}

impl Rotation {
    pub fn new(x_axis: Vec2, y_axis: Vec2) -> (r: Self)
        ensures
            r.x_axis == x_axis,
            r.y_axis == y_axis,
    {
        Rotation { x_axis, y_axis }
    }

    /// The orientation of a box that is not turned.
    pub open spec fn upright() -> Self {
        Rotation { x_axis: Vec2 { x: 1000, y: 0 }, y_axis: Vec2 { x: 0, y: 1000 } }
    }

    /// The two axes of the box, the local x axis first.
    pub fn compute_axes(&self) -> (axes: [Vec2; 2])
        ensures
            axes[0] == self.x_axis,
            axes[1] == self.y_axis,
    {
        [self.x_axis, self.y_axis]
    }
}

impl Default for Rotation {
    fn default() -> (r: Self)
        ensures
            r == Rotation::upright(),
    {
        Rotation { x_axis: Vec2 { x: 1000, y: 0 }, y_axis: Vec2 { x: 0, y: 1000 } }
    }
}

/// An oriented box, given by its half-extents along its own axes. Centre and
/// orientation are supplied separately.
#[derive(Clone, Copy, Debug, PartialEq, Eq)]
pub struct Obb {
    pub half_extents: Extent,
}

/// From the first centre to the second.
pub open spec fn offset(from: Position, to: Position) -> WideVec2 {
    WideVec2 { x: (to.value.x - from.value.x) as i64, y: (to.value.y - from.value.y) as i64 }
}

impl Obb {
    pub fn new(half_extents: Extent) -> (b: Self)
        ensures
            b.half_extents == half_extents,
    {
        Obb { half_extents }
    }

    /// How far the box reaches from its centre along `axis`, in units of the
    /// length of `axis` times the length of the box's own axes.
    pub open spec fn reach(self, rotation: Rotation, axis: Vec2) -> int {
        self.half_extents.x * magnitude(
            dot(rotation.x_axis.x as int, rotation.x_axis.y as int, axis.x as int, axis.y as int),
        ) + self.half_extents.y * magnitude(
            dot(rotation.y_axis.x as int, rotation.y_axis.y as int, axis.x as int, axis.y as int),
        )
    }

    /// Seen along `axis`, the two boxes are not apart: the distance of the
    /// centres is no more than the two reaches together.
    pub open spec fn meets_along(
        self,
        rotation: Rotation,
        other: Obb,
        other_rotation: Rotation,
        center_delta: WideVec2,
        axis: Vec2,
    ) -> bool {
        magnitude(dot(center_delta.x as int, center_delta.y as int, axis.x as int, axis.y as int))
            * SCALE <= self.reach(rotation, axis) + other.reach(other_rotation, axis)
    }

    /// The two boxes share a point: none of the four axes of the two boxes
    /// separates them.
    pub open spec fn overlaps(
        self,
        center: Position,
        rotation: Rotation,
        other: Obb,
        other_center: Position,
        other_rotation: Rotation,
    ) -> bool {
        let delta = offset(center, other_center);
        &&& self.meets_along(rotation, other, other_rotation, delta, rotation.x_axis)
        &&& self.meets_along(rotation, other, other_rotation, delta, rotation.y_axis)
        &&& self.meets_along(rotation, other, other_rotation, delta, other_rotation.x_axis)
        &&& self.meets_along(rotation, other, other_rotation, delta, other_rotation.y_axis)
    }

    /// The point lies in the box, edges included.
    pub open spec fn holds(self, center: Position, rotation: Rotation, point: Position) -> bool {
        let delta = offset(center, point);
        &&& magnitude(
            dot(
                delta.x as int,
                delta.y as int,
                rotation.x_axis.x as int,
                rotation.x_axis.y as int,
            ),
        ) <= self.half_extents.x * SCALE
        &&& magnitude(
            dot(
                delta.x as int,
                delta.y as int,
                rotation.y_axis.x as int,
                rotation.y_axis.y as int,
            ),
        ) <= self.half_extents.y * SCALE
    }

    fn reach_along(&self, rotation: &Rotation, axis: Vec2) -> (r: i128)
        ensures
            r as int == self.reach(*rotation, axis),
            0 <= r <= 0x1_0000_0000_0000_0000_0000_0000,
    {
        let along_x: i128 = abs_wide(
            dot_wide(rotation.x_axis.x as i64, rotation.x_axis.y as i64, axis.x, axis.y),
        );
        let along_y: i128 = abs_wide(
            dot_wide(rotation.y_axis.x as i64, rotation.y_axis.y as i64, axis.x, axis.y),
        );
        let hx: i128 = self.half_extents.x as i128;
        let hy: i128 = self.half_extents.y as i128;
        proof {
            lemma_axis_dot_bound(rotation.x_axis, axis);
            lemma_axis_dot_bound(rotation.y_axis, axis);
        }
        assert(0 <= hx * along_x <= 0x8000_0000_0000_0000_0000_0000) by (nonlinear_arith)
            requires
                0 <= hx <= 0xffff_ffff,
                0 <= along_x <= 0x8000_0000_0000_0000,
        ;
        assert(0 <= hy * along_y <= 0x8000_0000_0000_0000_0000_0000) by (nonlinear_arith)
            requires
                0 <= hy <= 0xffff_ffff,
                0 <= along_y <= 0x8000_0000_0000_0000,
        ;
        hx * along_x + hy * along_y
    }

    /// Whether the two boxes are not apart when seen along `axis`.
    fn overlap_on_axis(
        &self,
        rotation: &Rotation,
        axis: Vec2,
        center_delta: WideVec2,
        other_obb: &Self,
        other_rotation: &Rotation,
    ) -> (r: bool)
        requires
            -0x1_0000_0000 <= center_delta.x <= 0x1_0000_0000,
            -0x1_0000_0000 <= center_delta.y <= 0x1_0000_0000,
        ensures
            r == self.meets_along(*rotation, *other_obb, *other_rotation, center_delta, axis),
    {
        let center_projection: i128 = abs_wide(
            dot_wide(center_delta.x, center_delta.y, axis.x, axis.y),
        );
        let a_projection: i128 = self.reach_along(rotation, axis);
        let b_projection: i128 = other_obb.reach_along(other_rotation, axis);
        let scale: i128 = SCALE as i128;
        assert(scale == 1000);
        center_projection * scale <= a_projection + b_projection
    }

    /// Whether two oriented boxes share a point. Boxes that only touch do.
    pub fn collides(
        &self,
        self_center: Position,
        self_rotation: &Rotation,
        other_obb: &Self,
        other_center: Position,
        other_rotation: &Rotation,
    ) -> (r: bool)
        ensures
            r == self.overlaps(
                self_center,
                *self_rotation,
                *other_obb,
                other_center,
                *other_rotation,
            ),
    {
        let own = self_rotation.compute_axes();
        let theirs = other_rotation.compute_axes();
        let center_delta = WideVec2::new(
            other_center.value.x as i64 - self_center.value.x as i64,
            other_center.value.y as i64 - self_center.value.y as i64,
        );
        self.overlap_on_axis(self_rotation, own[0], center_delta, other_obb, other_rotation)
            && self.overlap_on_axis(self_rotation, own[1], center_delta, other_obb, other_rotation)
            && self.overlap_on_axis(
            self_rotation,
            theirs[0],
            center_delta,
            other_obb,
            other_rotation,
        ) && self.overlap_on_axis(
            self_rotation,
            theirs[1],
            center_delta,
            other_obb,
            other_rotation,
        )
    }

    /// Whether the point lies in the box, edges included.
    pub fn collides_point(
        &self,
        self_center: Position,
        self_rotation: &Rotation,
        point: Position,
    ) -> (r: bool)
        ensures
            r == self.holds(self_center, *self_rotation, point),
    {
        let local_axes = self_rotation.compute_axes();
        let dx: i64 = point.value.x as i64 - self_center.value.x as i64;
        let dy: i64 = point.value.y as i64 - self_center.value.y as i64;
        let local_x: i128 = abs_wide(dot_wide(dx, dy, local_axes[0].x, local_axes[0].y));
        let local_y: i128 = abs_wide(dot_wide(dx, dy, local_axes[1].x, local_axes[1].y));
        let scale: i128 = SCALE as i128;
        assert(scale == 1000);
        let reach_x: i128 = (self.half_extents.x as i128) * scale;
        let reach_y: i128 = (self.half_extents.y as i128) * scale;
        local_x <= reach_x && local_y <= reach_y
    }
}

/// The scalar product of two fixed-point vectors fits in 64 bits.
proof fn lemma_axis_dot_bound(a: Vec2, b: Vec2)
    ensures
        -0x8000_0000_0000_0000 <= dot(a.x as int, a.y as int, b.x as int, b.y as int)
            <= 0x8000_0000_0000_0000,
{
    let ax = a.x as int;
    let ay = a.y as int;
    let bx = b.x as int;
    let by = b.y as int;
    assert(-0x4000_0000_0000_0000 <= ax * bx <= 0x4000_0000_0000_0000) by (nonlinear_arith)
        requires
            -0x8000_0000 <= ax <= 0x7fff_ffff,
            -0x8000_0000 <= bx <= 0x7fff_ffff,
    ;
    assert(-0x4000_0000_0000_0000 <= ay * by <= 0x4000_0000_0000_0000) by (nonlinear_arith)
        requires
            -0x8000_0000 <= ay <= 0x7fff_ffff,
            -0x8000_0000 <= by <= 0x7fff_ffff,
    ;
}

/// Seen along any axis, it does not matter which of two boxes is named
/// first.
pub proof fn lemma_meets_along_symmetric(
    a: Obb,
    a_rotation: Rotation,
    b: Obb,
    b_rotation: Rotation,
    delta: WideVec2,
    back: WideVec2,
    axis: Vec2,
)
    requires
        back.x == -delta.x,
        back.y == -delta.y,
    ensures
        a.meets_along(a_rotation, b, b_rotation, delta, axis) == b.meets_along(
            b_rotation,
            a,
            a_rotation,
            back,
            axis,
        ),
{
    let dx = delta.x as int;
    let dy = delta.y as int;
    let ux = axis.x as int;
    let uy = axis.y as int;
    assert(dot(-dx, -dy, ux, uy) == -dot(dx, dy, ux, uy)) by (nonlinear_arith);
}

/// Whether two oriented boxes collide does not depend on which one is named
/// first.
pub proof fn lemma_obb_overlap_symmetric(
    a: Obb,
    a_center: Position,
    a_rotation: Rotation,
    b: Obb,
    b_center: Position,
    b_rotation: Rotation,
)
    ensures
        a.overlaps(a_center, a_rotation, b, b_center, b_rotation) == b.overlaps(
            b_center,
            b_rotation,
            a,
            a_center,
            a_rotation,
        ),
{
    let delta = offset(a_center, b_center);
    let back = offset(b_center, a_center);
    lemma_meets_along_symmetric(a, a_rotation, b, b_rotation, delta, back, a_rotation.x_axis);
    lemma_meets_along_symmetric(a, a_rotation, b, b_rotation, delta, back, a_rotation.y_axis);
    lemma_meets_along_symmetric(a, a_rotation, b, b_rotation, delta, back, b_rotation.x_axis);
    lemma_meets_along_symmetric(a, a_rotation, b, b_rotation, delta, back, b_rotation.y_axis);
}

} // verus!

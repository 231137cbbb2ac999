//! Fixed-point scalars and vectors.
//!
//! Lengths, speeds and factors are `i32` values counted in thousandths
//! ([`SCALE`]). Intermediate results are computed exactly in wider integers
//! and saturate when they are stored back.

use vstd::prelude::*;

verus! {

/// Number of fixed-point steps in one world unit.
pub const SCALE: i64 = 1000;

/// `SCALE * SCALE`: what a product of two fixed-point numbers is divided by.
pub const SCALE_SQUARED: i64 = 1_000_000;

/// The length of a vector is taken at this many finer steps to the step
/// before another vector is scaled by it.
pub const ROOT_SCALE: u64 = 0x1_0000_0000;

/// A point or displacement in fixed-point world coordinates.
#[derive(Clone, Copy, Debug, PartialEq, Eq)]
pub struct Vec2 {
    pub x: i32,
    pub y: i32,
}

impl Vec2 {
    pub fn new(x: i32, y: i32) -> (v: Self)
        ensures
            v == (Vec2 { x, y }),
    {
        Vec2 { x, y }
    }

    /// The origin.
    pub fn zero() -> (v: Self)
        ensures
            v == (Vec2 { x: 0, y: 0 }),
    {
        Vec2 { x: 0, y: 0 }
    }

    /// Both components set to `v`.
    pub fn splat(v: i32) -> (r: Self)
        ensures
            r == (Vec2 { x: v, y: v }),
    {
        Vec2 { x: v, y: v }
    }

    /// Squared Euclidean length.
    pub open spec fn norm_squared(self) -> nat {
        (self.x * self.x + self.y * self.y) as nat
    }

    /// Squared Euclidean length, counted in finer steps: the square of
    /// [`ROOT_SCALE`] to the step.
    pub open spec fn fine_norm_squared(self) -> nat {
        self.norm_squared() * 0x1_0000_0000_0000_0000
    }

    /// Squared Euclidean length.
    pub fn length_squared(self) -> (r: u64)
        ensures
            r as nat == self.norm_squared(),
            r <= 0x8000_0000_0000_0000,
    {
        let x: i64 = self.x as i64;
        let y: i64 = self.y as i64;
        assert(0 <= x * x <= 0x4000_0000_0000_0000) by (nonlinear_arith)
            requires
                -0x8000_0000 <= x <= 0x7fff_ffff,
        ;
        assert(0 <= y * y <= 0x4000_0000_0000_0000) by (nonlinear_arith)
            requires
                -0x8000_0000 <= y <= 0x7fff_ffff,
        ;
        (x * x) as u64 + (y * y) as u64
    }
}

/// A difference or a sum of vectors, too wide for [`Vec2`].
#[derive(Clone, Copy, Debug, PartialEq, Eq)]
pub struct WideVec2 {
    pub x: i64,
    pub y: i64,
}

impl WideVec2 {
    pub fn new(x: i64, y: i64) -> (v: Self)
        ensures
            v == (WideVec2 { x, y }),
    {
        WideVec2 { x, y }
    }
}

/// The half-width and half-height of a box: never negative.
#[derive(Clone, Copy, Debug, PartialEq, Eq)]
pub struct Extent {
    pub x: u32,
    pub y: u32,
}

impl Extent {
    pub fn new(x: u32, y: u32) -> (e: Self)
        ensures
            e == (Extent { x, y }),
    {
        Extent { x, y }
    }

    /// Both components set to `v`.
    pub fn splat(v: u32) -> (e: Self)
        ensures
            e == (Extent { x: v, y: v }),
    {
        Extent { x: v, y: v }
    }
}

/// `v` confined to the range of `i32`.
pub open spec fn saturate(v: int) -> int {
    if v < i32::MIN as int {
        i32::MIN as int
    } else if v > i32::MAX as int {
        i32::MAX as int
    } else {
        v
    }
}

/// Size of a number.
pub open spec fn magnitude(v: int) -> int {
    if v < 0 {
        -v
    } else {
        v
    }
}

/// `v` confined to the range of `i64`.
pub open spec fn saturate_wide(v: int) -> int {
    if v < i64::MIN as int {
        i64::MIN as int
    } else if v > i64::MAX as int {
        i64::MAX as int
    } else {
        v
    }
}

/// Scalar product of `(ax, ay)` and `(bx, by)`.
pub open spec fn dot(ax: int, ay: int, bx: int, by: int) -> int {
    ax * bx + ay * by
}

/// Quotient of `a` by a positive `b`, rounded toward zero.
pub open spec fn trunc_div(a: int, b: int) -> int
    recommends
        b > 0,
{
    if a >= 0 {
        a / b
    } else {
        -((-a) / b)
    }
}

/// Quotient of `a` by a positive `b`, rounded away from zero.
pub open spec fn away_div(a: int, b: int) -> int
    recommends
        b > 0,
{
    if a >= 0 {
        (a + b - 1) / b
    } else {
        -((-a + b - 1) / b)
    }
}

/// Largest `r` with `r * r <= n`.
pub open spec fn sqrt_floor(n: nat) -> nat
    decreases n,
{
    if n == 0 {
        0
    } else {
        let r = sqrt_floor((n - 1) as nat);
        if (r + 1) * (r + 1) <= n {
            r + 1
        } else {
            r
        }
    }
}

/// Smallest `r` with `n <= r * r`.
pub open spec fn sqrt_ceil(n: nat) -> nat {
    let r = sqrt_floor(n);
    if r * r == n {
        r
    } else {
        r + 1
    }
}

/// `sqrt_floor(n)` brackets `n` between two consecutive squares.
pub proof fn lemma_sqrt_floor_bounds(n: nat)
    ensures
        sqrt_floor(n) * sqrt_floor(n) <= n < (sqrt_floor(n) + 1) * (sqrt_floor(n) + 1),
    decreases n,
{
    let s = sqrt_floor(n);
    if n > 0 {
        lemma_sqrt_floor_bounds((n - 1) as nat);
        let r = sqrt_floor((n - 1) as nat);
        if (r + 1) * (r + 1) <= n {
            assert(s * s <= n && n < (s + 1) * (s + 1)) by (nonlinear_arith)
                requires
                    s == r + 1,
                    (r + 1) * (r + 1) <= n,
                    n - 1 < (r + 1) * (r + 1),
            ;
        } else {
            assert(s * s <= n && n < (s + 1) * (s + 1)) by (nonlinear_arith)
                requires
                    s == r,
                    r * r <= n - 1,
                    n < (r + 1) * (r + 1),
            ;
        }
    } else {
        assert(s * s <= n && n < (s + 1) * (s + 1)) by (nonlinear_arith)
            requires
                s == 0,
                n == 0,
        ;
    }
}

/// Only one number brackets `n` between its square and the next square.
pub proof fn lemma_sqrt_floor_unique(n: nat, r: nat)
    requires
        r * r <= n < (r + 1) * (r + 1),
    ensures
        r == sqrt_floor(n),
{
    lemma_sqrt_floor_bounds(n);
    let s = sqrt_floor(n);
    assert(r <= s) by (nonlinear_arith)
        requires
            r * r <= n,
            n < (s + 1) * (s + 1),
    ;
    assert(s <= r) by (nonlinear_arith)
        requires
            s * s <= n,
            n < (r + 1) * (r + 1),
    ;
}

/// `sqrt_ceil(n)` is the least number whose square reaches `n`.
pub proof fn lemma_sqrt_ceil_bounds(n: nat)
    ensures
        n <= sqrt_ceil(n) * sqrt_ceil(n),
        n > 0 ==> sqrt_ceil(n) >= 1 && (sqrt_ceil(n) - 1) * (sqrt_ceil(n) - 1) < n,
{
    lemma_sqrt_floor_bounds(n);
    let r = sqrt_floor(n);
    if n > 0 && r * r == n {
        assert(r >= 1) by (nonlinear_arith)
            requires
                r * r == n,
                n > 0,
        ;
        assert((r - 1) * (r - 1) < r * r) by (nonlinear_arith)
            requires
                r >= 1,
        ;
    }
}

/// Confines a wide intermediate result to `i32`.
pub fn saturate_to_i32(v: i128) -> (r: i32)
    ensures
        r as int == saturate(v as int),
{
    if v < i32::MIN as i128 {
        i32::MIN
    } else if v > i32::MAX as i128 {
        i32::MAX
    } else {
        v as i32
    }
}

/// Confines a wide intermediate result to `i64`.
pub fn saturate_to_i64(v: i128) -> (r: i64)
    ensures
        r as int == saturate_wide(v as int),
{
    if v < i64::MIN as i128 {
        i64::MIN
    } else if v > i64::MAX as i128 {
        i64::MAX
    } else {
        v as i64
    }
}

/// Size of a number.
pub(crate) fn abs_wide(v: i128) -> (r: i128)
    requires
        v > i128::MIN,
    ensures
        r as int == magnitude(v as int),
{
    if v < 0 {
        -v
    } else {
        v
    }
}

/// Scalar product of a difference of positions with a vector.
pub(crate) fn dot_wide(ax: i64, ay: i64, bx: i32, by: i32) -> (r: i128)
    requires
        -0x1_0000_0000 <= ax <= 0x1_0000_0000,
        -0x1_0000_0000 <= ay <= 0x1_0000_0000,
    ensures
        r as int == dot(ax as int, ay as int, bx as int, by as int),
        -0x1_0000_0000_0000_0000 <= r <= 0x1_0000_0000_0000_0000,
{
    let x: i128 = ax as i128;
    let y: i128 = ay as i128;
    let u: i128 = bx as i128;
    let v: i128 = by as i128;
    assert(-0x8000_0000_0000_0000 <= x * u <= 0x8000_0000_0000_0000) by (nonlinear_arith)
        requires
            -0x1_0000_0000 <= x <= 0x1_0000_0000,
            -0x8000_0000 <= u <= 0x8000_0000,
    ;
    assert(-0x8000_0000_0000_0000 <= y * v <= 0x8000_0000_0000_0000) by (nonlinear_arith)
        requires
            -0x1_0000_0000 <= y <= 0x1_0000_0000,
            -0x8000_0000 <= v <= 0x8000_0000,
    ;
    x * u + y * v
}

/// Divides rounding toward zero.
pub(crate) fn div_toward_zero(a: i128, b: i128) -> (r: i128)
    requires
        b > 0,
    ensures
        r as int == trunc_div(a as int, b as int),
{
    a / b
}

/// Divides rounding away from zero.
pub(crate) fn div_away_from_zero(a: i128, b: i128) -> (r: i128)
    requires
        b > 0,
        -0x4000_0000_0000_0000_0000_0000_0000_0000 < a < 0x4000_0000_0000_0000_0000_0000_0000_0000,
        b < 0x4000_0000_0000_0000_0000_0000_0000_0000,
    ensures
        r as int == away_div(a as int, b as int),
{
    if a >= 0 {
        (a + b - 1) / b
    } else {
        -((-a + b - 1) / b)
    }
}

/// Integer square root, rounded down.
pub fn isqrt_wide(n: u128) -> (r: u128)
    ensures
        r as nat == sqrt_floor(n as nat),
        r <= 0xffff_ffff_ffff_ffff,
{
    let mut lo: u128 = 0;
    let mut hi: u128 = 0x1_0000_0000_0000_0000;
    assert(0x1_0000_0000_0000_0000int * 0x1_0000_0000_0000_0000int > n) by (nonlinear_arith)
        requires
            n <= u128::MAX,
    ;
    while hi - lo > 1
        invariant
            lo < hi <= 0x1_0000_0000_0000_0000,
            lo * lo <= n,
            n < hi * hi,
        decreases hi - lo,
    {
        let mid: u128 = lo + (hi - lo) / 2;
        assert(mid * mid < 0x1_0000_0000_0000_0000_0000_0000_0000_0000) by (nonlinear_arith)
            requires
                mid < 0x1_0000_0000_0000_0000,
        ;
        if mid * mid <= n {
            lo = mid;
        } else {
            hi = mid;
        }
    }
    proof {
        assert(hi == lo + 1);
        lemma_sqrt_floor_unique(n as nat, lo as nat);
    }
    lo
}

/// Integer square root, rounded up.
pub fn isqrt_wide_ceil(n: u128) -> (r: u128)
    ensures
        r as nat == sqrt_ceil(n as nat),
        r <= 0x1_0000_0000_0000_0000,
{
    let r = isqrt_wide(n);
    assert(r * r <= n) by {
        lemma_sqrt_floor_bounds(n as nat);
    }
    if r * r == n {
        r
    } else {
        r + 1
    }
}

/// `v` with `(dx, dy)` added, each component saturating.
pub open spec fn added(v: Vec2, dx: int, dy: int) -> Vec2 {
    Vec2 { x: saturate(v.x + dx) as i32, y: saturate(v.y + dy) as i32 }
}

/// Adds a wide displacement to a vector, saturating.
pub(crate) fn accumulate(v: &mut Vec2, dx: i128, dy: i128)
    requires
        -0x1000_0000_0000_0000_0000_0000_0000_0000 <= dx <= 0x1000_0000_0000_0000_0000_0000_0000_0000,
        -0x1000_0000_0000_0000_0000_0000_0000_0000 <= dy <= 0x1000_0000_0000_0000_0000_0000_0000_0000,
    ensures
        *final(v) == added(*old(v), dx as int, dy as int),
{
    v.x = saturate_to_i32(v.x as i128 + dx);
    v.y = saturate_to_i32(v.y as i128 + dy);
}

/// Product of two fixed-point numbers.
pub open spec fn scaled(a: int, factor: int) -> int {
    trunc_div(a * factor, SCALE as int)
}

/// Product of three fixed-point numbers.
pub open spec fn scaled_twice(a: int, f: int, g: int) -> int {
    trunc_div(a * f * g, SCALE_SQUARED as int)
}

/// Product of two fixed-point numbers.
pub(crate) fn scale(a: i64, factor: i32) -> (r: i128)
    requires
        -0x2_0000_0000 <= a <= 0x2_0000_0000,
    ensures
        r as int == scaled(a as int, factor as int),
        -0x1_0000_0000_0000_0000 <= r <= 0x1_0000_0000_0000_0000,
{
    let x: i128 = a as i128;
    let f: i128 = factor as i128;
    assert(-0x1_0000_0000_0000_0000 <= x * f <= 0x1_0000_0000_0000_0000) by (nonlinear_arith)
        requires
            -0x2_0000_0000 <= x <= 0x2_0000_0000,
            -0x8000_0000 <= f <= 0x8000_0000,
    ;
    let scale: i128 = SCALE as i128;
    assert(scale == 1000);
    div_toward_zero(x * f, scale)
}

/// Product of three fixed-point numbers.
pub(crate) fn scale_twice(a: i64, f: i32, g: i32) -> (r: i128)
    requires
        -0x2_0000_0000 <= a <= 0x2_0000_0000,
    ensures
        r as int == scaled_twice(a as int, f as int, g as int),
        -0x8000_0000_0000_0000_0000_0000 <= r <= 0x8000_0000_0000_0000_0000_0000,
{
    let x: i128 = a as i128;
    let u: i128 = f as i128;
    let v: i128 = g as i128;
    assert(-0x1_0000_0000_0000_0000 <= x * u <= 0x1_0000_0000_0000_0000) by (nonlinear_arith)
        requires
            -0x2_0000_0000 <= x <= 0x2_0000_0000,
            -0x8000_0000 <= u <= 0x8000_0000,
    ;
    let xu: i128 = x * u;
    assert(-0x8000_0000_0000_0000_0000_0000 <= xu * v <= 0x8000_0000_0000_0000_0000_0000)
        by (nonlinear_arith)
        requires
            -0x1_0000_0000_0000_0000 <= xu <= 0x1_0000_0000_0000_0000,
            -0x8000_0000 <= v <= 0x8000_0000,
    ;
    let square: i128 = SCALE_SQUARED as i128;
    assert(square == 1_000_000);
    div_toward_zero(xu * v, square)
}

/// The square of a fixed-point number.
pub(crate) fn square(v: i32) -> (r: i128)
    ensures
        r as int == v * v,
        0 <= r <= 0x4000_0000_0000_0000,
{
    let x: i128 = v as i128;
    assert(0 <= x * x <= 0x4000_0000_0000_0000) by (nonlinear_arith)
        requires
            -0x8000_0000 <= x <= 0x7fff_ffff,
    ;
    x * x
}

/// A quotient rounded toward zero is no larger than what was divided.
pub proof fn lemma_trunc_div_bounded(a: int, b: int)
    requires
        b > 0,
    ensures
        magnitude(trunc_div(a, b)) <= magnitude(a),
        a >= 0 ==> trunc_div(a, b) >= 0,
        a <= 0 ==> trunc_div(a, b) <= 0,
{
    if a >= 0 {
        vstd::arithmetic::div_mod::lemma_div_pos_is_pos(a, b);
        vstd::arithmetic::div_mod::lemma_div_is_ordered_by_denominator(a, 1, b);
        vstd::arithmetic::div_mod::lemma_div_basics(a);
    } else {
        vstd::arithmetic::div_mod::lemma_div_pos_is_pos(-a, b);
        vstd::arithmetic::div_mod::lemma_div_is_ordered_by_denominator(-a, 1, b);
        vstd::arithmetic::div_mod::lemma_div_basics(-a);
    }
}

} // verus!

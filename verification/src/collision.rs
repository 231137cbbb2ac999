//! Broad-phase candidate search and mass-weighted resolution of overlapping
//! bodies.

use vstd::prelude::*;
use crate::math::{magnitude, saturate, saturate_to_i32, trunc_div, Vec2};
use crate::physics::{
    lemma_penetration_clears_axis, penetration, penetration_depth, MovingObject,
    MovingObjectState, Position, Translucent, AABB,
};
use crate::quadtree::{build_quadtree, touches, Entry, Quadtree, QuadtreeModel};
use crate::quadtree_laws::{lemma_indexed_when_inside, lemma_query_complete};

verus! {

/// Size of a leaf of the collision index before it splits.
pub const COLLISION_TREE_CAPACITY: usize = 2;

/// Deepest level of the collision index.
pub const COLLISION_TREE_DEPTH: u8 = 100;

/// One body of the world: its box, its motion, and whether others pass
/// through it.
#[derive(Clone, Copy, Debug, PartialEq, Eq)]
pub struct Body {
    pub aabb: AABB,
    pub moving_object: MovingObject,
    pub translucent: Option<Translucent>,
}

/// `s` with `x` put in before the first greater element, counted from the
/// end, unless `x` is met on the way.
pub open spec fn insert_sorted(s: Seq<u64>, x: u64) -> Seq<u64>
    decreases s.len(),
{
    if s.len() == 0 {
        seq![x]
    } else if s.last() < x {
        s.push(x)
    } else if s.last() == x {
        s
    } else {
        insert_sorted(s.drop_last(), x).push(s.last())
    }
}

/// The first `n` elements of `s` in ascending order, each once.
pub open spec fn sorted_unique(s: Seq<u64>, n: nat) -> Seq<u64>
    decreases n,
{
    if n == 0 || n > s.len() {
        Seq::empty()
    } else {
        insert_sorted(sorted_unique(s, (n - 1) as nat), s[n - 1])
    }
}

/// Each element is less than the next.
pub open spec fn ascending(s: Seq<u64>) -> bool {
    forall|i: int, j: int| 0 <= i < j < s.len() ==> s[i] < s[j]
}

/// Inserting into an ascending run keeps it ascending and adds exactly the
/// new element.
pub proof fn lemma_insert_sorted(s: Seq<u64>, x: u64)
    requires
        ascending(s),
    ensures
        ascending(insert_sorted(s, x)),
        forall|y: u64| #[trigger] insert_sorted(s, x).contains(y) <==> (y == x || s.contains(y)),
    decreases s.len(),
{
    let r = insert_sorted(s, x);
    if s.len() == 0 {
        assert(r[0] == x);
    } else if s.last() < x {
        assert(r[s.len() as int] == x);
        assert forall|y: u64| #[trigger] r.contains(y) <==> (y == x || s.contains(y)) by {
            if s.contains(y) {
                let i = choose|i: int| 0 <= i < s.len() && s[i] == y;
                assert(r[i] == y);
            }
            if r.contains(y) {
                let i = choose|i: int| 0 <= i < r.len() && r[i] == y;
                if i < s.len() {
                    assert(s[i] == y);
                }
            }
        }
    } else if s.last() == x {
        assert(s[s.len() - 1] == x);
    } else {
        let t = s.drop_last();
        let u = insert_sorted(t, x);
        let m = s.last();
        lemma_insert_sorted(t, x);
        assert(r == u.push(m));
        assert forall|y: u64| u.contains(y) implies y < m by {
            if y != x {
                assert(t.contains(y));
                let i = choose|i: int| 0 <= i < t.len() && t[i] == y;
                assert(s[i] == y);
            }
        }
        assert forall|i: int, j: int| 0 <= i < j < r.len() implies r[i] < r[j] by {
            assert(r[i] == u[i]);
            assert(u.contains(u[i]));
            if j < u.len() {
                assert(r[j] == u[j]);
                assert(u[i] < u[j]);
            } else {
                assert(r[j] == m);
            }
        }
        assert forall|y: u64| #[trigger] r.contains(y) <==> (y == x || s.contains(y)) by {
            if r.contains(y) {
                let i = choose|i: int| 0 <= i < r.len() && r[i] == y;
                if i < u.len() {
                    assert(u[i] == y);
                    assert(u.contains(y));
                    if y != x {
                        assert(t.contains(y));
                        let k = choose|k: int| 0 <= k < t.len() && t[k] == y;
                        assert(s[k] == y);
                    }
                } else {
                    assert(s[s.len() - 1] == y);
                }
            }
            if y == x {
                assert(u.contains(x));
                let i = choose|i: int| 0 <= i < u.len() && u[i] == x;
                assert(r[i] == x);
            }
            if s.contains(y) {
                let k = choose|k: int| 0 <= k < s.len() && s[k] == y;
                if k < t.len() {
                    assert(t[k] == y);
                    assert(t.contains(y));
                    assert(u.contains(y));
                    let i = choose|i: int| 0 <= i < u.len() && u[i] == y;
                    assert(r[i] == y);
                } else {
                    assert(r[u.len() as int] == y);
                }
            }
        }
    }
}

/// `sorted_unique` is ascending and holds exactly the elements it was given.
pub proof fn lemma_sorted_unique(s: Seq<u64>, n: nat)
    requires
        n <= s.len(),
    ensures
        ascending(sorted_unique(s, n)),
        forall|y: u64| #[trigger]
            sorted_unique(s, n).contains(y) <==> s.take(n as int).contains(y),
    decreases n,
{
    if n > 0 {
        let m = (n - 1) as nat;
        let x = s[n - 1];
        let p = sorted_unique(s, m);
        let r = sorted_unique(s, n);
        lemma_sorted_unique(s, m);
        lemma_insert_sorted(p, x);
        assert(r == insert_sorted(p, x));
        assert forall|y: u64| #[trigger] r.contains(y) <==> s.take(n as int).contains(y) by {
            assert(s.take(n as int)[n - 1] == x);
            if s.take(n as int).contains(y) {
                let i = choose|i: int| 0 <= i < n && s.take(n as int)[i] == y;
                if i < m {
                    assert(s.take(m as int)[i] == y);
                    assert(s.take(m as int).contains(y));
                    assert(p.contains(y));
                }
            }
            if r.contains(y) && y != x {
                assert(p.contains(y));
                assert(s.take(m as int).contains(y));
                let i = choose|i: int| 0 <= i < m && s.take(m as int)[i] == y;
                assert(s.take(n as int)[i] == y);
            }
        }
    } else {
        assert(s.take(0) =~= Seq::<u64>::empty());
    }
}

/// Puts `x` into the ascending vector `v` unless it is there already.
fn insert_ascending(v: &mut Vec<u64>, x: u64)
    ensures
        final(v)@ == insert_sorted(old(v)@, x),
{
    let mut j: usize = v.len();
    proof {
        assert(v@.take(j as int) =~= v@);
        assert(insert_sorted(v@, x) + v@.skip(j as int) =~= insert_sorted(v@, x));
    }
    while j > 0 && v[j - 1] > x
        invariant
            j <= v.len(),
            v@ == old(v)@,
            insert_sorted(v@, x) == insert_sorted(v@.take(j as int), x) + v@.skip(j as int),
        decreases j,
    {
        proof {
            let t = v@.take(j as int);
            assert(t.last() == v@[j - 1]);
            assert(t.drop_last() =~= v@.take(j - 1));
            assert(insert_sorted(t, x) == insert_sorted(v@.take(j - 1), x).push(v@[j - 1]));
            assert(insert_sorted(v@.take(j - 1), x).push(v@[j - 1]) + v@.skip(j as int)
                =~= insert_sorted(v@.take(j - 1), x) + v@.skip(j - 1));
        }
        j -= 1;
    }
    proof {
        let t = v@.take(j as int);
        if j > 0 {
            assert(t.last() == v@[j - 1]);
        }
        assert(v@.take(0) =~= Seq::<u64>::empty());
        assert(t + v@.skip(j as int) =~= v@);
        assert(t.push(x) + v@.skip(j as int) =~= v@.insert(j as int, x));
        assert(seq![x] + v@.skip(0) =~= v@.insert(0, x));
    }
    if j > 0 && v[j - 1] == x {
        return ;
    }
    v.insert(j, x);
}

/// The elements of `v` in ascending order, each once.
pub fn sort_dedup(v: &Vec<u64>) -> (r: Vec<u64>)
    ensures
        r@ == sorted_unique(v@, v.len() as nat),
{
    let mut r: Vec<u64> = Vec::new();
    let mut i: usize = 0;
    while i < v.len()
        invariant
            i <= v.len(),
            r@ == sorted_unique(v@, i as nat),
        decreases v.len() - i,
    {
        insert_ascending(&mut r, v[i]);
        i += 1;
    }
    r
}

/// The part of a penetration that the first body gives way: the penetration
/// times that body's fraction of the two masses, rounded toward zero. The
/// second body gives way the rest.
pub open spec fn share(pen: int, mass: int, total: int) -> int {
    trunc_div(pen * mass, total)
}

/// The contact state with one more side in contact.
pub open spec fn touching(
    s: MovingObjectState,
    left: bool,
    right: bool,
    ground: bool,
    ceiling: bool,
) -> MovingObjectState {
    MovingObjectState {
        left: s.left || left,
        right: s.right || right,
        ground: s.ground || ground,
        ceiling: s.ceiling || ceiling,
    }
}

/// A body moved horizontally by `dx`, with `left` or `right` marked.
pub open spec fn pushed_x(m: MovingObject, dx: int, left: bool) -> MovingObject {
    MovingObject {
        position: Position {
            value: Vec2 { x: saturate(m.position.value.x + dx) as i32, y: m.position.value.y },
        },
        state: touching(m.state, left, !left, false, false),
        ..m
    }
}

/// A body moved vertically by `dy`, with `ground` or `ceiling` marked.
pub open spec fn pushed_y(m: MovingObject, dy: int, ground: bool) -> MovingObject {
    MovingObject {
        position: Position {
            value: Vec2 { x: m.position.value.x, y: saturate(m.position.value.y + dy) as i32 },
        },
        state: touching(m.state, false, false, ground, !ground),
        ..m
    }
}

/// The two bodies after their overlap was resolved.
///
/// Bodies that do not overlap stay as they are. Against a translucent body
/// the first one only takes over its slowdown. Otherwise both are moved
/// apart along the axis of the smaller penetration, the vertical one on a
/// tie: the first body by its share, the second against the rest, and each
/// is marked as touching on the side that faces the other. Two bodies
/// without mass are left alone.
pub open spec fn resolved(
    a: MovingObject,
    a_aabb: AABB,
    b: MovingObject,
    b_aabb: AABB,
    translucent: Option<Translucent>,
) -> (MovingObject, MovingObject) {
    match penetration(a_aabb, a.position, b_aabb, b.position) {
        None => (a, b),
        Some(p) => match translucent {
            Some(t) => (MovingObject { velocity_factor: t.slowdown, ..a }, b),
            None => {
                let total = a.mass + b.mass;
                if total == 0 {
                    (a, b)
                } else if magnitude(p.x as int) < magnitude(p.y as int) {
                    let a_share = share(p.x as int, a.mass as int, total);
                    (pushed_x(a, a_share, p.x >= 0), pushed_x(b, -(p.x - a_share), !(p.x >= 0)))
                } else {
                    let a_share = share(p.y as int, a.mass as int, total);
                    (pushed_y(a, a_share, p.y >= 0), pushed_y(b, -(p.y - a_share), !(p.y >= 0)))
                }
            },
        },
    }
}

/// Splits a penetration between two masses: returns the first body's share.
fn split(pen: i64, mass: u32, total: u64) -> (r: i64)
    requires
        0 < total <= 0x1_ffff_fffe,
        mass <= total,
        -0x4_0000_0000 <= pen <= 0x4_0000_0000,
    ensures
        r as int == share(pen as int, mass as int, total as int),
        magnitude(r as int) <= magnitude(pen as int),
{
    let p: i128 = pen as i128;
    let m: i128 = mass as i128;
    let t: i128 = total as i128;
    assert(-0x4_0000_0000_0000_0000 <= p * m <= 0x4_0000_0000_0000_0000) by (nonlinear_arith)
        requires
            -0x4_0000_0000 <= p <= 0x4_0000_0000,
            0 <= m <= 0xffff_ffff,
    ;
    let q: i128 = (p * m) / t;
    proof {
        lemma_share_bounded(p as int, m as int, t as int);
    }
    q as i64
}

/// A share has the sign of the penetration and is no larger than it.
pub proof fn lemma_share_bounded(pen: int, mass: int, total: int)
    requires
        0 <= mass <= total,
        total > 0,
    ensures
        pen >= 0 ==> 0 <= share(pen, mass, total) <= pen,
        pen <= 0 ==> pen <= share(pen, mass, total) <= 0,
        mass == 0 ==> share(pen, mass, total) == 0,
        mass == total ==> share(pen, mass, total) == pen,
{
    if pen >= 0 {
        let n = pen * mass;
        assert(0 <= n <= pen * total) by (nonlinear_arith)
            requires
                n == pen * mass,
                pen >= 0,
                0 <= mass <= total,
        ;
        vstd::arithmetic::div_mod::lemma_div_is_ordered(n, pen * total, total);
        vstd::arithmetic::div_mod::lemma_div_multiples_vanish(pen, total);
        vstd::arithmetic::div_mod::lemma_div_pos_is_pos(n, total);
        assert(pen * total == total * pen) by (nonlinear_arith);
        if mass == 0 {
            assert(n == 0) by (nonlinear_arith)
                requires
                    n == pen * mass,
                    mass == 0,
            ;
        }
    } else {
        let n = (-pen) * mass;
        assert(-(pen * mass) == n) by (nonlinear_arith)
            requires
                n == (-pen) * mass,
        ;
        assert(0 <= n <= (-pen) * total) by (nonlinear_arith)
            requires
                n == (-pen) * mass,
                pen < 0,
                0 <= mass <= total,
        ;
        vstd::arithmetic::div_mod::lemma_div_is_ordered(n, (-pen) * total, total);
        vstd::arithmetic::div_mod::lemma_div_multiples_vanish(-pen, total);
        vstd::arithmetic::div_mod::lemma_div_pos_is_pos(n, total);
        assert((-pen) * total == total * (-pen)) by (nonlinear_arith);
        if mass == 0 {
            assert(n == 0) by (nonlinear_arith)
                requires
                    n == (-pen) * mass,
                    mass == 0,
            ;
            assert(pen * mass == 0) by (nonlinear_arith)
                requires
                    mass == 0,
            ;
        } else {
            assert(pen * mass < 0) by (nonlinear_arith)
                requires
                    pen < 0,
                    mass > 0,
            ;
        }
    }
}

/// Moves a body horizontally and marks the side that met the other body.
fn push_x(m: &mut MovingObject, dx: i64, left: bool)
    ensures
        *final(m) == pushed_x(*old(m), dx as int, left),
{
    m.position.value.x = saturate_to_i32(m.position.value.x as i128 + dx as i128);
    if left {
        m.state.left = true;
    } else {
        m.state.right = true;
    }
}

/// Moves a body vertically and marks the side that met the other body.
fn push_y(m: &mut MovingObject, dy: i64, ground: bool)
    ensures
        *final(m) == pushed_y(*old(m), dy as int, ground),
{
    m.position.value.y = saturate_to_i32(m.position.value.y as i128 + dy as i128);
    if ground {
        m.state.ground = true;
    } else {
        m.state.ceiling = true;
    }
}

/// Resolves the overlap of two bodies, if there is one: slows A down where B
/// is translucent, else moves both apart along the axis of the smaller
/// penetration, in proportion to their masses, and marks the touching sides.
pub fn correct_collisions(
    a_moving_object: &mut MovingObject,
    a_aabb: &AABB,
    b_moving_object: &mut MovingObject,
    b_aabb: &AABB,
    translucent: Option<&Translucent>,
)
    ensures
        (*final(a_moving_object), *final(b_moving_object)) == resolved(
            *old(a_moving_object),
            *a_aabb,
            *old(b_moving_object),
            *b_aabb,
            match translucent {
                Some(t) => Some(*t),
                None => None,
            },
        ),
{
    let a_pos = a_moving_object.position;
    let b_pos = b_moving_object.position;
    let found = penetration_depth(a_aabb, a_pos, b_aabb, b_pos);
    if let Some(depth) = found {
        match translucent {
            Some(translucent) => {
                a_moving_object.velocity_factor = translucent.slowdown;
            },
            None => {
                let total: u64 = a_moving_object.mass as u64 + b_moving_object.mass as u64;
                if total == 0 {
                    return ;
                }
                let x_size: i64 = if depth.x < 0 {
                    -depth.x
                } else {
                    depth.x
                };
                let y_size: i64 = if depth.y < 0 {
                    -depth.y
                } else {
                    depth.y
                };
                if x_size < y_size {
                    let a_share: i64 = split(depth.x, a_moving_object.mass, total);
                    push_x(a_moving_object, a_share, depth.x >= 0);
                    push_x(b_moving_object, -(depth.x - a_share), !(depth.x >= 0));
                } else {
                    let a_share: i64 = split(depth.y, a_moving_object.mass, total);
                    push_y(a_moving_object, a_share, depth.y >= 0);
                    push_y(b_moving_object, -(depth.y - a_share), !(depth.y >= 0));
                }
            },
        }
    }
}

/// What the collision index holds for each body: its place in the list as
/// identifier, its box and its position.
pub open spec fn body_entries(bodies: Seq<Body>) -> Seq<Entry> {
    Seq::new(
        bodies.len(),
        |i: int|
            Entry {
                id: i as u64,
                shape: Some(bodies[i].aabb),
                position: bodies[i].moving_object.position,
            },
    )
}

/// The index that one resolution pass is run against: a tree over the map
/// with every body offered to it in order.
pub open spec fn collision_index(bodies: Seq<Body>, map_aabb: AABB) -> QuadtreeModel {
    QuadtreeModel::leaf(
        map_aabb,
        Position { value: Vec2 { x: 0, y: 0 } },
        COLLISION_TREE_CAPACITY,
        COLLISION_TREE_DEPTH,
        0,
    ).filled(body_entries(bodies), bodies.len())
}

/// A body at the start of a resolution pass: one with mass has no contacts
/// and its full speed again, one without mass is not touched.
pub open spec fn released(b: Body) -> Body {
    if b.moving_object.mass == 0 {
        b
    } else {
        Body {
            moving_object: MovingObject {
                state: MovingObjectState::clear(),
                velocity_factor: 1000,
                ..b.moving_object
            },
            ..b
        }
    }
}

/// The bodies that `b` is checked against: none for a body without mass,
/// else what the index reports for the body's own box, in ascending order
/// and each once.
pub open spec fn candidates(tree: QuadtreeModel, b: Body) -> Seq<u64> {
    if b.moving_object.mass == 0 {
        Seq::empty()
    } else {
        let hits = tree.query(b.aabb, b.moving_object.position);
        sorted_unique(hits, hits.len())
    }
}

/// The candidates of every body, by the body's place in the list.
pub open spec fn candidate_lists(bodies: Seq<Body>, tree: QuadtreeModel) -> Seq<Seq<u64>> {
    Seq::new(bodies.len(), |i: int| candidates(tree, bodies[i]))
}

/// The bodies after the pair `a`, `b` was resolved. A body is not paired
/// with itself, nor with an identifier that names no body, and two bodies
/// without mass are left alone.
pub open spec fn pair_resolved(bodies: Seq<Body>, a: int, b: int) -> Seq<Body> {
    if a == b || !(0 <= a < bodies.len()) || !(0 <= b < bodies.len()) || (
    bodies[a].moving_object.mass == 0 && bodies[b].moving_object.mass == 0) {
        bodies
    } else {
        let r = resolved(
            bodies[a].moving_object,
            bodies[a].aabb,
            bodies[b].moving_object,
            bodies[b].aabb,
            bodies[b].translucent,
        );
        bodies.update(a, Body { moving_object: r.0, ..bodies[a] }).update(
            b,
            Body { moving_object: r.1, ..bodies[b] },
        )
    }
}

/// The bodies after `a` was resolved against the first `n` of `others`, one
/// after the other.
pub open spec fn resolved_against(bodies: Seq<Body>, a: int, others: Seq<u64>, n: nat) -> Seq<Body>
    decreases n,
{
    if n == 0 || n > others.len() {
        bodies
    } else {
        pair_resolved(resolved_against(bodies, a, others, (n - 1) as nat), a, others[n - 1] as int)
    }
}

/// The bodies after each of the first `k` of them was resolved against its
/// own list of candidates.
pub open spec fn checks_resolved(bodies: Seq<Body>, lists: Seq<Seq<u64>>, k: nat) -> Seq<Body>
    decreases k,
{
    if k == 0 || k > lists.len() {
        bodies
    } else {
        resolved_against(
            checks_resolved(bodies, lists, (k - 1) as nat),
            k - 1,
            lists[k - 1],
            lists[k - 1].len(),
        )
    }
}

/// The world after one resolution pass: contacts are forgotten, then every
/// body with mass is resolved, in the order of the list, against each
/// candidate that the index built from the positions before the pass
/// reports for it.
pub open spec fn collided(bodies: Seq<Body>, map_aabb: AABB) -> Seq<Body> {
    checks_resolved(
        bodies.map_values(|b: Body| released(b)),
        candidate_lists(bodies, collision_index(bodies, map_aabb)),
        bodies.len(),
    )
}

/// Resolves one pair of bodies in place.
fn resolve_pair(bodies: &mut Vec<Body>, a: usize, b: u64)
    ensures
        final(bodies)@ == pair_resolved(old(bodies)@, a as int, b as int),
{
    if a >= bodies.len() || b >= bodies.len() as u64 {
        return ;
    }
    let b: usize = b as usize;
    if a == b {
        return ;
    }
    let first = bodies[a];
    let second = bodies[b];
    if first.moving_object.mass == 0 && second.moving_object.mass == 0 {
        return ;
    }
    let mut a_moving_object = first.moving_object;
    let mut b_moving_object = second.moving_object;
    correct_collisions(
        &mut a_moving_object,
        &first.aabb,
        &mut b_moving_object,
        &second.aabb,
        second.translucent.as_ref(),
    );
    bodies[a] = Body { moving_object: a_moving_object, ..first };
    bodies[b] = Body { moving_object: b_moving_object, ..second };
}

/// Forgets the contacts of the bodies with mass and finds, for each of
/// them, the bodies to check it against.
fn collect_checks(bodies: &mut Vec<Body>, quadtree: &Quadtree) -> (checks: Vec<Vec<u64>>)
    ensures
        final(bodies)@ == old(bodies)@.map_values(|b: Body| released(b)),
        checks@.map_values(|v: Vec<u64>| v@) == candidate_lists(old(bodies)@, quadtree@),
        checks.len() == old(bodies).len(),
        final(bodies).len() == old(bodies).len(),
{
    let mut checks: Vec<Vec<u64>> = Vec::new();
    let mut i: usize = 0;
    while i < bodies.len()
        invariant
            i <= bodies.len(),
            bodies.len() == old(bodies).len(),
            checks.len() == i,
            forall|j: int| 0 <= j < i ==> #[trigger] bodies@[j] == released(old(bodies)@[j]),
            forall|j: int| i <= j < bodies.len() ==> #[trigger] bodies@[j] == old(bodies)@[j],
            forall|j: int|
                0 <= j < i ==> (#[trigger] checks@[j])@ == candidates(quadtree@, old(bodies)@[j]),
        decreases bodies.len() - i,
    {
        let body = bodies[i];
        if body.moving_object.mass == 0 {
            checks.push(Vec::new());
        } else {
            let mut moving_object = body.moving_object;
            moving_object.state.left = false;
            moving_object.state.right = false;
            moving_object.state.ground = false;
            moving_object.state.ceiling = false;
            moving_object.velocity_factor = 1000;
            bodies[i] = Body { moving_object, ..body };

            let mut to_check_collision: Vec<u64> = Vec::new();
            quadtree.query(&body.aabb, moving_object.position, &mut to_check_collision);
            assert(to_check_collision@ =~= quadtree@.query(body.aabb, body.moving_object.position));
            checks.push(sort_dedup(&to_check_collision));
        }
        i += 1;
    }
    assert(bodies@ =~= old(bodies)@.map_values(|b: Body| released(b)));
    assert(checks@.map_values(|v: Vec<u64>| v@) =~= candidate_lists(old(bodies)@, quadtree@));
    checks
}

/// Runs one resolution pass over the world.
///
/// The bodies are indexed by a quadtree over `map_aabb`; a body outside the
/// map is in nobody's list of candidates. Every body with mass loses its
/// contact flags and slowdown and is then resolved against the bodies that
/// the index reports near it.
pub fn collisions(bodies: &mut Vec<Body>, map_aabb: &AABB)
    ensures
        final(bodies)@ == collided(old(bodies)@, *map_aabb),
        final(bodies).len() == old(bodies).len(),
{
    proof {
        if bodies.len() > 0 {
            lemma_pass_keeps_massless(bodies@, *map_aabb, 0);
        } else {
            assert(collided(bodies@, *map_aabb).len() == 0);
        }
    }
    let mut entries: Vec<Entry> = Vec::new();
    let mut i: usize = 0;
    while i < bodies.len()
        invariant
            i <= bodies.len(),
            bodies@ == old(bodies)@,
            entries@ == body_entries(bodies@).take(i as int),
        decreases bodies.len() - i,
    {
        let body = bodies[i];
        entries.push(
            Entry { id: i as u64, shape: Some(body.aabb), position: body.moving_object.position },
        );
        assert(entries@ =~= body_entries(bodies@).take(i + 1));
        i += 1;
    }
    assert(entries@ =~= body_entries(bodies@));
    let quadtree = build_quadtree(
        &entries,
        map_aabb,
        COLLISION_TREE_CAPACITY,
        COLLISION_TREE_DEPTH,
    );
    let checks = collect_checks(bodies, &quadtree);
    let ghost lists = checks@.map_values(|v: Vec<u64>| v@);
    let ghost start = bodies@;

    let mut a: usize = 0;
    while a < checks.len()
        invariant
            a <= checks.len(),
            checks.len() == start.len(),
            lists == checks@.map_values(|v: Vec<u64>| v@),
            bodies@ == checks_resolved(start, lists, a as nat),
        decreases checks.len() - a,
    {
        let ghost before = bodies@;
        let mut k: usize = 0;
        while k < checks[a].len()
            invariant
                a < checks.len(),
                k <= checks@[a as int].len(),
                lists == checks@.map_values(|v: Vec<u64>| v@),
                bodies@ == resolved_against(before, a as int, checks@[a as int]@, k as nat),
            decreases checks@[a as int].len() - k,
        {
            let b_entity = checks[a][k];
            resolve_pair(bodies, a, b_entity);
            k += 1;
        }
        assert(lists[a as int] == checks@[a as int]@);
        a += 1;
    }
}

/// A coordinate that can be stored without saturating.
pub open spec fn representable(v: int) -> bool {
    i32::MIN <= v <= i32::MAX
}

/// The positions that resolving the pair asks for can be stored as they are.
pub open spec fn resolution_representable(
    a: MovingObject,
    a_aabb: AABB,
    b: MovingObject,
    b_aabb: AABB,
) -> bool {
    match penetration(a_aabb, a.position, b_aabb, b.position) {
        None => true,
        Some(p) => {
            let total = a.mass + b.mass;
            if magnitude(p.x as int) < magnitude(p.y as int) {
                let a_share = share(p.x as int, a.mass as int, total);
                representable(a.position.value.x + a_share) && representable(
                    b.position.value.x - (p.x - a_share),
                )
            } else {
                let a_share = share(p.y as int, a.mass as int, total);
                representable(a.position.value.y + a_share) && representable(
                    b.position.value.y - (p.y - a_share),
                )
            }
        },
    }
}

/// After two overlapping solid bodies, at least one of them with mass, were
/// resolved, their boxes no longer overlap: on the axis that was resolved
/// they touch.
pub proof fn lemma_resolution_separates(a: MovingObject, a_aabb: AABB, b: MovingObject, b_aabb: AABB)
    requires
        a_aabb.overlaps(a.position, b_aabb, b.position),
        a.mass + b.mass > 0,
        resolution_representable(a, a_aabb, b, b_aabb),
    ensures
        !a_aabb.overlaps(
            resolved(a, a_aabb, b, b_aabb, None).0.position,
            b_aabb,
            resolved(a, a_aabb, b, b_aabb, None).1.position,
        ),
{
    let p = penetration(a_aabb, a.position, b_aabb, b.position)->0;
    let total = a.mass + b.mass;
    if magnitude(p.x as int) < magnitude(p.y as int) {
        let a_share = share(p.x as int, a.mass as int, total);
        lemma_penetration_clears_axis(
            a.position.value.x as int,
            a_aabb.halfsize.x as int,
            b.position.value.x as int,
            b_aabb.halfsize.x as int,
            a_share,
            p.x - a_share,
        );
    } else {
        let a_share = share(p.y as int, a.mass as int, total);
        lemma_penetration_clears_axis(
            a.position.value.y as int,
            a_aabb.halfsize.y as int,
            b.position.value.y as int,
            b_aabb.halfsize.y as int,
            a_share,
            p.y - a_share,
        );
    }
}

/// Resolving a pair never moves a body without mass, and never changes a
/// mass.
pub proof fn lemma_massless_stays(
    a: MovingObject,
    a_aabb: AABB,
    b: MovingObject,
    b_aabb: AABB,
    translucent: Option<Translucent>,
)
    ensures
        resolved(a, a_aabb, b, b_aabb, translucent).0.mass == a.mass,
        resolved(a, a_aabb, b, b_aabb, translucent).1.mass == b.mass,
        a.mass == 0 ==> resolved(a, a_aabb, b, b_aabb, translucent).0.position == a.position,
        b.mass == 0 ==> resolved(a, a_aabb, b, b_aabb, translucent).1.position == b.position,
{
    let total = a.mass + b.mass;
    if total > 0 {
        match penetration(a_aabb, a.position, b_aabb, b.position) {
            Some(p) => {
                lemma_share_bounded(p.x as int, a.mass as int, total);
                lemma_share_bounded(p.y as int, a.mass as int, total);
            },
            None => {},
        }
    }
}

/// Resolving a pair keeps the number of bodies, their masses and boxes, and
/// the position of every body without mass.
pub proof fn lemma_pair_keeps_massless(bodies: Seq<Body>, a: int, b: int, i: int)
    requires
        0 <= i < bodies.len(),
    ensures
        pair_resolved(bodies, a, b).len() == bodies.len(),
        pair_resolved(bodies, a, b)[i].moving_object.mass == bodies[i].moving_object.mass,
        pair_resolved(bodies, a, b)[i].aabb == bodies[i].aabb,
        bodies[i].moving_object.mass == 0 ==> pair_resolved(
            bodies,
            a,
            b,
        )[i].moving_object.position == bodies[i].moving_object.position,
{
    if 0 <= a < bodies.len() && 0 <= b < bodies.len() {
        lemma_massless_stays(
            bodies[a].moving_object,
            bodies[a].aabb,
            bodies[b].moving_object,
            bodies[b].aabb,
            bodies[b].translucent,
        );
    }
}

/// Resolving a body against its candidates keeps the number of bodies,
/// their masses, and the position of every body without mass.
pub proof fn lemma_against_keeps_massless(
    bodies: Seq<Body>,
    a: int,
    others: Seq<u64>,
    n: nat,
    i: int,
)
    requires
        0 <= i < bodies.len(),
    ensures
        resolved_against(bodies, a, others, n).len() == bodies.len(),
        resolved_against(bodies, a, others, n)[i].moving_object.mass
            == bodies[i].moving_object.mass,
        bodies[i].moving_object.mass == 0 ==> resolved_against(
            bodies,
            a,
            others,
            n,
        )[i].moving_object.position == bodies[i].moving_object.position,
    decreases n,
{
    if n == 0 || n > others.len() {
    } else {
        lemma_against_keeps_massless(bodies, a, others, (n - 1) as nat, i);
        lemma_pair_keeps_massless(
            resolved_against(bodies, a, others, (n - 1) as nat),
            a,
            others[n - 1] as int,
            i,
        );
    }
}

/// Resolving every body against its candidates keeps the number of bodies,
/// their masses, and the position of every body without mass.
pub proof fn lemma_checks_keep_massless(bodies: Seq<Body>, lists: Seq<Seq<u64>>, k: nat, i: int)
    requires
        0 <= i < bodies.len(),
    ensures
        checks_resolved(bodies, lists, k).len() == bodies.len(),
        checks_resolved(bodies, lists, k)[i].moving_object.mass == bodies[i].moving_object.mass,
        bodies[i].moving_object.mass == 0 ==> checks_resolved(
            bodies,
            lists,
            k,
        )[i].moving_object.position == bodies[i].moving_object.position,
    decreases k,
{
    if k == 0 || k > lists.len() {
    } else {
        lemma_checks_keep_massless(bodies, lists, (k - 1) as nat, i);
        lemma_against_keeps_massless(
            checks_resolved(bodies, lists, (k - 1) as nat),
            k - 1,
            lists[k - 1],
            lists[k - 1].len(),
            i,
        );
    }
}

/// A resolution pass keeps the number of bodies and their masses, and never
/// moves a body without mass.
pub proof fn lemma_pass_keeps_massless(bodies: Seq<Body>, map_aabb: AABB, i: int)
    requires
        0 <= i < bodies.len(),
    ensures
        collided(bodies, map_aabb).len() == bodies.len(),
        collided(bodies, map_aabb)[i].moving_object.mass == bodies[i].moving_object.mass,
        bodies[i].moving_object.mass == 0 ==> collided(
            bodies,
            map_aabb,
        )[i].moving_object.position == bodies[i].moving_object.position,
{
    let start = bodies.map_values(|b: Body| released(b));
    let lists = candidate_lists(bodies, collision_index(bodies, map_aabb));
    lemma_checks_keep_massless(start, lists, bodies.len(), i);
}

/// The broad phase misses no pair: where a body with mass overlaps another
/// body that lies strictly inside the map, the other body is among its
/// candidates.
pub proof fn lemma_candidates_complete(bodies: Seq<Body>, map_aabb: AABB, i: int, j: int)
    requires
        0 <= i < bodies.len(),
        0 <= j < bodies.len(),
        bodies.len() <= u64::MAX,
        bodies[i].moving_object.mass != 0,
        map_aabb.encloses(
            Position { value: Vec2 { x: 0, y: 0 } },
            bodies[j].aabb,
            bodies[j].moving_object.position,
        ),
        bodies[i].aabb.overlaps(
            bodies[i].moving_object.position,
            bodies[j].aabb,
            bodies[j].moving_object.position,
        ),
    ensures
        candidate_lists(bodies, collision_index(bodies, map_aabb))[i].contains(j as u64),
{
    let root = QuadtreeModel::leaf(
        map_aabb,
        Position { value: Vec2 { x: 0, y: 0 } },
        COLLISION_TREE_CAPACITY,
        COLLISION_TREE_DEPTH,
        0,
    );
    let items = body_entries(bodies);
    let tree = collision_index(bodies, map_aabb);
    let e = items[j];
    lemma_indexed_when_inside(root, items, j);
    assert(touches(e, bodies[i].aabb, bodies[i].moving_object.position));
    lemma_query_complete(tree, bodies[i].aabb, bodies[i].moving_object.position, e);
    let hits = tree.query(bodies[i].aabb, bodies[i].moving_object.position);
    lemma_sorted_unique(hits, hits.len());
    assert(hits.take(hits.len() as int) =~= hits);
}

} // verus!

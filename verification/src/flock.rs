//! One flocking pass over a whole world.
//!
//! A pass is a function of the world and of the random draws made for it,
//! one [`Draw`] for each object of the world: [`move_boids_with`] computes
//! it from given draws, [`move_boids`] makes the draws itself.

use vstd::prelude::*;
use crate::boids::{
    align_velocities, alignment, avoid_edges, clamped_speed, cohesion, edge_push, interaction,
    jitter, normalize_velocity, object_interactions, random_movement, steer_towards_center,
    BoidParameters, Respawn, TileType,
};
use crate::math::{
    added, saturate_to_i32, saturate_to_i64, saturate_wide, scale, scaled, Extent, Vec2,
    WideVec2,
};
use crate::physics::{MovingObject, Position, Velocity, AABB};
use crate::quadtree::{build_quadtree, touches, Entry, Quadtree, QuadtreeModel};
use crate::quadtree_laws::{lemma_indexed_when_inside, lemma_query_complete};
use crate::random::{draw_jitter, draw_respawn, jitter_allowed, respawn_allowed};

verus! {

/// Deepest level of the index that a flocking pass is run against.
pub const FLOCK_TREE_DEPTH: u8 = 255;

/// A boid counts as crowded once it has met this many other boids.
pub const CROWDED: usize = 7;

/// A boid that met fewer other boids than this is lonely.
pub const LONELY: usize = 3;

/// One inhabitant of the world. One without a box is a boid; one with a box
/// is a tile of the map, an obstacle unless `tile` says it is a target.
#[derive(Clone, Copy, Debug, PartialEq, Eq)]
pub struct WorldObject {
    pub aabb: Option<AABB>,
    pub moving_object: MovingObject,
    pub tile: Option<TileType>,
}

/// What a boid has gathered while it met its neighbours: the steering so
/// far, and the positions and velocities of the boids among them, summed up
/// and counted.
#[derive(Clone, Copy, Debug, PartialEq, Eq)]
pub struct Steering {
    pub final_velocity: Vec2,
    pub total_position: WideVec2,
    pub total_velocity: WideVec2,
    pub boids_amount: usize,
}

impl Steering {
    /// Nothing gathered yet.
    pub open spec fn none() -> Self {
        Steering {
            final_velocity: Vec2 { x: 0, y: 0 },
            total_position: WideVec2 { x: 0, y: 0 },
            total_velocity: WideVec2 { x: 0, y: 0 },
            boids_amount: 0,
        }
    }
}

/// The random numbers that one boid uses up in one pass.
#[derive(Clone, Copy, Debug, PartialEq, Eq)]
pub struct Draw {
    pub respawn: Respawn,
    pub jitter: Vec2,
}

impl Draw {
    /// The draw that changes nothing: no jitter, and a respawn at rest at
    /// the origin.
    pub open spec fn still() -> Self {
        Draw {
            respawn: Respawn { position: Vec2 { x: 0, y: 0 }, velocity: Vec2 { x: 0, y: 0 } },
            jitter: Vec2 { x: 0, y: 0 },
        }
    }
}

/// The draw for object `i`, or the still draw where none was made.
pub open spec fn draw_at(draws: Seq<Draw>, i: int) -> Draw {
    if 0 <= i < draws.len() {
        draws[i]
    } else {
        Draw::still()
    }
}

/// A sum of vectors with one more vector added, each component saturating.
pub open spec fn summed(total: WideVec2, v: Vec2) -> WideVec2 {
    WideVec2 {
        x: saturate_wide(total.x + v.x) as i64,
        y: saturate_wide(total.y + v.y) as i64,
    }
}

fn sum(total: WideVec2, v: Vec2) -> (r: WideVec2)
    ensures
        r == summed(total, v),
{
    WideVec2 {
        x: saturate_to_i64(total.x as i128 + v.x as i128),
        y: saturate_to_i64(total.y as i128 + v.y as i128),
    }
}

/// One more, as long as the count can hold it.
pub open spec fn counted(amount: usize) -> usize {
    if amount < usize::MAX {
        (amount + 1) as usize
    } else {
        amount
    }
}

/// The steering of a boid once it has met all its neighbours: what it
/// gathered, then the push from the edges of the viewport, cohesion and
/// alignment, the whole held within the speed limits, and at last the
/// jitter.
pub open spec fn steered(
    s: Steering,
    a_position: Vec2,
    a_velocity: Vec2,
    p: BoidParameters,
    window_halfsize: Extent,
    drawn: Vec2,
) -> Vec2 {
    let edges = added(
        s.final_velocity,
        edge_push(
            a_position.x as int,
            window_halfsize.x as int,
            p.edge_avoidance_distance as int,
            p.edge_avoidance_strength as int,
        ),
        edge_push(
            a_position.y as int,
            window_halfsize.y as int,
            p.edge_avoidance_distance as int,
            p.edge_avoidance_strength as int,
        ),
    );
    let centered = added(
        edges,
        cohesion(s.boids_amount as int, s.total_position.x as int, a_position.x as int, p),
        cohesion(s.boids_amount as int, s.total_position.y as int, a_position.y as int, p),
    );
    let aligned = added(
        centered,
        alignment(s.boids_amount as int, s.total_velocity, a_velocity, p).0,
        alignment(s.boids_amount as int, s.total_velocity, a_velocity, p).1,
    );
    let held = clamped_speed(aligned, p);
    added(held, jitter(drawn.x as int, p), jitter(drawn.y as int, p))
}

/// Completes the steering of a boid that has met all its neighbours.
pub fn steer(
    steering: &Steering,
    a_position: Vec2,
    a_velocity: Vec2,
    boid_params: &BoidParameters,
    window_halfsize: Extent,
    drawn: Vec2,
) -> (final_velocity: Vec2)
    ensures
        final_velocity == steered(
            *steering,
            a_position,
            a_velocity,
            *boid_params,
            window_halfsize,
            drawn,
        ),
{
    let mut final_velocity = steering.final_velocity;
    avoid_edges(a_position, window_halfsize, boid_params, &mut final_velocity);
    steer_towards_center(
        steering.boids_amount,
        steering.total_position,
        a_position,
        boid_params,
        &mut final_velocity,
    );
    align_velocities(
        steering.boids_amount,
        steering.total_velocity,
        a_velocity,
        boid_params,
        &mut final_velocity,
    );
    normalize_velocity(&mut final_velocity, boid_params);
    random_movement(&mut final_velocity, drawn, boid_params);
    final_velocity
}

/// The velocity of a boid after the steering, weighted by the multiplier,
/// was added to it.
pub open spec fn accelerated(velocity: Vec2, steering: Vec2, p: BoidParameters) -> Vec2 {
    added(
        velocity,
        scaled(steering.x as int, p.multiplier as int),
        scaled(steering.y as int, p.multiplier as int),
    )
}

fn accelerate(velocity: Vec2, steering: Vec2, boid_params: &BoidParameters) -> (r: Vec2)
    ensures
        r == accelerated(velocity, steering, *boid_params),
{
    let dx: i128 = scale(steering.x as i64, boid_params.multiplier);
    let dy: i128 = scale(steering.y as i64, boid_params.multiplier);
    Vec2 {
        x: saturate_to_i32(velocity.x as i128 + dx),
        y: saturate_to_i32(velocity.y as i128 + dy),
    }
}

/// The world and what boid `a` has gathered, after `a` met the object `b`.
///
/// Nothing happens when `b` is `a` itself or names no object. A lonely boid
/// that a crowded one comes across is first moved to the crowded boid's
/// position. Then `a` reacts to `b`, and if `b` is a boid its position and
/// velocity are added to what `a` has gathered.
pub open spec fn met(
    objects: Seq<WorldObject>,
    s: Steering,
    a: int,
    b: int,
    to_teleport: Seq<u64>,
    p: BoidParameters,
    delta: i32,
    respawn: Respawn,
) -> (Seq<WorldObject>, Steering) {
    if a == b || !(0 <= a < objects.len()) || !(0 <= b < objects.len()) {
        (objects, s)
    } else {
        let first = objects[a];
        let second = if to_teleport.contains(b as u64) && s.boids_amount >= CROWDED {
            WorldObject {
                moving_object: MovingObject {
                    position: first.moving_object.position,
                    ..objects[b].moving_object
                },
                ..objects[b]
            }
        } else {
            objects[b]
        };
        let r = interaction(
            second.aabb,
            first.moving_object.position.value,
            second.moving_object.position.value,
            p,
            s.final_velocity,
            first.moving_object.velocity.value,
            first.moving_object,
            delta,
            respawn,
            second.tile,
        );
        let gathered = if second.aabb is None {
            Steering {
                final_velocity: r.0,
                total_position: summed(s.total_position, second.moving_object.position.value),
                total_velocity: summed(s.total_velocity, second.moving_object.velocity.value),
                boids_amount: counted(s.boids_amount),
            }
        } else {
            Steering { final_velocity: r.0, ..s }
        };
        (
            objects.update(a, WorldObject { moving_object: r.1, ..first }).update(
                b,
                WorldObject { tile: r.2, ..second },
            ),
            gathered,
        )
    }
}

/// The world and what boid `a` has gathered, after `a` met the first `n` of
/// `others`, one after the other.
pub open spec fn met_all(
    objects: Seq<WorldObject>,
    s: Steering,
    a: int,
    others: Seq<u64>,
    n: nat,
    to_teleport: Seq<u64>,
    p: BoidParameters,
    delta: i32,
    respawn: Respawn,
) -> (Seq<WorldObject>, Steering)
    decreases n,
{
    if n == 0 || n > others.len() {
        (objects, s)
    } else {
        let before = met_all(objects, s, a, others, (n - 1) as nat, to_teleport, p, delta, respawn);
        met(before.0, before.1, a, others[n - 1] as int, to_teleport, p, delta, respawn)
    }
}

/// The world and the list of lonely boids, after boid `a` had its turn: it
/// met all of `others`, was noted as lonely if it met fewer than three
/// boids, and had its steering added to its velocity.
pub open spec fn boid_moved(
    objects: Seq<WorldObject>,
    to_teleport: Seq<u64>,
    a: int,
    others: Seq<u64>,
    p: BoidParameters,
    window_halfsize: Extent,
    delta: i32,
    draw: Draw,
) -> (Seq<WorldObject>, Seq<u64>) {
    if !(0 <= a < objects.len()) {
        (objects, to_teleport)
    } else {
        let after = met_all(
            objects,
            Steering::none(),
            a,
            others,
            others.len(),
            to_teleport,
            p,
            delta,
            draw.respawn,
        );
        let lonely = if after.1.boids_amount < LONELY {
            to_teleport.push(a as u64)
        } else {
            to_teleport
        };
        let own = after.0[a];
        let steering = steered(
            after.1,
            own.moving_object.position.value,
            own.moving_object.velocity.value,
            p,
            window_halfsize,
            draw.jitter,
        );
        (
            after.0.update(
                a,
                WorldObject {
                    moving_object: MovingObject {
                        velocity: Velocity {
                            value: accelerated(own.moving_object.velocity.value, steering, p),
                        },
                        ..own.moving_object
                    },
                    ..own
                },
            ),
            lonely,
        )
    }
}

/// The world and the list of lonely boids, after the first `k` objects had
/// their turn. Only an object with a list of neighbours, a boid, has one.
pub open spec fn flock_moved(
    objects: Seq<WorldObject>,
    lists: Seq<Option<Seq<u64>>>,
    draws: Seq<Draw>,
    k: nat,
    p: BoidParameters,
    window_halfsize: Extent,
    delta: i32,
) -> (Seq<WorldObject>, Seq<u64>)
    decreases k,
{
    if k == 0 || k > lists.len() {
        (objects, Seq::empty())
    } else {
        let before = flock_moved(objects, lists, draws, (k - 1) as nat, p, window_halfsize, delta);
        match lists[k - 1] {
            Some(others) => boid_moved(
                before.0,
                before.1,
                k - 1,
                others,
                p,
                window_halfsize,
                delta,
                draw_at(draws, k - 1),
            ),
            None => before,
        }
    }
}

/// What the index of a flocking pass holds for each object: its place in
/// the list as identifier, its box if it has one, and its position.
pub open spec fn world_entries(objects: Seq<WorldObject>) -> Seq<Entry> {
    Seq::new(
        objects.len(),
        |i: int|
            Entry {
                id: i as u64,
                shape: objects[i].aabb,
                position: objects[i].moving_object.position,
            },
    )
}

/// The index that a flocking pass is run against: a tree over the viewport
/// with every object offered to it in order.
pub open spec fn flock_index(
    objects: Seq<WorldObject>,
    window_halfsize: Extent,
    p: BoidParameters,
) -> QuadtreeModel {
    QuadtreeModel::leaf(
        AABB { halfsize: window_halfsize },
        Position { value: Vec2 { x: 0, y: 0 } },
        p.quadtree_capacity,
        FLOCK_TREE_DEPTH,
        0,
    ).filled(world_entries(objects), objects.len())
}

/// For each boid, what the index reports within its view distance. An
/// object with a box has no list.
pub open spec fn neighbour_lists(
    objects: Seq<WorldObject>,
    tree: QuadtreeModel,
    p: BoidParameters,
) -> Seq<Option<Seq<u64>>> {
    Seq::new(
        objects.len(),
        |i: int|
            if objects[i].aabb is None {
                Some(tree.query(p.view_distance_aabb, objects[i].moving_object.position))
            } else {
                None
            },
    )
}

/// The world after one flocking pass with the given draws: every boid, in
/// the order of the list, meets the objects that the index built from the
/// positions before the pass reports within its view distance, and steers.
pub open spec fn moved(
    objects: Seq<WorldObject>,
    window_halfsize: Extent,
    p: BoidParameters,
    delta: i32,
    draws: Seq<Draw>,
) -> Seq<WorldObject> {
    flock_moved(
        objects,
        neighbour_lists(objects, flock_index(objects, window_halfsize, p), p),
        draws,
        objects.len(),
        p,
        window_halfsize,
        delta,
    ).0
}

fn holds(list: &Vec<u64>, id: u64) -> (r: bool)
    ensures
        r == list@.contains(id),
{
    let mut i: usize = 0;
    while i < list.len()
        invariant
            i <= list.len(),
            forall|j: int| 0 <= j < i ==> list@[j] != id,
        decreases list.len() - i,
    {
        if list[i] == id {
            return true;
        }
        i += 1;
    }
    false
}

/// Lets boid `a` meet the object `b`.
fn meet(
    objects: &mut Vec<WorldObject>,
    steering: &mut Steering,
    a: usize,
    b: u64,
    to_teleport: &Vec<u64>,
    boid_params: &BoidParameters,
    delta: i32,
    respawn: &Respawn,
)
    ensures
        (final(objects)@, *final(steering)) == met(
            old(objects)@,
            *old(steering),
            a as int,
            b as int,
            to_teleport@,
            *boid_params,
            delta,
            *respawn,
        ),
        final(objects).len() == old(objects).len(),
{
    if a >= objects.len() || b >= objects.len() as u64 {
        return ;
    }
    let b_index: usize = b as usize;
    if a == b_index {
        return ;
    }
    let first = objects[a];
    let mut second = objects[b_index];
    if holds(to_teleport, b) && steering.boids_amount >= CROWDED {
        second.moving_object.position = first.moving_object.position;
    }
    let a_position = first.moving_object.position.value;
    let a_velocity = first.moving_object.velocity.value;
    let b_position = second.moving_object.position.value;
    let b_velocity = second.moving_object.velocity.value;

    let mut a_moving_object = first.moving_object;
    let mut tile = second.tile;
    let mut final_velocity = steering.final_velocity;
    object_interactions(
        second.aabb.as_ref(),
        a_position,
        b_position,
        boid_params,
        &mut final_velocity,
        a_velocity,
        &mut a_moving_object,
        delta,
        respawn,
        &mut tile,
    );
    steering.final_velocity = final_velocity;
    if second.aabb.is_none() {
        steering.total_position = sum(steering.total_position, b_position);
        steering.total_velocity = sum(steering.total_velocity, b_velocity);
        if steering.boids_amount < usize::MAX {
            steering.boids_amount = steering.boids_amount + 1;
        }
    }
    objects[a] = WorldObject { moving_object: a_moving_object, ..first };
    objects[b_index] = WorldObject { tile, ..second };
}

/// Gives boid `a` its turn.
fn move_boid(
    objects: &mut Vec<WorldObject>,
    to_teleport: &mut Vec<u64>,
    a: usize,
    others: &Vec<u64>,
    boid_params: &BoidParameters,
    window_halfsize: Extent,
    delta: i32,
    draw: &Draw,
)
    ensures
        (final(objects)@, final(to_teleport)@) == boid_moved(
            old(objects)@,
            old(to_teleport)@,
            a as int,
            others@,
            *boid_params,
            window_halfsize,
            delta,
            *draw,
        ),
        final(objects).len() == old(objects).len(),
{
    if a >= objects.len() {
        return ;
    }
    let mut steering = Steering {
        final_velocity: Vec2 { x: 0, y: 0 },
        total_position: WideVec2 { x: 0, y: 0 },
        total_velocity: WideVec2 { x: 0, y: 0 },
        boids_amount: 0,
    };
    let mut k: usize = 0;
    while k < others.len()
        invariant
            k <= others.len(),
            a < objects.len(),
            objects.len() == old(objects).len(),
            to_teleport@ == old(to_teleport)@,
            (objects@, steering) == met_all(
                old(objects)@,
                Steering::none(),
                a as int,
                others@,
                k as nat,
                to_teleport@,
                *boid_params,
                delta,
                draw.respawn,
            ),
        decreases others.len() - k,
    {
        meet(objects, &mut steering, a, others[k], to_teleport, boid_params, delta, &draw.respawn);
        k += 1;
    }
    if steering.boids_amount < LONELY {
        to_teleport.push(a as u64);
    }
    let own = objects[a];
    let final_velocity = steer(
        &steering,
        own.moving_object.position.value,
        own.moving_object.velocity.value,
        boid_params,
        window_halfsize,
        draw.jitter,
    );
    let mut moving_object = own.moving_object;
    moving_object.velocity.value = accelerate(
        own.moving_object.velocity.value,
        final_velocity,
        boid_params,
    );
    objects[a] = WorldObject { moving_object, ..own };
}

/// The neighbours of a boid as a sequence, if it has a list.
pub open spec fn list_view(list: Option<Vec<u64>>) -> Option<Seq<u64>> {
    match list {
        Some(others) => Some(others@),
        None => None,
    }
}

/// Asks the index, for each boid, what lies within its view distance.
fn collect_neighbours(
    objects: &Vec<WorldObject>,
    quadtree: &Quadtree,
    boid_params: &BoidParameters,
) -> (lists: Vec<Option<Vec<u64>>>)
    ensures
        lists@.map_values(|l: Option<Vec<u64>>| list_view(l)) == neighbour_lists(
            objects@,
            quadtree@,
            *boid_params,
        ),
        lists.len() == objects.len(),
{
    let mut lists: Vec<Option<Vec<u64>>> = Vec::new();
    let mut i: usize = 0;
    while i < objects.len()
        invariant
            i <= objects.len(),
            lists.len() == i,
            forall|j: int|
                0 <= j < i ==> list_view(#[trigger] lists@[j]) == neighbour_lists(
                    objects@,
                    quadtree@,
                    *boid_params,
                )[j],
        decreases objects.len() - i,
    {
        let object = objects[i];
        if object.aabb.is_some() {
            lists.push(None);
        } else {
            let mut other_stuff: Vec<u64> = Vec::new();
            quadtree.query(
                &boid_params.view_distance_aabb,
                object.moving_object.position,
                &mut other_stuff,
            );
            assert(other_stuff@ =~= quadtree@.query(
                boid_params.view_distance_aabb,
                object.moving_object.position,
            ));
            lists.push(Some(other_stuff));
        }
        i += 1;
    }
    assert(lists@.map_values(|l: Option<Vec<u64>>| list_view(l)) =~= neighbour_lists(
        objects@,
        quadtree@,
        *boid_params,
    ));
    lists
}

/// Runs one flocking pass with the given draws, `draws[i]` being used up by
/// object `i`. An object without a draw uses the still one.
pub fn move_boids_with(
    objects: &mut Vec<WorldObject>,
    window_halfsize: Extent,
    boid_params: &BoidParameters,
    delta: i32,
    draws: &Vec<Draw>,
)
    ensures
        final(objects)@ == moved(old(objects)@, window_halfsize, *boid_params, delta, draws@),
        all_kept(final(objects)@, old(objects)@),
{
    proof {
        assert(objects@.len() == objects.len());
        assert(usize::MAX <= u64::MAX);
        lemma_pass_keeps(objects@, window_halfsize, *boid_params, delta, draws@);
    }
    let mut entries: Vec<Entry> = Vec::new();
    let mut i: usize = 0;
    while i < objects.len()
        invariant
            i <= objects.len(),
            objects@ == old(objects)@,
            entries@ == world_entries(objects@).take(i as int),
        decreases objects.len() - i,
    {
        let object = objects[i];
        entries.push(
            Entry { id: i as u64, shape: object.aabb, position: object.moving_object.position },
        );
        assert(entries@ =~= world_entries(objects@).take(i + 1));
        i += 1;
    }
    assert(entries@ =~= world_entries(objects@));
    let quadtree = build_quadtree(
        &entries,
        &AABB::new(window_halfsize),
        boid_params.quadtree_capacity,
        FLOCK_TREE_DEPTH,
    );
    let boids = collect_neighbours(objects, &quadtree, boid_params);
    let ghost lists = boids@.map_values(|l: Option<Vec<u64>>| list_view(l));
    let mut to_teleport: Vec<u64> = Vec::new();

    let mut a: usize = 0;
    while a < boids.len()
        invariant
            a <= boids.len(),
            boids.len() == old(objects).len(),
            objects.len() == old(objects).len(),
            lists == boids@.map_values(|l: Option<Vec<u64>>| list_view(l)),
            (objects@, to_teleport@) == flock_moved(
                old(objects)@,
                lists,
                draws@,
                a as nat,
                *boid_params,
                window_halfsize,
                delta,
            ),
        decreases boids.len() - a,
    {
        assert(lists[a as int] == list_view(boids@[a as int]));
        let draw = if a < draws.len() {
            draws[a]
        } else {
            Draw {
                respawn: Respawn { position: Vec2 { x: 0, y: 0 }, velocity: Vec2 { x: 0, y: 0 } },
                jitter: Vec2 { x: 0, y: 0 },
            }
        };
        match &boids[a] {
            Some(others) => {
                move_boid(
                    objects,
                    &mut to_teleport,
                    a,
                    others,
                    boid_params,
                    window_halfsize,
                    delta,
                    &draw,
                );
            },
            None => {},
        }
        a += 1;
    }
}

/// `draws` may come out of the draws that [`move_boids`] makes for the
/// world `objects`: a random one for each boid, the still one for
/// everything else.
pub open spec fn draws_allowed(
    draws: Seq<Draw>,
    objects: Seq<WorldObject>,
    map_aabb: AABB,
    p: BoidParameters,
) -> bool {
    &&& draws.len() == objects.len()
    &&& forall|i: int|
        0 <= i < objects.len() ==> if objects[i].aabb is None {
            respawn_allowed((#[trigger] draws[i]).respawn, map_aabb, p) && jitter_allowed(
                draws[i].jitter,
            )
        } else {
            draws[i] == Draw::still()
        }
}

/// Runs one flocking pass: draws the random numbers of the tick, one set
/// for each boid, and steers every boid with them.
pub fn move_boids(
    objects: &mut Vec<WorldObject>,
    map_aabb: &AABB,
    boid_params: &BoidParameters,
    window_halfsize: Extent,
    delta: i32,
)
    ensures
        all_kept(final(objects)@, old(objects)@),
        exists|draws: Seq<Draw>|
            draws_allowed(draws, old(objects)@, *map_aabb, *boid_params) && final(objects)@
                == moved(old(objects)@, window_halfsize, *boid_params, delta, draws),
{
    let mut draws: Vec<Draw> = Vec::new();
    let mut i: usize = 0;
    while i < objects.len()
        invariant
            i <= objects.len(),
            objects@ == old(objects)@,
            draws.len() == i,
            forall|j: int|
                0 <= j < i ==> if objects@[j].aabb is None {
                    respawn_allowed((#[trigger] draws@[j]).respawn, *map_aabb, *boid_params)
                        && jitter_allowed(draws@[j].jitter)
                } else {
                    draws@[j] == Draw::still()
                },
        decreases objects.len() - i,
    {
        if objects[i].aabb.is_none() {
            let respawn = draw_respawn(map_aabb, boid_params);
            let jitter = draw_jitter();
            draws.push(Draw { respawn, jitter });
        } else {
            draws.push(
                Draw {
                    respawn: Respawn {
                        position: Vec2 { x: 0, y: 0 },
                        velocity: Vec2 { x: 0, y: 0 },
                    },
                    jitter: Vec2 { x: 0, y: 0 },
                },
            );
        }
        i += 1;
    }
    move_boids_with(objects, window_halfsize, boid_params, delta, &draws);
    assert(draws_allowed(draws@, old(objects)@, *map_aabb, *boid_params));
}

/// A boid is told of everything near it: an object that lies strictly
/// inside the viewport and reaches into the boid's view is in the boid's
/// list of neighbours.
pub proof fn lemma_neighbours_complete(
    objects: Seq<WorldObject>,
    window_halfsize: Extent,
    p: BoidParameters,
    i: int,
    j: int,
)
    requires
        0 <= i < objects.len(),
        0 <= j < objects.len(),
        objects.len() <= u64::MAX,
        objects[i].aabb is None,
        QuadtreeModel::leaf(
            AABB { halfsize: window_halfsize },
            Position { value: Vec2 { x: 0, y: 0 } },
            p.quadtree_capacity,
            FLOCK_TREE_DEPTH,
            0,
        ).fits(world_entries(objects)[j]),
        touches(world_entries(objects)[j], p.view_distance_aabb, objects[i].moving_object.position),
    ensures
        neighbour_lists(objects, flock_index(objects, window_halfsize, p), p)[i] matches Some(list)
            && list.contains(j as u64),
{
    let root = QuadtreeModel::leaf(
        AABB { halfsize: window_halfsize },
        Position { value: Vec2 { x: 0, y: 0 } },
        p.quadtree_capacity,
        FLOCK_TREE_DEPTH,
        0,
    );
    let items = world_entries(objects);
    let tree = flock_index(objects, window_halfsize, p);
    lemma_indexed_when_inside(root, items, j);
    lemma_query_complete(tree, p.view_distance_aabb, objects[i].moving_object.position, items[j]);
}

/// What a flocking pass leaves of an object: its box, its mass, speed
/// factor and contacts, and what it was one tick ago. Of an object with a
/// box the motion is left as well. A target may have lost hit points; any
/// other tile is as it was.
pub open spec fn kept(after: WorldObject, before: WorldObject) -> bool {
    &&& after.aabb == before.aabb
    &&& after.moving_object == (MovingObject {
        position: after.moving_object.position,
        velocity: after.moving_object.velocity,
        ..before.moving_object
    })
    &&& before.aabb is Some ==> after.moving_object == before.moving_object
    &&& match before.tile {
        Some(TileType::Target(was)) => after.tile matches Some(TileType::Target(is)) && is <= was,
        other => after.tile == other,
    }
}

/// Every object is kept in the sense of [`kept`].
pub open spec fn all_kept(after: Seq<WorldObject>, before: Seq<WorldObject>) -> bool {
    &&& after.len() == before.len()
    &&& forall|k: int| 0 <= k < before.len() ==> kept(#[trigger] after[k], before[k])
}

/// Every identifier in the list names a boid.
pub open spec fn only_boids(list: Seq<u64>, objects: Seq<WorldObject>) -> bool {
    forall|n: int|
        0 <= n < list.len() ==> (#[trigger] list[n]) < objects.len() && objects[list[n] as int].aabb
            is None
}

/// Meeting a neighbour changes of the boid its position and velocity only,
/// and of the neighbour's tile the hit points of a target only.
pub proof fn lemma_interaction_keeps(
    b_aabb: Option<AABB>,
    a_position: Vec2,
    b_position: Vec2,
    p: BoidParameters,
    final_velocity: Vec2,
    a_velocity: Vec2,
    a: MovingObject,
    delta: i32,
    respawn: Respawn,
    tile: Option<TileType>,
)
    ensures
        ({
            let r = interaction(
                b_aabb,
                a_position,
                b_position,
                p,
                final_velocity,
                a_velocity,
                a,
                delta,
                respawn,
                tile,
            );
            &&& r.1 == (MovingObject { position: r.1.position, velocity: r.1.velocity, ..a })
            &&& match tile {
                Some(TileType::Target(was)) => r.2 matches Some(TileType::Target(is)) && is <= was,
                other => r.2 == other,
            }
            &&& b_aabb is None ==> r.2 == tile
        }),
{
}

/// One meeting keeps every object.
pub proof fn lemma_met_keeps(
    start: Seq<WorldObject>,
    objects: Seq<WorldObject>,
    s: Steering,
    a: int,
    b: int,
    to_teleport: Seq<u64>,
    p: BoidParameters,
    delta: i32,
    respawn: Respawn,
)
    requires
        all_kept(objects, start),
        only_boids(to_teleport, start),
        0 <= a < start.len(),
        start.len() <= u64::MAX,
        start[a].aabb is None,
    ensures
        all_kept(met(objects, s, a, b, to_teleport, p, delta, respawn).0, start),
{
    if a == b || !(0 <= b < objects.len()) {
    } else {
        let first = objects[a];
        let snap = to_teleport.contains(b as u64) && s.boids_amount >= CROWDED;
        let second = if snap {
            WorldObject {
                moving_object: MovingObject {
                    position: first.moving_object.position,
                    ..objects[b].moving_object
                },
                ..objects[b]
            }
        } else {
            objects[b]
        };
        if snap {
            let n = choose|n: int| 0 <= n < to_teleport.len() && to_teleport[n] == b as u64;
            assert(start[to_teleport[n] as int].aabb is None);
            assert(objects[b].aabb is None) by {
                assert(kept(objects[b], start[b]));
            }
        }
        lemma_interaction_keeps(
            second.aabb,
            first.moving_object.position.value,
            second.moving_object.position.value,
            p,
            s.final_velocity,
            first.moving_object.velocity.value,
            first.moving_object,
            delta,
            respawn,
            second.tile,
        );
        let after = met(objects, s, a, b, to_teleport, p, delta, respawn).0;
        assert forall|k: int| 0 <= k < start.len() implies kept(#[trigger] after[k], start[k]) by {
            assert(kept(objects[k], start[k]));
        }
    }
}

/// Any number of meetings keeps every object.
pub proof fn lemma_met_all_keeps(
    start: Seq<WorldObject>,
    objects: Seq<WorldObject>,
    s: Steering,
    a: int,
    others: Seq<u64>,
    n: nat,
    to_teleport: Seq<u64>,
    p: BoidParameters,
    delta: i32,
    respawn: Respawn,
)
    requires
        all_kept(objects, start),
        only_boids(to_teleport, start),
        0 <= a < start.len(),
        start.len() <= u64::MAX,
        start[a].aabb is None,
    ensures
        all_kept(met_all(objects, s, a, others, n, to_teleport, p, delta, respawn).0, start),
    decreases n,
{
    if n == 0 || n > others.len() {
    } else {
        lemma_met_all_keeps(
            start,
            objects,
            s,
            a,
            others,
            (n - 1) as nat,
            to_teleport,
            p,
            delta,
            respawn,
        );
        let before = met_all(objects, s, a, others, (n - 1) as nat, to_teleport, p, delta, respawn);
        lemma_met_keeps(
            start,
            before.0,
            before.1,
            a,
            others[n - 1] as int,
            to_teleport,
            p,
            delta,
            respawn,
        );
    }
}

/// The turn of a boid keeps every object, and the list of lonely boids
/// still names boids only.
pub proof fn lemma_boid_moved_keeps(
    start: Seq<WorldObject>,
    objects: Seq<WorldObject>,
    to_teleport: Seq<u64>,
    a: int,
    others: Seq<u64>,
    p: BoidParameters,
    window_halfsize: Extent,
    delta: i32,
    draw: Draw,
)
    requires
        all_kept(objects, start),
        only_boids(to_teleport, start),
        0 <= a < start.len(),
        start.len() <= u64::MAX,
        start[a].aabb is None,
    ensures
        all_kept(
            boid_moved(objects, to_teleport, a, others, p, window_halfsize, delta, draw).0,
            start,
        ),
        only_boids(
            boid_moved(objects, to_teleport, a, others, p, window_halfsize, delta, draw).1,
            start,
        ),
{
    lemma_met_all_keeps(
        start,
        objects,
        Steering::none(),
        a,
        others,
        others.len(),
        to_teleport,
        p,
        delta,
        draw.respawn,
    );
    let after = met_all(
        objects,
        Steering::none(),
        a,
        others,
        others.len(),
        to_teleport,
        p,
        delta,
        draw.respawn,
    );
    let r = boid_moved(objects, to_teleport, a, others, p, window_halfsize, delta, draw);
    assert forall|k: int| 0 <= k < start.len() implies kept(#[trigger] r.0[k], start[k]) by {
        assert(kept(after.0[k], start[k]));
    }
    assert forall|n: int| 0 <= n < r.1.len() implies (#[trigger] r.1[n]) < start.len()
        && start[r.1[n] as int].aabb is None by {
        if n < to_teleport.len() {
            assert(r.1[n] == to_teleport[n]);
        }
    }
}

/// The turns of the first `k` objects keep every object.
pub proof fn lemma_flock_moved_keeps(
    objects: Seq<WorldObject>,
    lists: Seq<Option<Seq<u64>>>,
    draws: Seq<Draw>,
    k: nat,
    p: BoidParameters,
    window_halfsize: Extent,
    delta: i32,
)
    requires
        objects.len() <= u64::MAX,
        lists.len() == objects.len(),
        forall|i: int| 0 <= i < lists.len() ==> ((#[trigger] lists[i]) is Some) == (objects[i].aabb
            is None),
    ensures
        all_kept(flock_moved(objects, lists, draws, k, p, window_halfsize, delta).0, objects),
        only_boids(flock_moved(objects, lists, draws, k, p, window_halfsize, delta).1, objects),
    decreases k,
{
    if k == 0 || k > lists.len() {
    } else {
        lemma_flock_moved_keeps(objects, lists, draws, (k - 1) as nat, p, window_halfsize, delta);
        let before = flock_moved(objects, lists, draws, (k - 1) as nat, p, window_halfsize, delta);
        match lists[k - 1] {
            Some(others) => {
                lemma_boid_moved_keeps(
                    objects,
                    before.0,
                    before.1,
                    k - 1,
                    others,
                    p,
                    window_halfsize,
                    delta,
                    draw_at(draws, k - 1),
                );
            },
            None => {},
        }
    }
}

/// A flocking pass keeps the number of objects and, of each object, what
/// [`kept`] names: it moves and steers boids, takes hit points from
/// targets, and leaves everything else as it was.
pub proof fn lemma_pass_keeps(
    objects: Seq<WorldObject>,
    window_halfsize: Extent,
    p: BoidParameters,
    delta: i32,
    draws: Seq<Draw>,
)
    requires
        objects.len() <= u64::MAX,
    ensures
        all_kept(moved(objects, window_halfsize, p, delta, draws), objects),
{
    let lists = neighbour_lists(objects, flock_index(objects, window_halfsize, p), p);
    lemma_flock_moved_keeps(objects, lists, draws, objects.len(), p, window_halfsize, delta);
}


/// Meeting nobody but oneself changes nothing.
pub proof fn lemma_meeting_oneself(
    objects: Seq<WorldObject>,
    s: Steering,
    a: int,
    others: Seq<u64>,
    n: nat,
    to_teleport: Seq<u64>,
    p: BoidParameters,
    delta: i32,
    respawn: Respawn,
)
    requires
        n <= others.len(),
        forall|i: int| 0 <= i < n ==> (#[trigger] others[i]) as int == a,
    ensures
        met_all(objects, s, a, others, n, to_teleport, p, delta, respawn) == (objects, s),
    decreases n,
{
    if n > 0 {
        lemma_meeting_oneself(
            objects,
            s,
            a,
            others,
            (n - 1) as nat,
            to_teleport,
            p,
            delta,
            respawn,
        );
        assert(others[n - 1] as int == a);
    }
}

/// What steers a boid that has met nobody: the push from the edges of the
/// viewport, held within the speed limits, and the jitter. There is no
/// separation, no cohesion and no alignment in it.
pub open spec fn lone_steering(
    a_position: Vec2,
    p: BoidParameters,
    window_halfsize: Extent,
    drawn: Vec2,
) -> Vec2 {
    added(
        clamped_speed(
            added(
                Vec2 { x: 0, y: 0 },
                edge_push(
                    a_position.x as int,
                    window_halfsize.x as int,
                    p.edge_avoidance_distance as int,
                    p.edge_avoidance_strength as int,
                ),
                edge_push(
                    a_position.y as int,
                    window_halfsize.y as int,
                    p.edge_avoidance_distance as int,
                    p.edge_avoidance_strength as int,
                ),
            ),
            p,
        ),
        jitter(drawn.x as int, p),
        jitter(drawn.y as int, p),
    )
}

/// A lone boid, one whose list of neighbours names nobody but itself, keeps
/// its position, is noted as lonely, and gains nothing but the lone
/// steering: no other object is touched.
pub proof fn lemma_lone_boid(
    objects: Seq<WorldObject>,
    to_teleport: Seq<u64>,
    a: int,
    others: Seq<u64>,
    p: BoidParameters,
    window_halfsize: Extent,
    delta: i32,
    draw: Draw,
)
    requires
        0 <= a < objects.len(),
        forall|i: int| 0 <= i < others.len() ==> (#[trigger] others[i]) as int == a,
    ensures
        boid_moved(objects, to_teleport, a, others, p, window_halfsize, delta, draw).0
            == objects.update(
            a,
            WorldObject {
                moving_object: MovingObject {
                    velocity: Velocity {
                        value: accelerated(
                            objects[a].moving_object.velocity.value,
                            lone_steering(
                                objects[a].moving_object.position.value,
                                p,
                                window_halfsize,
                                draw.jitter,
                            ),
                            p,
                        ),
                    },
                    ..objects[a].moving_object
                },
                ..objects[a]
            },
        ),
        boid_moved(objects, to_teleport, a, others, p, window_halfsize, delta, draw).1
            == to_teleport.push(a as u64),
{
    lemma_meeting_oneself(
        objects,
        Steering::none(),
        a,
        others,
        others.len(),
        to_teleport,
        p,
        delta,
        draw.respawn,
    );
    let own = objects[a];
    assert(steered(
        Steering::none(),
        own.moving_object.position.value,
        own.moving_object.velocity.value,
        p,
        window_halfsize,
        draw.jitter,
    ) == lone_steering(own.moving_object.position.value, p, window_halfsize, draw.jitter));
}

} // verus!

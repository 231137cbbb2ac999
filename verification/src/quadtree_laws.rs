//! What holds of every well-formed quadtree: insertion keeps the shape and
//! adds exactly one entry, a query misses nothing that reaches into its
//! range, and the four quarters of a node partition it.

use vstd::prelude::*;
use vstd::multiset::Multiset;
use vstd::seq_lib::{
    lemma_multiset_commutative, to_multiset_build, to_multiset_contains, to_multiset_insert,
    to_multiset_remove,
};
use crate::physics::{Position, AABB};
use crate::quadtree::{ids, touches, Entry, QuadtreeModel};

verus! {

/// The entries of a tree without their order.
pub open spec fn bag(t: QuadtreeModel) -> Multiset<Entry> {
    t.entries().to_multiset()
}

/// The entries of a child that may be absent, without their order.
pub open spec fn bag_of(child: Option<Box<QuadtreeModel>>) -> Multiset<Entry> {
    QuadtreeModel::entries_of(child).to_multiset()
}

/// The entries of a tree are those of the node and of its four subtrees.
pub proof fn lemma_bag_parts(t: QuadtreeModel)
    ensures
        bag(t) == t.objects.to_multiset().add(bag_of(t.nw)).add(bag_of(t.ne)).add(bag_of(t.sw)).add(
            bag_of(t.se),
        ),
{
    let a = t.objects;
    let b = QuadtreeModel::entries_of(t.nw);
    let c = QuadtreeModel::entries_of(t.ne);
    let d = QuadtreeModel::entries_of(t.sw);
    let e = QuadtreeModel::entries_of(t.se);
    lemma_multiset_commutative(a, b);
    lemma_multiset_commutative(a + b, c);
    lemma_multiset_commutative(a + b + c, d);
    lemma_multiset_commutative(a + b + c + d, e);
}

/// A leaf without objects has no entries.
pub proof fn lemma_leaf_is_empty(t: QuadtreeModel)
    requires
        t.objects.len() == 0,
        t.nw is None,
        t.ne is None,
        t.sw is None,
        t.se is None,
    ensures
        t.entries() =~= Seq::<Entry>::empty(),
        bag(t) =~= Multiset::<Entry>::empty(),
{
    assert(t.entries() =~= Seq::<Entry>::empty());
    t.entries().to_multiset_ensures();
}

/// A freshly split node is well formed and empty.
pub proof fn lemma_fresh(t: QuadtreeModel)
    requires
        t.depth < t.max_depth,
    ensures
        t.fresh().wf(),
        t.fresh().divided,
        t.fresh().same_frame(t),
        bag(t.fresh()) =~= Multiset::<Entry>::empty(),
{
    let f = t.fresh();
    let nw = t.quadrant(false, true);
    let ne = t.quadrant(true, true);
    let sw = t.quadrant(false, false);
    let se = t.quadrant(true, false);
    assert(nw.wf() && ne.wf() && sw.wf() && se.wf());
    assert(nw.is_quadrant_of(f, false, true));
    assert(ne.is_quadrant_of(f, true, true));
    assert(sw.is_quadrant_of(f, false, false));
    assert(se.is_quadrant_of(f, true, false));
    assert(QuadtreeModel::child_wf(f.nw, f, false, true));
    assert(QuadtreeModel::child_wf(f.ne, f, true, true));
    assert(QuadtreeModel::child_wf(f.sw, f, false, false));
    assert(QuadtreeModel::child_wf(f.se, f, true, false));
    lemma_leaf_is_empty(nw);
    lemma_leaf_is_empty(ne);
    lemma_leaf_is_empty(sw);
    lemma_leaf_is_empty(se);
    lemma_bag_parts(f);
    f.objects.to_multiset_ensures();
    assert(f.objects.to_multiset() =~= Multiset::<Entry>::empty());
}

/// Adding an object at the node adds it to the entries.
proof fn lemma_with_object_bag(t: QuadtreeModel, e: Entry)
    ensures
        bag(t.with_object(e)) =~= bag(t).insert(e),
{
    lemma_bag_parts(t);
    lemma_bag_parts(t.with_object(e));
    to_multiset_build(t.objects, e);
}

/// Insertion keeps a tree well formed, leaves its place and limits alone,
/// and adds the entry exactly when it fits the boundary.
pub proof fn lemma_insert_within(t: QuadtreeModel, e: Entry, d: nat)
    requires
        t.wf(),
        d == t.budget(),
    ensures
        t.insert_within(e, d).wf(),
        t.insert_within(e, d).same_frame(t),
        t.divided ==> t.insert_within(e, d).divided,
        t.fits(e) ==> bag(t.insert_within(e, d)) =~= bag(t).insert(e),
        !t.fits(e) ==> t.insert_within(e, d) == t,
    decreases d, 2nat, 0nat,
{
    if !t.fits(e) {
    } else if !t.divided {
        if t.objects.len() < t.capacity || t.depth >= t.max_depth || d == 0 {
            lemma_with_object_bag(t, e);
        } else {
            lemma_fresh(t);
            let f = t.fresh();
            lemma_refill(f, t.objects, t.objects.len(), d);
            let g = f.refill(t.objects, t.objects.len(), d);
            lemma_place(g, e, d);
            lemma_leaf_bag(t);
            assert(t.objects.take(t.objects.len() as int) =~= t.objects);
        }
    } else {
        lemma_place(t, e, d);
    }
}

/// The entries of a leaf are the objects it holds.
proof fn lemma_leaf_bag(t: QuadtreeModel)
    requires
        t.nw is None,
        t.ne is None,
        t.sw is None,
        t.se is None,
    ensures
        t.entries() =~= t.objects,
{
}

/// Handing objects that fit down into a split node keeps it well formed and
/// adds exactly those objects.
pub proof fn lemma_refill(t: QuadtreeModel, objects: Seq<Entry>, n: nat, d: nat)
    requires
        t.wf(),
        t.divided,
        d == t.budget(),
        n <= objects.len(),
        forall|i: int| 0 <= i < n ==> t.fits(#[trigger] objects[i]),
    ensures
        t.refill(objects, n, d).wf(),
        t.refill(objects, n, d).same_frame(t),
        t.refill(objects, n, d).divided,
        bag(t.refill(objects, n, d)) =~= bag(t).add(objects.take(n as int).to_multiset()),
    decreases d, 1nat, n,
{
    if n == 0 {
        objects.take(0).to_multiset_ensures();
        assert(objects.take(0).to_multiset() =~= Multiset::<Entry>::empty());
    } else {
        let m = (n - 1) as nat;
        lemma_refill(t, objects, m, d);
        let g = t.refill(objects, m, d);
        lemma_place(g, objects[n - 1], d);
        assert(objects.take(n as int) =~= objects.take(m as int).push(objects[n - 1]));
        to_multiset_build(objects.take(m as int), objects[n - 1]);
    }
}

/// Placing an object that fits a split node keeps it well formed and adds
/// exactly that object.
pub proof fn lemma_place(t: QuadtreeModel, e: Entry, d: nat)
    requires
        t.wf(),
        t.divided,
        t.fits(e),
        d == t.budget(),
    ensures
        t.place(e, d).wf(),
        t.place(e, d).same_frame(t),
        t.place(e, d).divided,
        bag(t.place(e, d)) =~= bag(t).insert(e),
    decreases d, 0nat, 0nat,
{
    let r = t.place(e, d);
    assert(d > 0);
    assert(QuadtreeModel::child_wf(t.nw, t, false, true));
    assert(QuadtreeModel::child_wf(t.ne, t, true, true));
    assert(QuadtreeModel::child_wf(t.sw, t, false, false));
    assert(QuadtreeModel::child_wf(t.se, t, true, false));
    let nw = t.nw->0;
    let ne = t.ne->0;
    let sw = t.sw->0;
    let se = t.se->0;
    let c = (d - 1) as nat;
    lemma_bag_parts(t);
    lemma_bag_parts(r);
    if nw.fits(e) {
        lemma_insert_within(*nw, e, c);
    } else if ne.fits(e) {
        lemma_insert_within(*ne, e, c);
    } else if sw.fits(e) {
        lemma_insert_within(*sw, e, c);
    } else if se.fits(e) {
        lemma_insert_within(*se, e, c);
    } else {
        to_multiset_build(t.objects, e);
    }
    assert(QuadtreeModel::child_wf(r.nw, r, false, true));
    assert(QuadtreeModel::child_wf(r.ne, r, true, true));
    assert(QuadtreeModel::child_wf(r.sw, r, false, false));
    assert(QuadtreeModel::child_wf(r.se, r, true, false));
}

/// An element of a concatenation comes from one of its two parts.
proof fn lemma_concat_contains<A>(a: Seq<A>, b: Seq<A>, x: A)
    ensures
        (a + b).contains(x) == (a.contains(x) || b.contains(x)),
{
    if a.contains(x) {
        let i = choose|i: int| 0 <= i < a.len() && a[i] == x;
        assert((a + b)[i] == x);
    }
    if b.contains(x) {
        let i = choose|i: int| 0 <= i < b.len() && b[i] == x;
        assert((a + b)[a.len() + i] == x);
    }
    if (a + b).contains(x) {
        let i = choose|i: int| 0 <= i < (a + b).len() && (a + b)[i] == x;
        if i < a.len() {
            assert(a[i] == x);
        } else {
            assert(b[i - a.len()] == x);
        }
    }
}

/// An entry is among the entries of a tree exactly if the node holds it or
/// one of the four subtrees has it.
pub proof fn lemma_entries_contains(t: QuadtreeModel, e: Entry)
    ensures
        t.entries().contains(e) == (t.objects.contains(e) || QuadtreeModel::entries_of(
            t.nw,
        ).contains(e) || QuadtreeModel::entries_of(t.ne).contains(e) || QuadtreeModel::entries_of(
            t.sw,
        ).contains(e) || QuadtreeModel::entries_of(t.se).contains(e)),
{
    let a = t.objects;
    let b = QuadtreeModel::entries_of(t.nw);
    let c = QuadtreeModel::entries_of(t.ne);
    let d = QuadtreeModel::entries_of(t.sw);
    let f = QuadtreeModel::entries_of(t.se);
    lemma_concat_contains(a, b, e);
    lemma_concat_contains(a + b, c, e);
    lemma_concat_contains(a + b + c, d, e);
    lemma_concat_contains(a + b + c + d, f, e);
}

/// What fits a quarter of a node fits the node.
pub proof fn lemma_quadrant_inside(t: QuadtreeModel, east: bool, north: bool, e: Entry)
    requires
        t.quadrant(east, north).fits(e),
    ensures
        t.fits(e),
{
}

/// Every entry of a well-formed tree lies strictly inside the boundary of
/// the root.
pub proof fn lemma_entries_fit(t: QuadtreeModel, e: Entry)
    requires
        t.wf(),
        t.entries().contains(e),
    ensures
        t.fits(e),
    decreases t,
{
    lemma_entries_contains(t, e);
    if t.objects.contains(e) {
    } else if t.divided {
        assert(QuadtreeModel::child_wf(t.nw, t, false, true));
        assert(QuadtreeModel::child_wf(t.ne, t, true, true));
        assert(QuadtreeModel::child_wf(t.sw, t, false, false));
        assert(QuadtreeModel::child_wf(t.se, t, true, false));
        if QuadtreeModel::entries_of(t.nw).contains(e) {
            lemma_entries_fit(*t.nw->0, e);
            lemma_quadrant_inside(t, false, true, e);
        } else if QuadtreeModel::entries_of(t.ne).contains(e) {
            lemma_entries_fit(*t.ne->0, e);
            lemma_quadrant_inside(t, true, true, e);
        } else if QuadtreeModel::entries_of(t.sw).contains(e) {
            lemma_entries_fit(*t.sw->0, e);
            lemma_quadrant_inside(t, false, false, e);
        } else {
            lemma_entries_fit(*t.se->0, e);
            lemma_quadrant_inside(t, true, false, e);
        }
    } else {
    }
}

/// A query reports only identifiers of entries of the tree.
pub proof fn lemma_query_sound(t: QuadtreeModel, range: AABB, position: Position, id: u64)
    requires
        t.query(range, position).contains(id),
    ensures
        ids(t.entries()).contains(id),
    decreases t,
{
    let a = ids(t.objects);
    let b = QuadtreeModel::query_of(t.nw, range, position);
    let c = QuadtreeModel::query_of(t.ne, range, position);
    let d = QuadtreeModel::query_of(t.sw, range, position);
    let f = QuadtreeModel::query_of(t.se, range, position);
    lemma_concat_contains(a, b, id);
    lemma_concat_contains(a + b, c, id);
    lemma_concat_contains(a + b + c, d, id);
    lemma_concat_contains(a + b + c + d, f, id);
    lemma_ids_of_entries(t);
    let ea = ids(t.objects);
    let eb = ids(QuadtreeModel::entries_of(t.nw));
    let ec = ids(QuadtreeModel::entries_of(t.ne));
    let ed = ids(QuadtreeModel::entries_of(t.sw));
    let ef = ids(QuadtreeModel::entries_of(t.se));
    lemma_concat_contains(ea, eb, id);
    lemma_concat_contains(ea + eb, ec, id);
    lemma_concat_contains(ea + eb + ec, ed, id);
    lemma_concat_contains(ea + eb + ec + ed, ef, id);
    if a.contains(id) {
    } else if b.contains(id) {
        lemma_query_sound(*t.nw->0, range, position, id);
    } else if c.contains(id) {
        lemma_query_sound(*t.ne->0, range, position, id);
    } else if d.contains(id) {
        lemma_query_sound(*t.sw->0, range, position, id);
    } else {
        lemma_query_sound(*t.se->0, range, position, id);
    }
}

/// The identifiers of a tree's entries are those of the node followed by
/// those of the four subtrees.
pub proof fn lemma_ids_of_entries(t: QuadtreeModel)
    ensures
        ids(t.entries()) =~= ids(t.objects) + ids(QuadtreeModel::entries_of(t.nw)) + ids(
            QuadtreeModel::entries_of(t.ne),
        ) + ids(QuadtreeModel::entries_of(t.sw)) + ids(QuadtreeModel::entries_of(t.se)),
{
}

/// A query misses nothing: the identifier of every entry whose box or point
/// reaches into the range is reported.
pub proof fn lemma_query_complete(t: QuadtreeModel, range: AABB, position: Position, e: Entry)
    requires
        t.wf(),
        t.entries().contains(e),
        touches(e, range, position),
    ensures
        t.query(range, position).contains(e.id),
    decreases t,
{
    lemma_entries_fit(t, e);
    lemma_entries_contains(t, e);
    assert(t.boundary.overlaps(t.center, range, position));
    let a = ids(t.objects);
    let b = QuadtreeModel::query_of(t.nw, range, position);
    let c = QuadtreeModel::query_of(t.ne, range, position);
    let d = QuadtreeModel::query_of(t.sw, range, position);
    let f = QuadtreeModel::query_of(t.se, range, position);
    lemma_concat_contains(a, b, e.id);
    lemma_concat_contains(a + b, c, e.id);
    lemma_concat_contains(a + b + c, d, e.id);
    lemma_concat_contains(a + b + c + d, f, e.id);
    if t.objects.contains(e) {
        let i = choose|i: int| 0 <= i < t.objects.len() && t.objects[i] == e;
        assert(a[i] == e.id);
    } else if t.divided {
        assert(QuadtreeModel::child_wf(t.nw, t, false, true));
        assert(QuadtreeModel::child_wf(t.ne, t, true, true));
        assert(QuadtreeModel::child_wf(t.sw, t, false, false));
        assert(QuadtreeModel::child_wf(t.se, t, true, false));
        if QuadtreeModel::entries_of(t.nw).contains(e) {
            lemma_query_complete(*t.nw->0, range, position, e);
        } else if QuadtreeModel::entries_of(t.ne).contains(e) {
            lemma_query_complete(*t.ne->0, range, position, e);
        } else if QuadtreeModel::entries_of(t.sw).contains(e) {
            lemma_query_complete(*t.sw->0, range, position, e);
        } else {
            lemma_query_complete(*t.se->0, range, position, e);
        }
    } else {
    }
}

/// A node whose boundary has no width or no height holds nothing, and no
/// query reports anything from it.
pub proof fn lemma_flat_node_is_empty(t: QuadtreeModel, range: AABB, position: Position)
    requires
        t.wf(),
        t.boundary.halfsize.x == 0 || t.boundary.halfsize.y == 0,
    ensures
        t.entries() =~= Seq::<Entry>::empty(),
        t.query(range, position) =~= Seq::<u64>::empty(),
    decreases t,
{
    if t.objects.len() > 0 {
        assert(t.fits(t.objects[0]));
    }
    if t.divided {
        assert(QuadtreeModel::child_wf(t.nw, t, false, true));
        assert(QuadtreeModel::child_wf(t.ne, t, true, true));
        assert(QuadtreeModel::child_wf(t.sw, t, false, false));
        assert(QuadtreeModel::child_wf(t.se, t, true, false));
        lemma_flat_node_is_empty(*t.nw->0, range, position);
        lemma_flat_node_is_empty(*t.ne->0, range, position);
        lemma_flat_node_is_empty(*t.sw->0, range, position);
        lemma_flat_node_is_empty(*t.se->0, range, position);
    }
}

/// The box of the tree's root lies within the box `range` at `position`,
/// edges included.
pub open spec fn covered_by(t: QuadtreeModel, range: AABB, position: Position) -> bool {
    &&& position.value.x - range.halfsize.x <= t.center.value.x - t.boundary.halfsize.x
    &&& t.center.value.x + t.boundary.halfsize.x <= position.value.x + range.halfsize.x
    &&& position.value.y - range.halfsize.y <= t.center.value.y - t.boundary.halfsize.y
    &&& t.center.value.y + t.boundary.halfsize.y <= position.value.y + range.halfsize.y
}

/// A query whose range covers the whole tree reports every entry, in the
/// order of the entries.
pub proof fn lemma_query_covering(t: QuadtreeModel, range: AABB, position: Position)
    requires
        t.wf(),
        covered_by(t, range, position),
    ensures
        t.query(range, position) =~= ids(t.entries()),
    decreases t,
{
    if t.boundary.halfsize.x == 0 || t.boundary.halfsize.y == 0 {
        lemma_flat_node_is_empty(t, range, position);
    } else {
        assert(t.boundary.overlaps(t.center, range, position));
        lemma_ids_of_entries(t);
        if t.divided {
            assert(QuadtreeModel::child_wf(t.nw, t, false, true));
            assert(QuadtreeModel::child_wf(t.ne, t, true, true));
            assert(QuadtreeModel::child_wf(t.sw, t, false, false));
            assert(QuadtreeModel::child_wf(t.se, t, true, false));
            lemma_query_covering(*t.nw->0, range, position);
            lemma_query_covering(*t.ne->0, range, position);
            lemma_query_covering(*t.sw->0, range, position);
            lemma_query_covering(*t.se->0, range, position);
        } else {
        }
    }
}

/// A query for the tree's own boundary reports every entry of the tree:
/// all that was ever inserted and lay inside the boundary.
pub proof fn lemma_query_own_boundary(t: QuadtreeModel)
    requires
        t.wf(),
    ensures
        t.query(t.boundary, t.center) =~= ids(t.entries()),
{
    lemma_query_covering(t, t.boundary, t.center);
}

/// The point `(x, y)` lies in the box, edges included.
pub open spec fn covers(boundary: AABB, center: Position, x: int, y: int) -> bool {
    &&& center.value.x - boundary.halfsize.x <= x <= center.value.x + boundary.halfsize.x
    &&& center.value.y - boundary.halfsize.y <= y <= center.value.y + boundary.halfsize.y
}

/// The centres of the four quarters of a node are representable
/// coordinates.
pub open spec fn quarters_representable(t: QuadtreeModel) -> bool {
    &&& i32::MIN <= t.center.value.x - t.boundary.halfsize.x / 2
    &&& t.center.value.x + t.boundary.halfsize.x / 2 <= i32::MAX
    &&& i32::MIN <= t.center.value.y - t.boundary.halfsize.y / 2
    &&& t.center.value.y + t.boundary.halfsize.y / 2 <= i32::MAX
}

/// The boundary of a node can be halved exactly.
pub open spec fn splits_evenly(t: QuadtreeModel) -> bool {
    &&& t.boundary.halfsize.x % 2 == 0
    &&& t.boundary.halfsize.y % 2 == 0
}

/// After a node subdivides, its four children are its four quarters.
pub proof fn lemma_subdivision_makes_quarters(t: QuadtreeModel)
    requires
        t.wf(),
        t.depth < t.max_depth,
    ensures
        t.subdivide().wf(),
        t.subdivide().divided,
        t.subdivide().nw is Some && t.subdivide().nw->0.is_quadrant_of(t, false, true),
        t.subdivide().ne is Some && t.subdivide().ne->0.is_quadrant_of(t, true, true),
        t.subdivide().sw is Some && t.subdivide().sw->0.is_quadrant_of(t, false, false),
        t.subdivide().se is Some && t.subdivide().se->0.is_quadrant_of(t, true, false),
{
    lemma_fresh(t);
    lemma_refill(t.fresh(), t.objects, t.objects.len(), t.budget());
    let s = t.subdivide();
    assert(QuadtreeModel::child_wf(s.nw, s, false, true));
    assert(QuadtreeModel::child_wf(s.ne, s, true, true));
    assert(QuadtreeModel::child_wf(s.sw, s, false, false));
    assert(QuadtreeModel::child_wf(s.se, s, true, false));
}

/// No two quarters of a node overlap: they share edges only.
pub proof fn lemma_quarters_disjoint(t: QuadtreeModel, e1: bool, n1: bool, e2: bool, n2: bool)
    requires
        quarters_representable(t),
        e1 != e2 || n1 != n2,
    ensures
        !t.quadrant(e1, n1).boundary.overlaps(
            t.quadrant(e1, n1).center,
            t.quadrant(e2, n2).boundary,
            t.quadrant(e2, n2).center,
        ),
{
}

/// The quarters of a node lie within the node, and where its boundary can
/// be halved exactly they cover it: a point lies in the node's box exactly
/// if it lies in the box of one of the quarters.
pub proof fn lemma_quarters_cover(t: QuadtreeModel, x: int, y: int)
    requires
        quarters_representable(t),
    ensures
        (covers(t.quadrant(false, true).boundary, t.quadrant(false, true).center, x, y) || covers(
            t.quadrant(true, true).boundary,
            t.quadrant(true, true).center,
            x,
            y,
        ) || covers(t.quadrant(false, false).boundary, t.quadrant(false, false).center, x, y)
            || covers(t.quadrant(true, false).boundary, t.quadrant(true, false).center, x, y))
            ==> covers(t.boundary, t.center, x, y),
        splits_evenly(t) && covers(t.boundary, t.center, x, y) ==> (covers(
            t.quadrant(false, true).boundary,
            t.quadrant(false, true).center,
            x,
            y,
        ) || covers(t.quadrant(true, true).boundary, t.quadrant(true, true).center, x, y) || covers(
            t.quadrant(false, false).boundary,
            t.quadrant(false, false).center,
            x,
            y,
        ) || covers(t.quadrant(true, false).boundary, t.quadrant(true, false).center, x, y)),
{
}

/// Two runs of entries that differ only in order have the same identifiers,
/// up to order.
pub proof fn lemma_ids_of_permutation(a: Seq<Entry>, b: Seq<Entry>)
    requires
        a.to_multiset() =~= b.to_multiset(),
    ensures
        ids(a).to_multiset() =~= ids(b).to_multiset(),
    decreases a.len(),
{
    a.to_multiset_ensures();
    b.to_multiset_ensures();
    if a.len() == 0 {
        assert(ids(a) =~= ids(b));
    } else {
        let x = a.last();
        let k = a.len() - 1;
        assert(a[k] == x);
        to_multiset_contains(a, x);
        to_multiset_contains(b, x);
        let j = choose|j: int| 0 <= j < b.len() && b[j] == x;
        let a1 = a.remove(k);
        let b1 = b.remove(j);
        to_multiset_remove(a, k);
        to_multiset_remove(b, j);
        lemma_ids_of_permutation(a1, b1);
        assert(ids(a) =~= ids(a1).insert(k, x.id));
        assert(ids(b) =~= ids(b1).insert(j, x.id));
        to_multiset_insert(ids(a1), k, x.id);
        to_multiset_insert(ids(b1), j, x.id);
    }
}

/// The items among the first `n` of `items` that lie strictly inside the
/// boundary of `root`.
pub open spec fn accepted(root: QuadtreeModel, items: Seq<Entry>, n: nat) -> Seq<Entry> {
    items.take(n as int).filter(|e: Entry| root.fits(e))
}

/// Offering items one by one keeps a tree well formed and adds exactly the
/// items that lie strictly inside its boundary.
pub proof fn lemma_filled(root: QuadtreeModel, items: Seq<Entry>, n: nat)
    requires
        root.wf(),
        n <= items.len(),
    ensures
        root.filled(items, n).wf(),
        root.filled(items, n).same_frame(root),
        bag(root.filled(items, n)) =~= bag(root).add(accepted(root, items, n).to_multiset()),
    decreases n,
{
    if n == 0 {
        assert(items.take(0) =~= Seq::<Entry>::empty());
        assert(accepted(root, items, 0) =~= Seq::<Entry>::empty()) by {
            items.take(0).lemma_filter_len(|e: Entry| root.fits(e));
        }
        accepted(root, items, 0).to_multiset_ensures();
        assert(accepted(root, items, 0).to_multiset() =~= Multiset::<Entry>::empty());
    } else {
        let m = (n - 1) as nat;
        let x = items[n - 1];
        lemma_filled(root, items, m);
        let t = root.filled(items, m);
        lemma_insert_within(t, x, t.budget());
        assert(items.take(n as int) =~= items.take(m as int).push(x));
        items.take(m as int).lemma_filter_push(x, |e: Entry| root.fits(e));
        if root.fits(x) {
            to_multiset_build(accepted(root, items, m), x);
        }
    }
}

/// Once a tree was built from items, a query for its own boundary reports
/// exactly the identifiers of the items that lay strictly inside the
/// boundary when they were offered, whatever the order.
pub proof fn lemma_query_reports_all_accepted(root: QuadtreeModel, items: Seq<Entry>)
    requires
        root.wf(),
        root.entries().len() == 0,
    ensures
        root.filled(items, items.len()).query(root.boundary, root.center).to_multiset() =~= ids(
            accepted(root, items, items.len()),
        ).to_multiset(),
{
    let t = root.filled(items, items.len());
    lemma_filled(root, items, items.len());
    lemma_query_own_boundary(t);
    root.entries().to_multiset_ensures();
    assert(bag(root) =~= Multiset::<Entry>::empty());
    lemma_ids_of_permutation(t.entries(), accepted(root, items, items.len()));
}

/// An item that lies strictly inside the boundary of an empty tree is among
/// the entries of the tree built from the items.
pub proof fn lemma_indexed_when_inside(root: QuadtreeModel, items: Seq<Entry>, j: int)
    requires
        root.wf(),
        root.entries().len() == 0,
        0 <= j < items.len(),
        root.fits(items[j]),
    ensures
        root.filled(items, items.len()).entries().contains(items[j]),
        root.filled(items, items.len()).wf(),
{
    let tree = root.filled(items, items.len());
    let e = items[j];
    let fits = |e: Entry| root.fits(e);
    lemma_filled(root, items, items.len());
    assert(items.take(items.len() as int) =~= items);
    items.lemma_filter_contains(fits, j);
    assert(accepted(root, items, items.len()).contains(e));
    to_multiset_contains(accepted(root, items, items.len()), e);
    to_multiset_contains(tree.entries(), e);
    assert(bag(tree).count(e) > 0);
}

/// A tree built from items reports nothing else: every identifier that a
/// query reports is that of an item that lay strictly inside the boundary
/// when it was offered.
pub proof fn lemma_query_reports_only_accepted(
    root: QuadtreeModel,
    items: Seq<Entry>,
    range: AABB,
    position: Position,
    id: u64,
)
    requires
        root.wf(),
        root.entries().len() == 0,
        root.filled(items, items.len()).query(range, position).contains(id),
    ensures
        exists|j: int| 0 <= j < items.len() && root.fits(#[trigger] items[j]) && items[j].id == id,
{
    let tree = root.filled(items, items.len());
    let fits = |e: Entry| root.fits(e);
    lemma_filled(root, items, items.len());
    lemma_query_sound(tree, range, position, id);
    let k = choose|k: int| 0 <= k < ids(tree.entries()).len() && ids(tree.entries())[k] == id;
    let e = tree.entries()[k];
    assert(tree.entries().contains(e));
    to_multiset_contains(tree.entries(), e);
    root.entries().to_multiset_ensures();
    assert(bag(root) =~= Multiset::<Entry>::empty());
    let kept = accepted(root, items, items.len());
    to_multiset_contains(kept, e);
    assert(kept.contains(e));
    assert(items.take(items.len() as int) =~= items);
    items.lemma_filter_contains_rev(fits, e);
    let i = choose|i: int| 0 <= i < kept.len() && kept[i] == e;
    items.lemma_filter_pred(fits, i);
    let j = choose|j: int| 0 <= j < items.len() && items[j] == e;
    assert(root.fits(items[j]) && items[j].id == id);
}

} // verus!

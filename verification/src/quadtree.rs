//! A region quadtree over boxes and points, used as a broad-phase index.
//!
//! The tree is described by [`QuadtreeModel`], a mathematical copy of its
//! nodes. Every operation states its result as a function of that model.

use vstd::prelude::*;
use crate::math::{saturate, saturate_to_i32, Extent, Vec2};
use crate::physics::{collides, intersects, Position, AABB};
use crate::quadtree_laws::{accepted, bag, lemma_filled, lemma_insert_within, lemma_leaf_is_empty};

verus! {

/// One indexed object: who it is, its box if it has one, and where it is.
/// An object without a box is a point.
#[derive(Clone, Copy, Debug, PartialEq, Eq)]
pub struct Entry {
    pub id: u64,
    pub shape: Option<AABB>,
    pub position: Position,
}

/// The identifiers of a run of entries, in order.
pub open spec fn ids(entries: Seq<Entry>) -> Seq<u64> {
    entries.map_values(|e: Entry| e.id)
}

/// Whether the box or point of `e` reaches into the box `range` at `position`.
pub open spec fn touches(e: Entry, range: AABB, position: Position) -> bool {
    match e.shape {
        Some(shape) => shape.overlaps(e.position, range, position),
        None => range.holds_point(position, e.position),
    }
}

/// Mathematical description of a quadtree node and everything below it.
pub struct QuadtreeModel {
    pub boundary: AABB,
    pub center: Position,
    pub capacity: usize,
    pub objects: Seq<Entry>,
    pub divided: bool,
    pub max_depth: u8,
    pub depth: u8,
    pub nw: Option<Box<QuadtreeModel>>,
    pub ne: Option<Box<QuadtreeModel>>,
    pub sw: Option<Box<QuadtreeModel>>,
    pub se: Option<Box<QuadtreeModel>>,
}

impl QuadtreeModel {
    /// An empty node without children.
    pub open spec fn leaf(
        boundary: AABB,
        center: Position,
        capacity: usize,
        max_depth: u8,
        depth: u8,
    ) -> Self {
        QuadtreeModel {
            boundary,
            center,
            capacity,
            objects: Seq::empty(),
            divided: false,
            max_depth,
            depth,
            nw: None,
            ne: None,
            sw: None,
            se: None,
        }
    }

    /// Whether the node's boundary has `e` strictly inside it.
    pub open spec fn fits(self, e: Entry) -> bool {
        match e.shape {
            Some(shape) => self.boundary.encloses(self.center, shape, e.position),
            None => self.boundary.holds_point(self.center, e.position),
        }
    }

    /// How many more times a node at this depth may be split on the way down.
    pub open spec fn budget(self) -> nat {
        if self.depth < self.max_depth {
            (self.max_depth - self.depth) as nat
        } else {
            0
        }
    }

    /// The empty child that covers one quarter of this node: half the
    /// half-extent, centred a quarter of the way towards the named corner.
    pub open spec fn quadrant(self, east: bool, north: bool) -> Self {
        let qx = self.boundary.halfsize.x / 2;
        let qy = self.boundary.halfsize.y / 2;
        let dx = if east {
            qx as int
        } else {
            -(qx as int)
        };
        let dy = if north {
            qy as int
        } else {
            -(qy as int)
        };
        QuadtreeModel::leaf(
            AABB { halfsize: Extent { x: qx, y: qy } },
            Position {
                value: Vec2 {
                    x: saturate(self.center.value.x + dx) as i32,
                    y: saturate(self.center.value.y + dy) as i32,
                },
            },
            self.capacity,
            self.max_depth,
            (self.depth + 1) as u8,
        )
    }

    /// `self` covers the same quarter of `parent` as `parent.quadrant(east,
    /// north)`, with the same limits.
    pub open spec fn is_quadrant_of(self, parent: Self, east: bool, north: bool) -> bool {
        let q = parent.quadrant(east, north);
        &&& self.boundary == q.boundary
        &&& self.center == q.center
        &&& self.capacity == q.capacity
        &&& self.max_depth == q.max_depth
        &&& self.depth == q.depth
    }

    /// This node split into four empty quarters, holding nothing itself.
    pub open spec fn fresh(self) -> Self {
        QuadtreeModel {
            objects: Seq::empty(),
            divided: true,
            nw: Some(Box::new(self.quadrant(false, true))),
            ne: Some(Box::new(self.quadrant(true, true))),
            sw: Some(Box::new(self.quadrant(false, false))),
            se: Some(Box::new(self.quadrant(true, false))),
            ..self
        }
    }

    /// This node with `e` added to the objects it holds itself.
    pub open spec fn with_object(self, e: Entry) -> Self {
        QuadtreeModel { objects: self.objects.push(e), ..self }
    }

    /// The tree after `e` was offered to it, with `d` splits left on the way
    /// down. An entry that does not fit leaves the tree as it is. A leaf
    /// takes it while it has room or may not split; a full leaf splits, hands
    /// its objects down, and then places `e` as a split node does.
    pub open spec fn insert_within(self, e: Entry, d: nat) -> Self
        decreases d, 2nat, 0nat,
    {
        if !self.fits(e) {
            self
        } else if !self.divided {
            if self.objects.len() < self.capacity || self.depth >= self.max_depth || d == 0 {
                self.with_object(e)
            } else {
                self.fresh().refill(self.objects, self.objects.len(), d).place(e, d)
            }
        } else {
            self.place(e, d)
        }
    }

    /// The first `n` of `objects` placed into this split node, in order.
    pub open spec fn refill(self, objects: Seq<Entry>, n: nat, d: nat) -> Self
        decreases d, 1nat, n,
    {
        if n == 0 || n > objects.len() {
            self
        } else {
            self.refill(objects, (n - 1) as nat, d).place(objects[n - 1], d)
        }
    }

    /// A split node after `e` went to the first of its children, in the order
    /// north-west, north-east, south-west, south-east, that it fits into, or
    /// stayed at the node where it fits into none.
    pub open spec fn place(self, e: Entry, d: nat) -> Self
        decreases d, 0nat, 0nat,
    {
        if d == 0 {
            self.with_object(e)
        } else {
            match (self.nw, self.ne, self.sw, self.se) {
                (Some(nw), Some(ne), Some(sw), Some(se)) => {
                    if nw.fits(e) {
                        QuadtreeModel {
                            nw: Some(Box::new(nw.insert_within(e, (d - 1) as nat))),
                            ..self
                        }
                    } else if ne.fits(e) {
                        QuadtreeModel {
                            ne: Some(Box::new(ne.insert_within(e, (d - 1) as nat))),
                            ..self
                        }
                    } else if sw.fits(e) {
                        QuadtreeModel {
                            sw: Some(Box::new(sw.insert_within(e, (d - 1) as nat))),
                            ..self
                        }
                    } else if se.fits(e) {
                        QuadtreeModel {
                            se: Some(Box::new(se.insert_within(e, (d - 1) as nat))),
                            ..self
                        }
                    } else {
                        self.with_object(e)
                    }
                },
                _ => self.with_object(e),
            }
        }
    }

    /// The tree after `e` was offered to its root.
    pub open spec fn insert(self, e: Entry) -> Self {
        self.insert_within(e, self.budget())
    }

    /// The tree after the first `n` of `items` were offered to it, in order.
    pub open spec fn filled(self, items: Seq<Entry>, n: nat) -> Self
        decreases n,
    {
        if n == 0 || n > items.len() {
            self
        } else {
            self.filled(items, (n - 1) as nat).insert(items[n - 1])
        }
    }

    /// A node below its depth limit split into four, its own objects handed
    /// down as far as they fit. At or past the limit the node stays as it is.
    pub open spec fn subdivide(self) -> Self {
        if self.depth < self.max_depth {
            self.fresh().refill(self.objects, self.objects.len(), self.budget())
        } else {
            self
        }
    }

    /// Every entry in the tree, the node's own first, then those of the
    /// north-west, north-east, south-west and south-east subtrees.
    pub open spec fn entries(self) -> Seq<Entry>
        decreases self,
    {
        self.objects + Self::entries_of(self.nw) + Self::entries_of(self.ne) + Self::entries_of(
            self.sw,
        ) + Self::entries_of(self.se)
    }

    /// The entries of a child that may be absent.
    pub open spec fn entries_of(child: Option<Box<Self>>) -> Seq<Entry>
        decreases child,
    {
        match child {
            Some(c) => c.entries(),
            None => Seq::empty(),
        }
    }

    /// What a query for the box `range` at `position` reports: nothing from a
    /// subtree whose boundary the range does not overlap, else the
    /// identifiers held at the node followed by those of its four subtrees.
    pub open spec fn query(self, range: AABB, position: Position) -> Seq<u64>
        decreases self,
    {
        if !self.boundary.overlaps(self.center, range, position) {
            Seq::empty()
        } else if self.divided {
            ids(self.objects) + Self::query_of(self.nw, range, position) + Self::query_of(
                self.ne,
                range,
                position,
            ) + Self::query_of(self.sw, range, position) + Self::query_of(
                self.se,
                range,
                position,
            )
        } else {
            ids(self.objects)
        }
    }

    /// The query result of a child that may be absent.
    pub open spec fn query_of(child: Option<Box<Self>>, range: AABB, position: Position) -> Seq<u64>
        decreases child,
    {
        match child {
            Some(c) => c.query(range, position),
            None => Seq::empty(),
        }
    }

    /// The child is present, covers its quarter of `parent`, and is itself
    /// well formed.
    pub open spec fn child_wf(child: Option<Box<Self>>, parent: Self, east: bool, north: bool) -> bool
        decreases child,
    {
        match child {
            Some(c) => c.is_quadrant_of(parent, east, north) && c.wf(),
            None => false,
        }
    }

    /// The shape every tree keeps. Each object held at a node lies strictly
    /// inside the node's boundary. A split node is below its depth limit, has
    /// all four children, each covering its quarter, and holds only objects
    /// that fit into none of them. A leaf has no children, and below its
    /// depth limit it holds no more objects than its capacity.
    pub open spec fn wf(self) -> bool
        decreases self,
    {
        &&& forall|i: int| 0 <= i < self.objects.len() ==> self.fits(#[trigger] self.objects[i])
        &&& if self.divided {
            &&& self.depth < self.max_depth
            &&& Self::child_wf(self.nw, self, false, true)
            &&& Self::child_wf(self.ne, self, true, true)
            &&& Self::child_wf(self.sw, self, false, false)
            &&& Self::child_wf(self.se, self, true, false)
            &&& forall|i: int|
                0 <= i < self.objects.len() ==> !self.fits_a_quadrant(#[trigger] self.objects[i])
        } else {
            &&& self.nw is None
            &&& self.ne is None
            &&& self.sw is None
            &&& self.se is None
            &&& self.depth < self.max_depth ==> self.objects.len() <= self.capacity
        }
    }

    /// Whether `e` lies strictly inside one of the four quarters of this
    /// node.
    pub open spec fn fits_a_quadrant(self, e: Entry) -> bool {
        ||| self.quadrant(false, true).fits(e)
        ||| self.quadrant(true, true).fits(e)
        ||| self.quadrant(false, false).fits(e)
        ||| self.quadrant(true, false).fits(e)
    }

    /// Same place, same limits: all that an insertion leaves untouched.
    pub open spec fn same_frame(self, other: Self) -> bool {
        &&& self.boundary == other.boundary
        &&& self.center == other.center
        &&& self.capacity == other.capacity
        &&& self.max_depth == other.max_depth
        &&& self.depth == other.depth
    }
}

/// A node of the tree together with the subtree below it.
#[derive(Debug)]
struct Node {
    boundary: AABB,
    center: Position,
    capacity: usize,
    objects: Vec<Entry>,
    divided: bool,
    max_depth: u8,
    depth: u8,
    nw: Option<Box<Node>>,
    ne: Option<Box<Node>>,
    sw: Option<Box<Node>>,
    se: Option<Box<Node>>,
}

impl View for Node {
    type V = QuadtreeModel;

    closed spec fn view(&self) -> QuadtreeModel {
        self.model()
    }
}

impl Node {
    spec fn model(&self) -> QuadtreeModel
        decreases self,
    {
        QuadtreeModel {
            boundary: self.boundary,
            center: self.center,
            capacity: self.capacity,
            objects: self.objects@,
            divided: self.divided,
            max_depth: self.max_depth,
            depth: self.depth,
            nw: Self::model_of(self.nw),
            ne: Self::model_of(self.ne),
            sw: Self::model_of(self.sw),
            se: Self::model_of(self.se),
        }
    }

    spec fn model_of(child: Option<Box<Node>>) -> Option<Box<QuadtreeModel>>
        decreases child,
    {
        match child {
            Some(c) => Some(Box::new(c.model())),
            None => None,
        }
    }

    fn new(boundary: AABB, center: Vec2, capacity: usize, max_depth: u8, depth: u8) -> (t: Self)
        ensures
            t@ == QuadtreeModel::leaf(
                boundary,
                Position { value: center },
                capacity,
                max_depth,
                depth,
            ),
            t@.wf(),
    {
        Node {
            boundary,
            center: Position::new(center),
            capacity,
            objects: Vec::new(),
            divided: false,
            max_depth,
            depth,
            nw: None,
            ne: None,
            sw: None,
            se: None,
        }
    }

    fn subdivide(&mut self)
        requires
            old(self)@.wf(),
        ensures
            final(self)@ == old(self)@.subdivide(),
            final(self)@.wf(),
            final(self)@.same_frame(old(self)@),
            final(self)@.divided == (old(self)@.divided || old(self)@.depth < old(self)@.max_depth),
        decreases old(self)@.budget(), 2nat,
    {
        if self.depth >= self.max_depth {
            return ;
        }
        let qx: u32 = self.boundary.halfsize.x / 2;
        let qy: u32 = self.boundary.halfsize.y / 2;
        let halfsize = Extent::new(qx, qy);
        let west: i32 = saturate_to_i32(self.center.value.x as i128 - qx as i128);
        let east: i32 = saturate_to_i32(self.center.value.x as i128 + qx as i128);
        let south: i32 = saturate_to_i32(self.center.value.y as i128 - qy as i128);
        let north: i32 = saturate_to_i32(self.center.value.y as i128 + qy as i128);
        let depth: u8 = self.depth + 1;

        self.nw = Some(
            Box::new(
                Self::new(AABB { halfsize }, Vec2::new(west, north), self.capacity, self.max_depth, depth),
            ),
        );
        self.ne = Some(
            Box::new(
                Self::new(AABB { halfsize }, Vec2::new(east, north), self.capacity, self.max_depth, depth),
            ),
        );
        self.sw = Some(
            Box::new(
                Self::new(AABB { halfsize }, Vec2::new(west, south), self.capacity, self.max_depth, depth),
            ),
        );
        self.se = Some(
            Box::new(
                Self::new(AABB { halfsize }, Vec2::new(east, south), self.capacity, self.max_depth, depth),
            ),
        );
        self.divided = true;

        let mut objects: Vec<Entry> = Vec::new();
        std::mem::swap(&mut objects, &mut self.objects);
        assert(self@ == old(self)@.fresh());

        let ghost d = old(self)@.budget();
        let mut i: usize = 0;
        while i < objects.len()
            invariant
                i <= objects.len(),
                objects@ == old(self)@.objects,
                old(self)@.wf(),
                d == old(self)@.budget(),
                d > 0,
                self@ == old(self)@.fresh().refill(objects@, i as nat, d),
                self@.wf(),
                self@.divided,
                self@.same_frame(old(self)@),
            decreases objects.len() - i,
        {
            let e = objects[i];
            assert(self@.fits(e));
            self.insert(e.id, e.shape, e.position);
            i += 1;
        }
    }

    fn insert(&mut self, id: u64, shape: Option<AABB>, position: Position) -> (r: bool)
        requires
            old(self)@.wf(),
        ensures
            r == old(self)@.fits(Entry { id, shape, position }),
            final(self)@ == old(self)@.insert(Entry { id, shape, position }),
            final(self)@.wf(),
            final(self)@.same_frame(old(self)@),
            old(self)@.divided ==> final(self)@.divided,
            r ==> bag(final(self)@) == bag(old(self)@).insert(Entry { id, shape, position }),
            !r ==> final(self)@ == old(self)@,
        decreases
                old(self)@.budget(),
                (if old(self)@.divided {
                    1nat
                } else {
                    3nat
                }),
    {
        let entry = Entry { id, shape, position };
        proof {
            lemma_insert_within(self@, entry, self@.budget());
        }
        let fits = match &shape {
            Some(s) => self.boundary.contains(self.center, s, position),
            None => intersects(&self.boundary, self.center, position),
        };
        if !fits {
            return false;
        }
        if !self.divided {
            if self.objects.len() < self.capacity || self.depth >= self.max_depth {
                self.objects.push(entry);
                return true;
            }
            self.subdivide();
        }
        self.place(entry);
        true
    }

    /// Stores an object that fits this split node in the first child that
    /// takes it, or at the node itself when none does.
    fn place(&mut self, entry: Entry)
        requires
            old(self)@.wf(),
            old(self)@.divided,
            old(self)@.fits(entry),
        ensures
            final(self)@ == old(self)@.place(entry, old(self)@.budget()),
            final(self)@.wf(),
            final(self)@.same_frame(old(self)@),
            final(self)@.divided,
        decreases old(self)@.budget(), 0nat,
    {
        proof {
            let t = self@;
            assert(QuadtreeModel::child_wf(t.nw, t, false, true));
            assert(QuadtreeModel::child_wf(t.ne, t, true, true));
            assert(QuadtreeModel::child_wf(t.sw, t, false, false));
            assert(QuadtreeModel::child_wf(t.se, t, true, false));
        }
        if Self::offer(&mut self.nw, entry) {
            return ;
        }
        if Self::offer(&mut self.ne, entry) {
            return ;
        }
        if Self::offer(&mut self.sw, entry) {
            return ;
        }
        if Self::offer(&mut self.se, entry) {
            return ;
        }
        self.objects.push(entry);
    }

    /// Offers an object to a child and reports whether the child took it.
    fn offer(slot: &mut Option<Box<Node>>, entry: Entry) -> (r: bool)
        requires
            Self::model_of(*old(slot)) is Some,
            Self::model_of(*old(slot))->0.wf(),
        ensures
            Self::model_of(*final(slot)) is Some,
            r == Self::model_of(*old(slot))->0.fits(entry),
            *Self::model_of(*final(slot))->0 == Self::model_of(*old(slot))->0.insert(entry),
            Self::model_of(*final(slot))->0.wf(),
            Self::model_of(*final(slot))->0.same_frame(*Self::model_of(*old(slot))->0),
        decreases Self::model_of(*old(slot))->0.budget(), 4nat,
    {
        let mut child = slot.take().unwrap();
        let taken = child.insert(entry.id, entry.shape, entry.position);
        *slot = Some(child);
        taken
    }

    fn is_divided(&self) -> (r: bool)
        ensures
            r == self@.divided,
    {
        self.divided
    }

    fn query(&self, range: &AABB, position: Position, found: &mut Vec<u64>)
        requires
            self@.wf(),
        ensures
            final(found)@ == old(found)@ + self@.query(*range, position),
        decreases self,
    {
        if !collides(&self.boundary, self.center, range, position) {
            return ;
        }
        let ghost start = found@;
        let mut i: usize = 0;
        while i < self.objects.len()
            invariant
                i <= self.objects.len(),
                found@ == start + ids(self.objects@).take(i as int),
            decreases self.objects.len() - i,
        {
            found.push(self.objects[i].id);
            i += 1;
        }
        assert(ids(self.objects@).take(i as int) == ids(self.objects@));
        if self.divided {
            match &self.nw {
                Some(c) => c.query(range, position, found),
                None => {},
            }
            match &self.ne {
                Some(c) => c.query(range, position, found),
                None => {},
            }
            match &self.sw {
                Some(c) => c.query(range, position, found),
                None => {},
            }
            match &self.se {
                Some(c) => c.query(range, position, found),
                None => {},
            }
        }
    }
}

/// A region quadtree: a node that covers a box of the world and, once it
/// has split, four children that cover its quarters.
#[derive(Debug)]
pub struct Quadtree {
    root: Node,
}

impl View for Quadtree {
    type V = QuadtreeModel;

    closed spec fn view(&self) -> QuadtreeModel {
        self.root@
    }
}

impl Quadtree {
    #[verifier::type_invariant]
    spec fn well_formed(self) -> bool {
        self.root@.wf()
    }

    /// Creates an empty leaf that covers `boundary` around `center`.
    pub fn new(boundary: AABB, center: Vec2, capacity: usize, max_depth: u8, depth: u8) -> (t: Self)
        ensures
            t@ == QuadtreeModel::leaf(
                boundary,
                Position { value: center },
                capacity,
                max_depth,
                depth,
            ),
            t@.wf(),
    {
        Quadtree { root: Node::new(boundary, center, capacity, max_depth, depth) }
    }

    /// Splits a node that is below its depth limit into four quarters and
    /// hands the objects it holds down to them, each as far as it fits. At or
    /// past the depth limit nothing happens. Children that the node already
    /// had are replaced by the new, empty ones.
    pub fn subdivide(&mut self)
        ensures
            final(self)@ == old(self)@.subdivide(),
            old(self)@.wf(),
            final(self)@.wf(),
            final(self)@.same_frame(old(self)@),
            final(self)@.divided == (old(self)@.divided || old(self)@.depth < old(self)@.max_depth),
    {
        proof {
            use_type_invariant(&*self);
        }
        let mut root = Node::new(AABB::new(Extent::new(0, 0)), Vec2::zero(), 0, 0, 0);
        std::mem::swap(&mut root, &mut self.root);
        root.subdivide();
        self.root = root;
    }

    /// Offers an object to the tree. Returns `false`, leaving the tree as it
    /// was, when the object does not lie strictly inside the node's boundary.
    /// Otherwise the object is stored: in a leaf that has room or may not
    /// split further, else in the deepest node that has it strictly inside.
    pub fn insert(&mut self, id: u64, shape: Option<AABB>, position: Position) -> (r: bool)
        ensures
            r == old(self)@.fits(Entry { id, shape, position }),
            final(self)@ == old(self)@.insert(Entry { id, shape, position }),
            old(self)@.wf(),
            final(self)@.wf(),
            final(self)@.same_frame(old(self)@),
            old(self)@.divided ==> final(self)@.divided,
            r ==> bag(final(self)@) == bag(old(self)@).insert(Entry { id, shape, position }),
            !r ==> final(self)@ == old(self)@,
    {
        proof {
            use_type_invariant(&*self);
        }
        let mut root = Node::new(AABB::new(Extent::new(0, 0)), Vec2::zero(), 0, 0, 0);
        std::mem::swap(&mut root, &mut self.root);
        let taken = root.insert(id, shape, position);
        self.root = root;
        taken
    }

    /// Whether this node has been split into four children.
    pub fn is_divided(&self) -> (r: bool)
        ensures
            r == self@.divided,
    {
        self.root.is_divided()
    }

    /// Appends to `found` the identifier of every object held at a node
    /// whose boundary the box `range` at `position` overlaps.
    pub fn query(&self, range: &AABB, position: Position, found: &mut Vec<u64>)
        ensures
            final(found)@ == old(found)@ + self@.query(*range, position),
            self@.wf(),
    {
        proof {
            use_type_invariant(self);
        }
        self.root.query(range, position, found);
    }
}

/// Builds the index of one tick: a tree over `aabb` around the origin with
/// every item of `items` offered to it in order. Items that do not lie
/// strictly inside `aabb` are left out.
pub fn build_quadtree(
    items: &Vec<Entry>,
    aabb: &AABB,
    capacity: usize,
    max_depth: u8,
) -> (t: Quadtree)
    ensures
        t@ == QuadtreeModel::leaf(
            *aabb,
            Position { value: Vec2 { x: 0, y: 0 } },
            capacity,
            max_depth,
            0,
        ).filled(items@, items.len() as nat),
        t@.wf(),
        t@.boundary == *aabb,
        t@.center == (Position { value: Vec2 { x: 0, y: 0 } }),
        bag(t@) == accepted(
            QuadtreeModel::leaf(
                *aabb,
                Position { value: Vec2 { x: 0, y: 0 } },
                capacity,
                max_depth,
                0,
            ),
            items@,
            items.len() as nat,
        ).to_multiset(),
{
    let mut quadtree = Quadtree::new(*aabb, Vec2::zero(), capacity, max_depth, 0);
    let ghost root = quadtree@;
    proof {
        lemma_leaf_is_empty(root);
        lemma_filled(root, items@, items.len() as nat);
    }
    let mut i: usize = 0;
    while i < items.len()
        invariant
            i <= items.len(),
            quadtree@ == root.filled(items@, i as nat),
            quadtree@.wf(),
            quadtree@.same_frame(root),
        decreases items.len() - i,
    {
        let item = items[i];
        quadtree.insert(item.id, item.shape, item.position);
        i += 1;
    }
    quadtree
}

} // verus!

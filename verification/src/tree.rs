use vstd::prelude::*;

use crate::structs::{HasPosition, Line, Rect, Vec2};

verus! {

broadcast use vstd::multiset::group_multiset_axioms, vstd::seq_lib::group_to_multiset_ensures;

/// Maximum number of points a leaf holds before an insertion makes it
/// subdivide.
pub const CAPACITY: usize = 4;

/// Why an insertion was rejected.
#[derive(Clone, Copy, PartialEq, Eq, Structural, Debug)]
pub enum TreeError {
    /// The point lies outside the rectangle of the node it was offered to.
    OutOfBounds,
    /// No child of a subdivided node claimed the point. With exact integer
    /// geometry the children partition the parent exactly, so a well-formed
    /// tree never produces this; it is kept as an invariant-violation signal.
    NoMatchingChild,
}

/// A region quadtree node: a rectangle together with either a bounded list of
/// points (leaf) or exactly four child nodes whose rectangles partition it.
pub struct QuadTree<T> {
    /// The region this node indexes; fixed at construction.
    pub bounds: Rect,
    /// The node's state; mutated only by insertion, and only from `Leaf` to
    /// `Internal`, never back.
    pub node: Node<T>,
}

/// The two states of a node. The tagged union makes "never simultaneously a
/// point list and children" a type-level invariant.
pub enum Node<T> {
    /// Holds the stored points directly.
    Leaf(Vec<T>),
    /// Holds exactly four children whose rectangles partition the node's.
    Internal(Box<QuadTree<T>>, Box<QuadTree<T>>, Box<QuadTree<T>>, Box<QuadTree<T>>),
}

/// How quadrant `i` of `parent` relates to `parent`: the four children are
/// anchored at the parent's corners and sized so that, under half-open
/// containment, they cover the parent exactly and pairwise disjointly.
/// (With integer coordinates the two half-widths of an odd extent differ by
/// one; the right/top children take the remainder, so the partition stays
/// exact at every depth.)
pub open spec fn quad_split(parent: Rect, child: Rect, i: int) -> bool {
    let hw = parent.size.x as int / 2;
    let hh = parent.size.y as int / 2;
    if i == 0 {
        child == (Rect {
            pos: Vec2 { x: (parent.pos.x + hw) as i64, y: parent.pos.y },
            size: Vec2 { x: (parent.size.x - hw) as i64, y: hh as i64 },
        })
    } else if i == 1 {
        child == (Rect {
            pos: parent.pos,
            size: Vec2 { x: hw as i64, y: hh as i64 },
        })
    } else if i == 2 {
        child == (Rect {
            pos: Vec2 { x: parent.pos.x, y: (parent.pos.y + hh) as i64 },
            size: Vec2 { x: hw as i64, y: (parent.size.y - hh) as i64 },
        })
    } else if i == 3 {
        child == (Rect {
            pos: Vec2 { x: (parent.pos.x + hw) as i64, y: (parent.pos.y + hh) as i64 },
            size: Vec2 { x: (parent.size.x - hw) as i64, y: (parent.size.y - hh) as i64 },
        })
    } else {
        false
    }
}

/// Partition disjointness: for any point inside a rectangle, exactly one of
/// the rectangle's four quadrants contains it, under the half-open rule.
pub proof fn lemma_quadrants_partition(
    parent: Rect,
    c0: Rect,
    c1: Rect,
    c2: Rect,
    c3: Rect,
    p: Vec2,
)
    requires
        parent.wf(),
        quad_split(parent, c0, 0),
        quad_split(parent, c1, 1),
        quad_split(parent, c2, 2),
        quad_split(parent, c3, 3),
        parent.spec_contains(p),
    ensures
        (if c0.spec_contains(p) {
            1int
        } else {
            0int
        }) + (if c1.spec_contains(p) {
            1int
        } else {
            0int
        }) + (if c2.spec_contains(p) {
            1int
        } else {
            0int
        }) + (if c3.spec_contains(p) {
            1int
        } else {
            0int
        }) == 1,
{
}

/// A quadrant of a usable rectangle is itself usable, and any point it
/// contains is contained in the parent.
pub proof fn lemma_quadrant_wf(parent: Rect, child: Rect, i: int)
    requires
        parent.wf(),
        quad_split(parent, child, i),
    ensures
        child.wf(),
        forall|p: Vec2| child.spec_contains(p) ==> parent.spec_contains(p),
{
}

/// Splitting a sequence of points among the four quadrants of a rectangle
/// that contains them all neither loses nor duplicates a point: the four
/// filtered sub-sequences carry exactly the original multiset.
proof fn lemma_filter_partition<T: HasPosition>(
    s: Seq<T>,
    parent: Rect,
    c0: Rect,
    c1: Rect,
    c2: Rect,
    c3: Rect,
)
    requires
        parent.wf(),
        quad_split(parent, c0, 0),
        quad_split(parent, c1, 1),
        quad_split(parent, c2, 2),
        quad_split(parent, c3, 3),
        forall|i: int| 0 <= i < s.len() ==> parent.spec_contains(#[trigger] s[i].spec_pos()),
    ensures
        s.filter(|t: T| c0.spec_contains(t.spec_pos())).to_multiset().add(
            s.filter(|t: T| c1.spec_contains(t.spec_pos())).to_multiset(),
        ).add(s.filter(|t: T| c2.spec_contains(t.spec_pos())).to_multiset()).add(
            s.filter(|t: T| c3.spec_contains(t.spec_pos())).to_multiset(),
        ) == s.to_multiset(),
    decreases s.len(),
{
    let p0 = |t: T| c0.spec_contains(t.spec_pos());
    let p1 = |t: T| c1.spec_contains(t.spec_pos());
    let p2 = |t: T| c2.spec_contains(t.spec_pos());
    let p3 = |t: T| c3.spec_contains(t.spec_pos());
    if s.len() == 0 {
        reveal(Seq::filter);
        assert(s.filter(p0).to_multiset().add(s.filter(p1).to_multiset()).add(
            s.filter(p2).to_multiset()).add(s.filter(p3).to_multiset()) =~= s.to_multiset());
    } else {
        let prefix = s.drop_last();
        let x = s.last();
        lemma_filter_partition(prefix, parent, c0, c1, c2, c3);
        assert(s =~= prefix.push(x));
        prefix.lemma_filter_push(x, p0);
        prefix.lemma_filter_push(x, p1);
        prefix.lemma_filter_push(x, p2);
        prefix.lemma_filter_push(x, p3);
        lemma_quadrants_partition(parent, c0, c1, c2, c3, x.spec_pos());
        assert(s.filter(p0).to_multiset().add(s.filter(p1).to_multiset()).add(
            s.filter(p2).to_multiset()).add(s.filter(p3).to_multiset()) =~= prefix.filter(
            p0).to_multiset().add(prefix.filter(p1).to_multiset()).add(prefix.filter(
            p2).to_multiset()).add(prefix.filter(p3).to_multiset()).insert(x));
        assert(s.to_multiset() =~= prefix.to_multiset().insert(x));
    }
}

/// Idempotent queries: each query's contract equates its result with a
/// function of the unmodified tree (and segment) alone — `positions`,
/// `leaf_bounds`, `intersecting_leaves` — so issuing the same query twice
/// yields identical results.
pub proof fn lemma_queries_idempotent<T: HasPosition + Copy>(
    t: QuadTree<T>,
    l: Line,
    p1: Seq<Vec2>,
    p2: Seq<Vec2>,
    b1: Seq<Rect>,
    b2: Seq<Rect>,
    s1: Seq<QuadTree<T>>,
    s2: Seq<QuadTree<T>>,
)
    requires
        p1 == t.positions(),
        p2 == t.positions(),
        b1 == t.leaf_bounds(),
        b2 == t.leaf_bounds(),
        s1 == t.intersecting_leaves(l),
        s2 == t.intersecting_leaves(l),
    ensures
        p1 == p2,
        b1 == b2,
        s1 == s2,
{
}

/// The multiset of a four-way concatenation is the sum of the four parts'
/// multisets.
proof fn lemma_concat4_multiset<T>(a: Seq<T>, b: Seq<T>, c: Seq<T>, d: Seq<T>)
    ensures
        (a + b + c + d).to_multiset() == a.to_multiset().add(b.to_multiset()).add(
            c.to_multiset(),
        ).add(d.to_multiset()),
{
    vstd::seq_lib::lemma_multiset_commutative(a, b);
    vstd::seq_lib::lemma_multiset_commutative(a + b, c);
    vstd::seq_lib::lemma_multiset_commutative(a + b + c, d);
}

impl<T: HasPosition + Copy> QuadTree<T> {
    /// The node's rectangle, as seen by specifications.
    pub open spec fn spec_bounds(self) -> Rect {
        self.bounds
    }

    /// All stored points, leaves left to right in child order.
    pub open spec fn all_points(self) -> Seq<T>
        decreases self,
    {
        match self.node {
            Node::Leaf(v) => v@,
            Node::Internal(c0, c1, c2, c3) => c0.all_points() + c1.all_points()
                + c2.all_points() + c3.all_points(),
        }
    }

    /// The positions of all stored points, in storage order.
    pub open spec fn positions(self) -> Seq<Vec2> {
        self.all_points().map_values(|t: T| t.spec_pos())
    }

    /// Well-formedness: the bounds are a usable rectangle; every leaf point
    /// lies within its leaf's bounds; and the children of a subdivided node
    /// are exactly its four quadrants.
    pub open spec fn wf(self) -> bool
        decreases self,
    {
        &&& self.bounds.wf()
        &&& match self.node {
            Node::Leaf(v) => forall|i: int|
                0 <= i < v@.len() ==> self.bounds.spec_contains(#[trigger] v@[i].spec_pos()),
            Node::Internal(c0, c1, c2, c3) => {
                &&& quad_split(self.bounds, c0.bounds, 0)
                &&& quad_split(self.bounds, c1.bounds, 1)
                &&& quad_split(self.bounds, c2.bounds, 2)
                &&& quad_split(self.bounds, c3.bounds, 3)
                &&& c0.wf()
                &&& c1.wf()
                &&& c2.wf()
                &&& c3.wf()
            },
        }
    }

    /// The rectangles of the occupied leaves: a leaf with at least one point
    /// contributes its own rectangle, an empty leaf contributes nothing, and
    /// a subdivided node contributes its children's rectangles in child
    /// order.
    pub open spec fn leaf_bounds(self) -> Seq<Rect>
        decreases self,
    {
        match self.node {
            Node::Leaf(v) => if v@.len() > 0 {
                seq![self.bounds]
            } else {
                Seq::<Rect>::empty()
            },
            Node::Internal(c0, c1, c2, c3) => c0.leaf_bounds() + c1.leaf_bounds()
                + c2.leaf_bounds() + c3.leaf_bounds(),
        }
    }

    /// The leaves whose rectangles the segment `l` crosses, in child order;
    /// children whose rectangles the segment misses are pruned without
    /// descent. A crossed leaf is reported whether or not it holds points.
    pub open spec fn intersecting_leaves(self, l: Line) -> Seq<QuadTree<T>>
        decreases self,
    {
        match self.node {
            Node::Leaf(_) => if l.spec_rect_intersect(self.bounds) {
                seq![self]
            } else {
                Seq::<QuadTree<T>>::empty()
            },
            Node::Internal(c0, c1, c2, c3) => (if l.spec_rect_intersect(c0.bounds) {
                c0.intersecting_leaves(l)
            } else {
                Seq::<QuadTree<T>>::empty()
            }) + (if l.spec_rect_intersect(c1.bounds) {
                c1.intersecting_leaves(l)
            } else {
                Seq::<QuadTree<T>>::empty()
            }) + (if l.spec_rect_intersect(c2.bounds) {
                c2.intersecting_leaves(l)
            } else {
                Seq::<QuadTree<T>>::empty()
            }) + (if l.spec_rect_intersect(c3.bounds) {
                c3.intersecting_leaves(l)
            } else {
                Seq::<QuadTree<T>>::empty()
            }),
        }
    }

    /// Every leaf of this subtree holds at most `cap` points.
    pub open spec fn leaves_within(self, cap: int) -> bool
        decreases self,
    {
        match self.node {
            Node::Leaf(v) => v@.len() <= cap,
            Node::Internal(c0, c1, c2, c3) => c0.leaves_within(cap) && c1.leaves_within(cap)
                && c2.leaves_within(cap) && c3.leaves_within(cap),
        }
    }

    /// Whether this node is a leaf.
    pub open spec fn is_leaf(self) -> bool {
        self.node is Leaf
    }

    /// A leaf holding exactly the points `pts`, in that order.
    pub open spec fn is_leaf_holding(self, pts: Seq<T>) -> bool {
        match self.node {
            Node::Leaf(v) => v@ == pts,
            Node::Internal(_, _, _, _) => false,
        }
    }

    /// The shape a subdivision produces from a leaf over `bounds` that held
    /// `pts`: an internal node whose children are the four quadrants of
    /// `bounds`, each a leaf holding, in their original order, exactly the
    /// points of `pts` that its rectangle contains.
    pub open spec fn is_subdivision_of(self, bounds: Rect, pts: Seq<T>) -> bool {
        &&& self.bounds == bounds
        &&& match self.node {
            Node::Leaf(_) => false,
            Node::Internal(c0, c1, c2, c3) => {
                &&& quad_split(bounds, c0.bounds, 0)
                &&& quad_split(bounds, c1.bounds, 1)
                &&& quad_split(bounds, c2.bounds, 2)
                &&& quad_split(bounds, c3.bounds, 3)
                &&& c0.is_leaf_holding(pts.filter(|t: T| c0.bounds.spec_contains(t.spec_pos())))
                &&& c1.is_leaf_holding(pts.filter(|t: T| c1.bounds.spec_contains(t.spec_pos())))
                &&& c2.is_leaf_holding(pts.filter(|t: T| c2.bounds.spec_contains(t.spec_pos())))
                &&& c3.is_leaf_holding(pts.filter(|t: T| c3.bounds.spec_contains(t.spec_pos())))
            },
        }
    }

    /// How one insertion transforms the tree, as a relation between the tree
    /// before (`pre`) and after (`post`). A point outside `pre`'s rectangle
    /// changes nothing. A leaf below capacity appends the point to its list;
    /// a leaf that would reach `CAPACITY` points subdivides instead. An
    /// internal node keeps its rectangle and hands the point to its first
    /// quadrant child that contains it — exactly one does, for well-formed
    /// trees — while the other three children are left untouched, so an
    /// insertion mutates only the path from the root to one leaf.
    pub open spec fn insert_step(pre: QuadTree<T>, post: QuadTree<T>, p: T) -> bool
        decreases pre,
    {
        if !pre.bounds.spec_contains(p.spec_pos()) {
            post == pre
        } else {
            match pre.node {
                Node::Leaf(v) => if v@.len() + 1 >= CAPACITY {
                    post.is_subdivision_of(pre.bounds, v@.push(p))
                } else {
                    post.bounds == pre.bounds && post.is_leaf_holding(v@.push(p))
                },
                Node::Internal(c0, c1, c2, c3) => match post.node {
                    Node::Leaf(_) => false,
                    Node::Internal(d0, d1, d2, d3) => {
                        &&& post.bounds == pre.bounds
                        &&& if c0.bounds.spec_contains(p.spec_pos()) {
                            Self::insert_step(*c0, *d0, p) && d1 == c1 && d2 == c2 && d3 == c3
                        } else if c1.bounds.spec_contains(p.spec_pos()) {
                            d0 == c0 && Self::insert_step(*c1, *d1, p) && d2 == c2 && d3 == c3
                        } else if c2.bounds.spec_contains(p.spec_pos()) {
                            d0 == c0 && d1 == c1 && Self::insert_step(*c2, *d2, p) && d3 == c3
                        } else if c3.bounds.spec_contains(p.spec_pos()) {
                            d0 == c0 && d1 == c1 && d2 == c2 && Self::insert_step(*c3, *d3, p)
                        } else {
                            post == pre
                        }
                    },
                },
            }
        }
    }

    /// Widening the leaf bound: a tree whose leaves hold at most `m` points
    /// also has leaves of at most `n` points for any `n >= m`.
    pub proof fn lemma_leaves_within_widen(self, m: int, n: int)
        requires
            self.leaves_within(m),
            m <= n,
        ensures
            self.leaves_within(n),
        decreases self,
    {
        match self.node {
            Node::Leaf(_) => {},
            Node::Internal(c0, c1, c2, c3) => {
                c0.lemma_leaves_within_widen(m, n);
                c1.lemma_leaves_within_widen(m, n);
                c2.lemma_leaves_within_widen(m, n);
                c3.lemma_leaves_within_widen(m, n);
            },
        }
    }

    /// A segment that lies strictly beyond one side of the tree's rectangle
    /// crosses no node's rectangle anywhere in the tree, so the
    /// intersection query returns the empty sequence.
    pub proof fn lemma_intersecting_leaves_separated(self, l: Line)
        requires
            self.wf(),
            l.separated_from(self.spec_bounds()),
        ensures
            self.intersecting_leaves(l) == Seq::<QuadTree<T>>::empty(),
        decreases self,
    {
        crate::structs::lemma_separated_no_rect_intersect(l, self.bounds);
        match self.node {
            Node::Leaf(_) => {
                assert(self.intersecting_leaves(l) =~= Seq::<QuadTree<T>>::empty());
            },
            Node::Internal(c0, c1, c2, c3) => {
                assert(l.separated_from(c0.bounds));
                assert(l.separated_from(c1.bounds));
                assert(l.separated_from(c2.bounds));
                assert(l.separated_from(c3.bounds));
                c0.lemma_intersecting_leaves_separated(l);
                c1.lemma_intersecting_leaves_separated(l);
                c2.lemma_intersecting_leaves_separated(l);
                c3.lemma_intersecting_leaves_separated(l);
                assert(self.intersecting_leaves(l) =~= Seq::<QuadTree<T>>::empty());
            },
        }
    }

    /// Structure of the occupied-leaf rectangles of a well-formed tree: each
    /// reported rectangle is usable and has positive extent, lies within the
    /// tree's rectangle, and distinct entries are pairwise disjoint under
    /// half-open containment — so no rectangle is reported twice.
    pub proof fn lemma_leaf_bounds_structure(self)
        requires
            self.wf(),
        ensures
            forall|k: int|
                0 <= k < self.leaf_bounds().len() ==> (#[trigger] self.leaf_bounds()[k]).wf(),
            forall|k: int|
                0 <= k < self.leaf_bounds().len() ==> (#[trigger] self.leaf_bounds()[k]).size.x
                    > 0 && self.leaf_bounds()[k].size.y > 0,
            forall|k: int, q: Vec2|
                0 <= k < self.leaf_bounds().len() && #[trigger] self.leaf_bounds()[k].spec_contains(
                    q,
                ) ==> self.spec_bounds().spec_contains(q),
            forall|k1: int, k2: int, q: Vec2|
                #![trigger self.leaf_bounds()[k1].spec_contains(q), self.leaf_bounds()[k2].spec_contains(q)]
                0 <= k1 < self.leaf_bounds().len() && 0 <= k2 < self.leaf_bounds().len() && k1
                    != k2 ==> !(self.leaf_bounds()[k1].spec_contains(q)
                    && self.leaf_bounds()[k2].spec_contains(q)),
            forall|k1: int, k2: int|
                #![trigger self.leaf_bounds()[k1], self.leaf_bounds()[k2]]
                0 <= k1 < self.leaf_bounds().len() && 0 <= k2 < self.leaf_bounds().len() && k1
                    != k2 ==> self.leaf_bounds()[k1] != self.leaf_bounds()[k2],
        decreases self,
    {
        match self.node {
            Node::Leaf(v) => {
                if v@.len() > 0 {
                    assert(self.leaf_bounds() =~= seq![self.bounds]);
                    assert(self.bounds.spec_contains(v@[0].spec_pos()));
                } else {
                    assert(self.leaf_bounds() =~= Seq::<Rect>::empty());
                }
            },
            Node::Internal(c0, c1, c2, c3) => {
                c0.lemma_leaf_bounds_structure();
                c1.lemma_leaf_bounds_structure();
                c2.lemma_leaf_bounds_structure();
                c3.lemma_leaf_bounds_structure();
                lemma_quadrant_wf(self.bounds, c0.bounds, 0);
                lemma_quadrant_wf(self.bounds, c1.bounds, 1);
                lemma_quadrant_wf(self.bounds, c2.bounds, 2);
                lemma_quadrant_wf(self.bounds, c3.bounds, 3);
                let b0 = c0.leaf_bounds();
                let b1 = c1.leaf_bounds();
                let b2 = c2.leaf_bounds();
                let b3 = c3.leaf_bounds();
                let lb = self.leaf_bounds();
                assert(lb == b0 + b1 + b2 + b3);
                assert forall|k: int| 0 <= k < lb.len() implies (#[trigger] lb[k]).wf() && lb[k].size.x
                    > 0 && lb[k].size.y > 0 by {
                    if k < b0.len() {
                        assert(lb[k] == b0[k]);
                    } else if k < b0.len() + b1.len() {
                        assert(lb[k] == b1[k - b0.len()]);
                    } else if k < b0.len() + b1.len() + b2.len() {
                        assert(lb[k] == b2[k - b0.len() - b1.len()]);
                    } else {
                        assert(lb[k] == b3[k - b0.len() - b1.len() - b2.len()]);
                    }
                }
                assert forall|k: int, q: Vec2|
                    0 <= k < lb.len() && #[trigger] lb[k].spec_contains(q) implies self.bounds.spec_contains(
                    q) && (k < b0.len() ==> c0.bounds.spec_contains(q)) && (b0.len() <= k < b0.len()
                    + b1.len() ==> c1.bounds.spec_contains(q)) && (b0.len() + b1.len() <= k
                    < b0.len() + b1.len() + b2.len() ==> c2.bounds.spec_contains(q)) && (b0.len()
                    + b1.len() + b2.len() <= k ==> c3.bounds.spec_contains(q)) by {
                    if k < b0.len() {
                        assert(lb[k] == b0[k]);
                        assert(b0[k].spec_contains(q));
                        assert(c0.spec_bounds().spec_contains(q));
                    } else if k < b0.len() + b1.len() {
                        assert(lb[k] == b1[k - b0.len()]);
                        assert(b1[k - b0.len()].spec_contains(q));
                        assert(c1.spec_bounds().spec_contains(q));
                    } else if k < b0.len() + b1.len() + b2.len() {
                        assert(lb[k] == b2[k - b0.len() - b1.len()]);
                        assert(b2[k - b0.len() - b1.len()].spec_contains(q));
                        assert(c2.spec_bounds().spec_contains(q));
                    } else {
                        assert(lb[k] == b3[k - b0.len() - b1.len() - b2.len()]);
                        assert(b3[k - b0.len() - b1.len() - b2.len()].spec_contains(q));
                        assert(c3.spec_bounds().spec_contains(q));
                    }
                }
                assert forall|k1: int, k2: int, q: Vec2|
                    #![trigger lb[k1].spec_contains(q), lb[k2].spec_contains(q)]
                    0 <= k1 < lb.len() && 0 <= k2 < lb.len() && k1 != k2 implies !(
                lb[k1].spec_contains(q) && lb[k2].spec_contains(q)) by {
                    if lb[k1].spec_contains(q) && lb[k2].spec_contains(q) {
                        lemma_quadrants_partition(self.bounds, c0.bounds, c1.bounds, c2.bounds,
                            c3.bounds, q);
                        if k1 < b0.len() && k2 < b0.len() {
                            assert(b0[k1].spec_contains(q) && b0[k2].spec_contains(q));
                        } else if b0.len() <= k1 < b0.len() + b1.len() && b0.len() <= k2 < b0.len()
                            + b1.len() {
                            assert(b1[k1 - b0.len()].spec_contains(q) && b1[k2
                                - b0.len()].spec_contains(q));
                        } else if b0.len() + b1.len() <= k1 < b0.len() + b1.len() + b2.len()
                            && b0.len() + b1.len() <= k2 < b0.len() + b1.len() + b2.len() {
                            assert(b2[k1 - b0.len() - b1.len()].spec_contains(q) && b2[k2
                                - b0.len() - b1.len()].spec_contains(q));
                        } else if b0.len() + b1.len() + b2.len() <= k1 && b0.len() + b1.len()
                            + b2.len() <= k2 {
                            assert(b3[k1 - b0.len() - b1.len() - b2.len()].spec_contains(q)
                                && b3[k2 - b0.len() - b1.len() - b2.len()].spec_contains(q));
                        }
                    }
                }
                assert forall|k1: int, k2: int|
                    #![trigger lb[k1], lb[k2]]
                    0 <= k1 < lb.len() && 0 <= k2 < lb.len() && k1 != k2 implies lb[k1]
                    != lb[k2] by {
                    if lb[k1] == lb[k2] {
                        let q = lb[k1].pos;
                        assert(lb[k1].spec_contains(q));
                        assert(lb[k2].spec_contains(q));
                    }
                }
            },
        }
    }

    /// What the subdivision shape entails: a tree of shape
    /// `is_subdivision_of(bounds, pts)`, with every point of `pts` inside
    /// `bounds`, is well-formed, keeps `bounds`, holds exactly the multiset
    /// of `pts`, and has no leaf larger than `pts` itself.
    pub proof fn lemma_subdivision_effect(t: QuadTree<T>, bounds: Rect, pts: Seq<T>)
        requires
            bounds.wf(),
            t.is_subdivision_of(bounds, pts),
            forall|i: int| 0 <= i < pts.len() ==> bounds.spec_contains(#[trigger] pts[i].spec_pos()),
        ensures
            t.wf(),
            t.spec_bounds() == bounds,
            t.all_points().to_multiset() == pts.to_multiset(),
            t.leaves_within(pts.len() as int),
    {
        match t.node {
            Node::Leaf(_) => {},
            Node::Internal(d0, d1, d2, d3) => {
                lemma_quadrant_wf(bounds, d0.bounds, 0);
                lemma_quadrant_wf(bounds, d1.bounds, 1);
                lemma_quadrant_wf(bounds, d2.bounds, 2);
                lemma_quadrant_wf(bounds, d3.bounds, 3);
                lemma_filter_partition(pts, bounds, d0.bounds, d1.bounds, d2.bounds, d3.bounds);
                let f0 = pts.filter(|t: T| d0.bounds.spec_contains(t.spec_pos()));
                let f1 = pts.filter(|t: T| d1.bounds.spec_contains(t.spec_pos()));
                let f2 = pts.filter(|t: T| d2.bounds.spec_contains(t.spec_pos()));
                let f3 = pts.filter(|t: T| d3.bounds.spec_contains(t.spec_pos()));
                assert(d0.is_leaf_holding(f0));
                assert(d1.is_leaf_holding(f1));
                assert(d2.is_leaf_holding(f2));
                assert(d3.is_leaf_holding(f3));
                assert(d0.all_points() == f0);
                assert(d1.all_points() == f1);
                assert(d2.all_points() == f2);
                assert(d3.all_points() == f3);
                assert(t.all_points() == f0 + f1 + f2 + f3);
                lemma_concat4_multiset(f0, f1, f2, f3);
                assert forall|i: int| 0 <= i < f0.len() implies d0.bounds.spec_contains(
                    #[trigger] f0[i].spec_pos()) by {
                    pts.lemma_filter_pred(|t: T| d0.bounds.spec_contains(t.spec_pos()), i);
                }
                assert forall|i: int| 0 <= i < f1.len() implies d1.bounds.spec_contains(
                    #[trigger] f1[i].spec_pos()) by {
                    pts.lemma_filter_pred(|t: T| d1.bounds.spec_contains(t.spec_pos()), i);
                }
                assert forall|i: int| 0 <= i < f2.len() implies d2.bounds.spec_contains(
                    #[trigger] f2[i].spec_pos()) by {
                    pts.lemma_filter_pred(|t: T| d2.bounds.spec_contains(t.spec_pos()), i);
                }
                assert forall|i: int| 0 <= i < f3.len() implies d3.bounds.spec_contains(
                    #[trigger] f3[i].spec_pos()) by {
                    pts.lemma_filter_pred(|t: T| d3.bounds.spec_contains(t.spec_pos()), i);
                }
                pts.lemma_filter_len(|t: T| d0.bounds.spec_contains(t.spec_pos()));
                pts.lemma_filter_len(|t: T| d1.bounds.spec_contains(t.spec_pos()));
                pts.lemma_filter_len(|t: T| d2.bounds.spec_contains(t.spec_pos()));
                pts.lemma_filter_len(|t: T| d3.bounds.spec_contains(t.spec_pos()));
                assert(d0.wf() && d0.leaves_within(pts.len() as int));
                assert(d1.wf() && d1.leaves_within(pts.len() as int));
                assert(d2.wf() && d2.leaves_within(pts.len() as int));
                assert(d3.wf() && d3.leaves_within(pts.len() as int));
                assert(t.wf());
                assert(t.leaves_within(pts.len() as int));
            },
        }
    }

    /// What one `insert_step` entails for any pair of related trees: the
    /// step preserves well-formedness and the rectangle, and changes the
    /// stored multiset by exactly the inserted point when the rectangle
    /// contains it, not at all otherwise.
    pub proof fn lemma_insert_step_effect(pre: QuadTree<T>, post: QuadTree<T>, p: T)
        requires
            pre.wf(),
            Self::insert_step(pre, post, p),
        ensures
            post.wf(),
            post.spec_bounds() == pre.spec_bounds(),
            post.all_points().to_multiset() == if pre.spec_bounds().spec_contains(p.spec_pos()) {
                pre.all_points().to_multiset().insert(p)
            } else {
                pre.all_points().to_multiset()
            },
        decreases pre,
    {
        if pre.bounds.spec_contains(p.spec_pos()) {
            match pre.node {
                Node::Leaf(v) => {
                    assert forall|i: int|
                        0 <= i < v@.push(p).len() implies pre.bounds.spec_contains(
                        #[trigger] v@.push(p)[i].spec_pos()) by {
                        if i < v@.len() {
                            assert(v@.push(p)[i] == v@[i]);
                        }
                    }
                    if v@.len() + 1 >= CAPACITY {
                        Self::lemma_subdivision_effect(post, pre.bounds, v@.push(p));
                        assert(v@.push(p).to_multiset() =~= v@.to_multiset().insert(p));
                    } else {
                        match post.node {
                            Node::Leaf(w) => {
                                assert(w@ == v@.push(p));
                                assert(w@.to_multiset() =~= v@.to_multiset().insert(p));
                            },
                            Node::Internal(_, _, _, _) => {},
                        }
                    }
                },
                Node::Internal(c0, c1, c2, c3) => {
                    match post.node {
                        Node::Leaf(_) => {},
                        Node::Internal(d0, d1, d2, d3) => {
                            lemma_concat4_multiset(c0.all_points(), c1.all_points(),
                                c2.all_points(), c3.all_points());
                            lemma_concat4_multiset(d0.all_points(), d1.all_points(),
                                d2.all_points(), d3.all_points());
                            if c0.bounds.spec_contains(p.spec_pos()) {
                                Self::lemma_insert_step_effect(*c0, *d0, p);
                                assert(post.all_points().to_multiset()
                                    =~= pre.all_points().to_multiset().insert(p));
                            } else if c1.bounds.spec_contains(p.spec_pos()) {
                                Self::lemma_insert_step_effect(*c1, *d1, p);
                                assert(post.all_points().to_multiset()
                                    =~= pre.all_points().to_multiset().insert(p));
                            } else if c2.bounds.spec_contains(p.spec_pos()) {
                                Self::lemma_insert_step_effect(*c2, *d2, p);
                                assert(post.all_points().to_multiset()
                                    =~= pre.all_points().to_multiset().insert(p));
                            } else if c3.bounds.spec_contains(p.spec_pos()) {
                                Self::lemma_insert_step_effect(*c3, *d3, p);
                                assert(post.all_points().to_multiset()
                                    =~= pre.all_points().to_multiset().insert(p));
                            } else {
                                lemma_quadrants_partition(pre.bounds, c0.bounds, c1.bounds,
                                    c2.bounds, c3.bounds, p.spec_pos());
                            }
                        },
                    }
                },
            }
        }
    }

    /// Partition disjointness at a subdivided node of a well-formed tree:
    /// any point inside the node's rectangle is contained by the rectangle
    /// of exactly one of its four children.
    pub proof fn lemma_children_partition(self, p: Vec2)
        requires
            self.wf(),
            !self.is_leaf(),
            self.spec_bounds().spec_contains(p),
        ensures
            match self.node {
                Node::Leaf(_) => self.is_leaf(),
                Node::Internal(c0, c1, c2, c3) => (if c0.bounds.spec_contains(p) {
                    1int
                } else {
                    0int
                }) + (if c1.bounds.spec_contains(p) {
                    1int
                } else {
                    0int
                }) + (if c2.bounds.spec_contains(p) {
                    1int
                } else {
                    0int
                }) + (if c3.bounds.spec_contains(p) {
                    1int
                } else {
                    0int
                }) == 1,
            },
    {
        match self.node {
            Node::Leaf(_) => {},
            Node::Internal(c0, c1, c2, c3) => {
                lemma_quadrants_partition(self.bounds, c0.bounds, c1.bounds, c2.bounds, c3.bounds,
                    p);
            },
        }
    }

    /// Containment invariant over any sequence of insertions: starting from
    /// a well-formed tree that stores nothing and applying one `insert_step`
    /// per point, the final tree stores exactly the multiset of the accepted
    /// points — those whose position the (fixed) world rectangle contains.
    /// `states` lists the trees around each step: `states[k]` steps to
    /// `states[k + 1]` by inserting `pts[k]`.
    pub proof fn lemma_insert_sequence_multiset(states: Seq<QuadTree<T>>, pts: Seq<T>)
        requires
            states.len() == pts.len() + 1,
            states[0].wf(),
            states[0].all_points() == Seq::<T>::empty(),
            forall|k: int|
                0 <= k < pts.len() ==> Self::insert_step(#[trigger] states[k], states[k + 1],
                    pts[k]),
        ensures
            states.last().wf(),
            states.last().spec_bounds() == states[0].spec_bounds(),
            states.last().all_points().to_multiset() == pts.filter(
                |x: T| states[0].spec_bounds().spec_contains(x.spec_pos()),
            ).to_multiset(),
        decreases pts.len(),
    {
        if pts.len() == 0 {
            assert(states.last() == states[0]);
            reveal(Seq::filter);
            assert(pts.filter(|x: T| states[0].spec_bounds().spec_contains(x.spec_pos())) =~= Seq::<
                T,
            >::empty());
            assert(states.last().all_points().to_multiset() =~= pts.filter(
                |x: T| states[0].spec_bounds().spec_contains(x.spec_pos()),
            ).to_multiset());
        } else {
            let n: int = pts.len() as int;
            let prefix_states = states.take(n);
            let prefix = pts.take(n - 1);
            assert(prefix_states[0] == states[0]);
            assert forall|k: int|
                0 <= k < prefix.len() implies Self::insert_step(#[trigger] prefix_states[k],
                prefix_states[k + 1], prefix[k]) by {
                assert(prefix_states[k] == states[k]);
                assert(prefix_states[k + 1] == states[k + 1]);
                assert(prefix[k] == pts[k]);
            }
            Self::lemma_insert_sequence_multiset(prefix_states, prefix);
            let pre = states[n - 1];
            let post = states[n];
            assert(pre == prefix_states.last());
            assert(Self::insert_step(pre, post, pts[n - 1]));
            Self::lemma_insert_step_effect(pre, post, pts[n - 1]);
            assert(post == states.last());
            assert(pts =~= prefix.push(pts[n - 1]));
            prefix.lemma_filter_push(pts[n - 1],
                |x: T| states[0].spec_bounds().spec_contains(x.spec_pos()));
            assert(prefix.filter(|x: T| states[0].spec_bounds().spec_contains(x.spec_pos())).push(
                pts[n - 1]).to_multiset() =~= prefix.filter(
                |x: T| states[0].spec_bounds().spec_contains(x.spec_pos()),
            ).to_multiset().insert(pts[n - 1]));
        }
    }

    /// Splits a leaf over `bounds` holding `points` into an internal node:
    /// four quadrant children, each a leaf holding the points its rectangle
    /// contains. A child is never re-subdivided here, even if it receives
    /// every point.
    fn subdivide(bounds: Rect, points: Vec<T>) -> (t: QuadTree<T>)
        requires
            bounds.wf(),
            forall|i: int|
                0 <= i < points@.len() ==> bounds.spec_contains(#[trigger] points@[i].spec_pos()),
        ensures
            t.wf(),
            t.spec_bounds() == bounds,
            t.is_subdivision_of(bounds, points@),
            t.all_points().to_multiset() == points@.to_multiset(),
            t.leaves_within(points@.len() as int),
    {
        let hw: i64 = ((bounds.size.x as u64) / 2) as i64;
        let hh: i64 = ((bounds.size.y as u64) / 2) as i64;
        let r0 = Rect {
            pos: Vec2 { x: bounds.pos.x + hw, y: bounds.pos.y },
            size: Vec2 { x: bounds.size.x - hw, y: hh },
        };
        let r1 = Rect { pos: bounds.pos, size: Vec2 { x: hw, y: hh } };
        let r2 = Rect {
            pos: Vec2 { x: bounds.pos.x, y: bounds.pos.y + hh },
            size: Vec2 { x: hw, y: bounds.size.y - hh },
        };
        let r3 = Rect {
            pos: Vec2 { x: bounds.pos.x + hw, y: bounds.pos.y + hh },
            size: Vec2 { x: bounds.size.x - hw, y: bounds.size.y - hh },
        };
        let v0 = r0.points_inside(&points);
        let v1 = r1.points_inside(&points);
        let v2 = r2.points_inside(&points);
        let v3 = r3.points_inside(&points);
        let t = QuadTree {
            bounds,
            node: Node::Internal(
                Box::new(QuadTree { bounds: r0, node: Node::Leaf(v0) }),
                Box::new(QuadTree { bounds: r1, node: Node::Leaf(v1) }),
                Box::new(QuadTree { bounds: r2, node: Node::Leaf(v2) }),
                Box::new(QuadTree { bounds: r3, node: Node::Leaf(v3) }),
            ),
        };
        proof {
            assert(quad_split(bounds, r0, 0));
            assert(quad_split(bounds, r1, 1));
            assert(quad_split(bounds, r2, 2));
            assert(quad_split(bounds, r3, 3));
            let c0 = (QuadTree::<T> { bounds: r0, node: Node::Leaf(v0) });
            let c1 = (QuadTree::<T> { bounds: r1, node: Node::Leaf(v1) });
            let c2 = (QuadTree::<T> { bounds: r2, node: Node::Leaf(v2) });
            let c3 = (QuadTree::<T> { bounds: r3, node: Node::Leaf(v3) });
            assert(c0.is_leaf_holding(points@.filter(
                |t: T| r0.spec_contains(t.spec_pos()),
            )));
            assert(c1.is_leaf_holding(points@.filter(
                |t: T| r1.spec_contains(t.spec_pos()),
            )));
            assert(c2.is_leaf_holding(points@.filter(
                |t: T| r2.spec_contains(t.spec_pos()),
            )));
            assert(c3.is_leaf_holding(points@.filter(
                |t: T| r3.spec_contains(t.spec_pos()),
            )));
            assert(t.is_subdivision_of(bounds, points@));
            Self::lemma_subdivision_effect(t, bounds, points@);
        }
        t
    }

    /// The owned-value worker behind `insert`: returns the updated tree
    /// together with the insertion outcome.
    fn insert_val(self, p: T) -> (res: (QuadTree<T>, Result<(), TreeError>))
        requires
            self.wf(),
        ensures
            res.0.wf(),
            res.0.spec_bounds() == self.spec_bounds(),
            res.1 is Ok <==> self.spec_bounds().spec_contains(p.spec_pos()),
            res.1 is Ok ==> res.0.all_points().to_multiset() == self.all_points().to_multiset()
                .insert(p),
            res.1 is Err ==> res.0 == self && res.1 == Err::<(), TreeError>(TreeError::OutOfBounds),
            Self::insert_step(self, res.0, p),
            self.leaves_within(CAPACITY - 1) ==> res.0.leaves_within(CAPACITY as int),
            forall|n: int|
                n >= CAPACITY - 1 && #[trigger] self.leaves_within(n) ==> res.0.leaves_within(
                    n + 1,
                ),
        decreases self,
    {
        if !self.bounds.contains(&p) {
            proof {
                assert forall|n: int|
                    n >= CAPACITY - 1 && #[trigger] self.leaves_within(n) implies self.leaves_within(
                    n + 1) by {
                    self.lemma_leaves_within_widen(n, n + 1);
                }
                if self.leaves_within(CAPACITY - 1) {
                    self.lemma_leaves_within_widen(CAPACITY - 1, CAPACITY as int);
                }
            }
            return (self, Err(TreeError::OutOfBounds));
        }
        let QuadTree { bounds, node } = self;
        match node {
            Node::Leaf(mut points) => {
                let ghost v0 = points@;
                points.push(p);
                if points.len() >= CAPACITY {
                    let t = Self::subdivide(bounds, points);
                    proof {
                        assert(Self::insert_step(self, t, p));
                        assert forall|n: int|
                            n >= CAPACITY - 1 && #[trigger] self.leaves_within(n) implies t.leaves_within(
                            n + 1) by {
                            t.lemma_leaves_within_widen(v0.len() as int + 1, n + 1);
                        }
                    }
                    (t, Ok(()))
                } else {
                    let t = QuadTree { bounds, node: Node::Leaf(points) };
                    proof {
                        assert(t.is_leaf_holding(v0.push(p)));
                        assert(Self::insert_step(self, t, p));
                    }
                    (t, Ok(()))
                }
            },
            Node::Internal(c0, c1, c2, c3) => {
                let ghost a0 = c0.all_points();
                let ghost a1 = c1.all_points();
                let ghost a2 = c2.all_points();
                let ghost a3 = c3.all_points();
                let ghost oc0 = *c0;
                let ghost oc1 = *c1;
                let ghost oc2 = *c2;
                let ghost oc3 = *c3;
                proof {
                    lemma_concat4_multiset(a0, a1, a2, a3);
                }
                if c0.bounds.contains(&p) {
                    let (n0, r) = (*c0).insert_val(p);
                    let ghost g0 = n0;
                    let t = QuadTree { bounds, node: Node::Internal(Box::new(n0), c1, c2, c3) };
                    proof {
                        lemma_concat4_multiset(g0.all_points(), a1, a2, a3);
                        assert(g0.all_points().to_multiset().add(a1.to_multiset()).add(
                            a2.to_multiset()).add(a3.to_multiset()) =~= a0.to_multiset().add(
                            a1.to_multiset()).add(a2.to_multiset()).add(a3.to_multiset()).insert(
                            p));
                        assert(Self::insert_step(self, t, p));
                        assert forall|n: int|
                            n >= CAPACITY - 1 && #[trigger] self.leaves_within(n) implies t.leaves_within(
                            n + 1) by {
                            assert(oc0.leaves_within(n));
                            assert(g0.leaves_within(n + 1));
                            oc1.lemma_leaves_within_widen(n, n + 1);
                            oc2.lemma_leaves_within_widen(n, n + 1);
                            oc3.lemma_leaves_within_widen(n, n + 1);
                        }
                    }
                    (t, r)
                } else if c1.bounds.contains(&p) {
                    let (n1, r) = (*c1).insert_val(p);
                    let ghost g1 = n1;
                    let t = QuadTree { bounds, node: Node::Internal(c0, Box::new(n1), c2, c3) };
                    proof {
                        lemma_concat4_multiset(a0, g1.all_points(), a2, a3);
                        assert(a0.to_multiset().add(g1.all_points().to_multiset()).add(
                            a2.to_multiset()).add(a3.to_multiset()) =~= a0.to_multiset().add(
                            a1.to_multiset()).add(a2.to_multiset()).add(a3.to_multiset()).insert(
                            p));
                        assert(Self::insert_step(self, t, p));
                        assert forall|n: int|
                            n >= CAPACITY - 1 && #[trigger] self.leaves_within(n) implies t.leaves_within(
                            n + 1) by {
                            assert(oc1.leaves_within(n));
                            assert(g1.leaves_within(n + 1));
                            oc0.lemma_leaves_within_widen(n, n + 1);
                            oc2.lemma_leaves_within_widen(n, n + 1);
                            oc3.lemma_leaves_within_widen(n, n + 1);
                        }
                    }
                    (t, r)
                } else if c2.bounds.contains(&p) {
                    let (n2, r) = (*c2).insert_val(p);
                    let ghost g2 = n2;
                    let t = QuadTree { bounds, node: Node::Internal(c0, c1, Box::new(n2), c3) };
                    proof {
                        lemma_concat4_multiset(a0, a1, g2.all_points(), a3);
                        assert(a0.to_multiset().add(a1.to_multiset()).add(
                            g2.all_points().to_multiset()).add(a3.to_multiset())
                            =~= a0.to_multiset().add(a1.to_multiset()).add(a2.to_multiset()).add(
                            a3.to_multiset()).insert(p));
                        assert(Self::insert_step(self, t, p));
                        assert forall|n: int|
                            n >= CAPACITY - 1 && #[trigger] self.leaves_within(n) implies t.leaves_within(
                            n + 1) by {
                            assert(oc2.leaves_within(n));
                            assert(g2.leaves_within(n + 1));
                            oc0.lemma_leaves_within_widen(n, n + 1);
                            oc1.lemma_leaves_within_widen(n, n + 1);
                            oc3.lemma_leaves_within_widen(n, n + 1);
                        }
                    }
                    (t, r)
                } else if c3.bounds.contains(&p) {
                    let (n3, r) = (*c3).insert_val(p);
                    let ghost g3 = n3;
                    let t = QuadTree { bounds, node: Node::Internal(c0, c1, c2, Box::new(n3)) };
                    proof {
                        lemma_concat4_multiset(a0, a1, a2, g3.all_points());
                        assert(a0.to_multiset().add(a1.to_multiset()).add(a2.to_multiset()).add(
                            g3.all_points().to_multiset()) =~= a0.to_multiset().add(
                            a1.to_multiset()).add(a2.to_multiset()).add(a3.to_multiset()).insert(
                            p));
                        assert(Self::insert_step(self, t, p));
                        assert forall|n: int|
                            n >= CAPACITY - 1 && #[trigger] self.leaves_within(n) implies t.leaves_within(
                            n + 1) by {
                            assert(oc3.leaves_within(n));
                            assert(g3.leaves_within(n + 1));
                            oc0.lemma_leaves_within_widen(n, n + 1);
                            oc1.lemma_leaves_within_widen(n, n + 1);
                            oc2.lemma_leaves_within_widen(n, n + 1);
                        }
                    }
                    (t, r)
                } else {
                    proof {
                        lemma_quadrants_partition(bounds, c0.bounds, c1.bounds, c2.bounds,
                            c3.bounds, p.spec_pos());
                        assert(false);
                    }
                    (
                        QuadTree { bounds, node: Node::Internal(c0, c1, c2, c3) },
                        Err(TreeError::NoMatchingChild),
                    )
                }
            },
        }
    }

    /// Attempts to insert a point. Fails with `OutOfBounds`, leaving the tree
    /// unchanged, exactly when the point lies outside the tree's rectangle;
    /// on success the stored multiset of points grows by exactly `p`, and a
    /// leaf that reaches `CAPACITY` points subdivides at once.
    pub fn insert(&mut self, p: T) -> (r: Result<(), TreeError>)
        requires
            old(self).wf(),
        ensures
            final(self).wf(),
            final(self).spec_bounds() == old(self).spec_bounds(),
            r is Ok <==> old(self).spec_bounds().spec_contains(p.spec_pos()),
            r is Ok ==> final(self).all_points().to_multiset() == old(self).all_points()
                .to_multiset().insert(p),
            r is Err ==> *final(self) == *old(self) && r == Err::<(), TreeError>(
                TreeError::OutOfBounds,
            ),
            Self::insert_step(*old(self), *final(self), p),
            old(self).leaves_within(CAPACITY - 1) ==> final(self).leaves_within(CAPACITY as int),
            forall|n: int|
                n >= CAPACITY - 1 && #[trigger] old(self).leaves_within(n)
                    ==> final(self).leaves_within(n + 1),
    {
        let mut tmp = QuadTree { bounds: self.bounds, node: Node::Leaf(Vec::new()) };
        core::mem::swap(self, &mut tmp);
        let (t, r) = tmp.insert_val(p);
        *self = t;
        r
    }

    /// Creates an empty tree (a leaf with no points) over the world
    /// rectangle `r`.
    pub fn new_empty(r: Rect) -> (t: QuadTree<T>)
        requires
            r.wf(),
        ensures
            t.wf(),
            t.spec_bounds() == r,
            t.is_leaf_holding(Seq::<T>::empty()),
            t.all_points() == Seq::<T>::empty(),
            t.leaf_bounds() == Seq::<Rect>::empty(),
            t.leaves_within(0),
    {
        QuadTree { bounds: r, node: Node::Leaf(Vec::new()) }
    }

    /// Builds a tree over `r` by inserting the elements of `i` one at a
    /// time, in order. An element whose position lies outside `r` is
    /// silently dropped: an explicit policy of this bulk constructor, so the
    /// result holds exactly the contained elements.
    pub fn from(i: Vec<T>, r: Rect) -> (t: QuadTree<T>)
        requires
            r.wf(),
        ensures
            t.wf(),
            t.spec_bounds() == r,
            t.all_points().to_multiset() == i@.filter(
                |x: T| r.spec_contains(x.spec_pos()),
            ).to_multiset(),
    {
        let mut q: QuadTree<T> = Self::new_empty(r);
        let mut j: usize = 0;
        proof {
            assert(i@.take(0int).filter(|x: T| r.spec_contains(x.spec_pos())) =~= Seq::<
                T,
            >::empty());
            assert(q.all_points().to_multiset() =~= i@.take(0int).filter(
                |x: T| r.spec_contains(x.spec_pos()),
            ).to_multiset());
        }
        while j < i.len()
            invariant
                j <= i.len(),
                q.wf(),
                q.spec_bounds() == r,
                q.all_points().to_multiset() == i@.take(j as int).filter(
                    |x: T| r.spec_contains(x.spec_pos()),
                ).to_multiset(),
            decreases i.len() - j,
        {
            proof {
                assert(i@.take(j + 1int) =~= i@.take(j as int).push(i@[j as int]));
                i@.take(j as int).lemma_filter_push(i@[j as int],
                    |x: T| r.spec_contains(x.spec_pos()));
                assert(i@.take(j as int).filter(|x: T| r.spec_contains(x.spec_pos())).push(
                    i@[j as int]).to_multiset() =~= i@.take(j as int).filter(
                    |x: T| r.spec_contains(x.spec_pos()),
                ).to_multiset().insert(i@[j as int]));
            }
            let x = i[j];
            let _res = q.insert(x);
            j += 1;
        }
        proof {
            assert(i@.take(i@.len() as int) =~= i@);
        }
        q
    }

    /// The positions of all stored points, in storage order: a leaf reports
    /// its points' positions; a subdivided node reports its children's
    /// results concatenated in child order.
    pub fn get_positions(&self) -> (r: Vec<Vec2>)
        ensures
            r@ == self.positions(),
        decreases self,
    {
        match &self.node {
            Node::Leaf(v) => {
                let mut r: Vec<Vec2> = Vec::new();
                let mut k: usize = 0;
                proof {
                    assert(v@.take(0int).map_values(|t: T| t.spec_pos()) =~= Seq::<
                        Vec2,
                    >::empty());
                }
                while k < v.len()
                    invariant
                        k <= v.len(),
                        r@ == v@.take(k as int).map_values(|t: T| t.spec_pos()),
                    decreases v.len() - k,
                {
                    proof {
                        assert(v@.take(k + 1int) =~= v@.take(k as int).push(v@[k as int]));
                        v@.take(k as int).lemma_push_map_commute(|t: T| t.spec_pos(),
                            v@[k as int]);
                    }
                    r.push(v[k].get_pos());
                    k += 1;
                }
                proof {
                    assert(v@.take(v@.len() as int) =~= v@);
                }
                r
            },
            Node::Internal(c0, c1, c2, c3) => {
                let mut r = c0.get_positions();
                let mut s1 = c1.get_positions();
                let mut s2 = c2.get_positions();
                let mut s3 = c3.get_positions();
                proof {
                    lemma_map_values_concat(c0.all_points(), c1.all_points(),
                        |t: T| t.spec_pos());
                    lemma_map_values_concat(c0.all_points() + c1.all_points(), c2.all_points(),
                        |t: T| t.spec_pos());
                    lemma_map_values_concat(c0.all_points() + c1.all_points() + c2.all_points(),
                        c3.all_points(), |t: T| t.spec_pos());
                }
                r.append(&mut s1);
                r.append(&mut s2);
                r.append(&mut s3);
                r
            },
        }
    }

    /// The rectangles of the occupied leaves; empty leaves (for example the
    /// siblings created by a subdivision that received no points) are not
    /// reported.
    pub fn get_bounds(&self) -> (r: Vec<Rect>)
        ensures
            r@ == self.leaf_bounds(),
        decreases self,
    {
        match &self.node {
            Node::Leaf(v) => {
                let mut r: Vec<Rect> = Vec::new();
                if v.len() > 0 {
                    r.push(self.bounds);
                    proof {
                        assert(r@ =~= seq![self.bounds]);
                    }
                } else {
                    proof {
                        assert(r@ =~= Seq::<Rect>::empty());
                    }
                }
                r
            },
            Node::Internal(c0, c1, c2, c3) => {
                let mut r = c0.get_bounds();
                let mut s1 = c1.get_bounds();
                let mut s2 = c2.get_bounds();
                let mut s3 = c3.get_bounds();
                r.append(&mut s1);
                r.append(&mut s2);
                r.append(&mut s3);
                r
            },
        }
    }

    /// The leaves whose rectangles the segment `l` crosses: a subdivided
    /// node descends only into children whose rectangles the segment
    /// crosses; a crossed leaf reports itself whether or not it holds
    /// points. The references are read-only views into the tree.
    pub fn get_intersecting_bounds<'a>(&'a self, l: &Line) -> (r: Vec<&'a QuadTree<T>>)
        requires
            self.wf(),
            l.wf(),
        ensures
            r@.map_values(|q: &QuadTree<T>| *q) == self.intersecting_leaves(*l),
        decreases self,
    {
        let ghost f = |q: &'a QuadTree<T>| *q;
        let mut r: Vec<&'a QuadTree<T>> = Vec::new();
        match &self.node {
            Node::Leaf(_) => {
                if l.linerect_intersect(&self.bounds) {
                    r.push(self);
                    proof {
                        assert(r@.map_values(f) =~= seq![*self]);
                    }
                } else {
                    proof {
                        assert(r@.map_values(f) =~= Seq::<QuadTree<T>>::empty());
                    }
                }
            },
            Node::Internal(c0, c1, c2, c3) => {
                let ghost g0 = if l.spec_rect_intersect(c0.bounds) {
                    c0.intersecting_leaves(*l)
                } else {
                    Seq::<QuadTree<T>>::empty()
                };
                let ghost g1 = if l.spec_rect_intersect(c1.bounds) {
                    c1.intersecting_leaves(*l)
                } else {
                    Seq::<QuadTree<T>>::empty()
                };
                let ghost g2 = if l.spec_rect_intersect(c2.bounds) {
                    c2.intersecting_leaves(*l)
                } else {
                    Seq::<QuadTree<T>>::empty()
                };
                let ghost g3 = if l.spec_rect_intersect(c3.bounds) {
                    c3.intersecting_leaves(*l)
                } else {
                    Seq::<QuadTree<T>>::empty()
                };
                if l.linerect_intersect(&c0.bounds) {
                    let mut s0 = c0.get_intersecting_bounds(l);
                    r.append(&mut s0);
                }
                proof {
                    assert(r@.map_values(f) =~= g0);
                }
                if l.linerect_intersect(&c1.bounds) {
                    let mut s1 = c1.get_intersecting_bounds(l);
                    proof {
                        lemma_map_values_concat(r@, s1@, f);
                    }
                    r.append(&mut s1);
                }
                proof {
                    assert(r@.map_values(f) =~= g0 + g1);
                }
                if l.linerect_intersect(&c2.bounds) {
                    let mut s2 = c2.get_intersecting_bounds(l);
                    proof {
                        lemma_map_values_concat(r@, s2@, f);
                    }
                    r.append(&mut s2);
                }
                proof {
                    assert(r@.map_values(f) =~= g0 + g1 + g2);
                }
                if l.linerect_intersect(&c3.bounds) {
                    let mut s3 = c3.get_intersecting_bounds(l);
                    proof {
                        lemma_map_values_concat(r@, s3@, f);
                    }
                    r.append(&mut s3);
                }
                proof {
                    assert(r@.map_values(f) =~= g0 + g1 + g2 + g3);
                }
            },
        }
        r
    }

    /// Reports no stored elements; kept as part of the read-only query
    /// surface, which exposes positions rather than the elements themselves.
    pub fn get_objects(&self) -> (r: Vec<T>)
        ensures
            r@ == Seq::<T>::empty(),
    {
        let r: Vec<T> = Vec::new();
        r
    }
}

/// Mapping a function over a concatenation equals concatenating the mapped
/// parts.
proof fn lemma_map_values_concat<A, B>(a: Seq<A>, b: Seq<A>, f: spec_fn(A) -> B)
    ensures
        (a + b).map_values(f) == a.map_values(f) + b.map_values(f),
{
    assert((a + b).map_values(f) =~= a.map_values(f) + b.map_values(f));
}

} // verus!

//! The labeled partition tree: a quadtree over a rectangle of the grid that
//! tells which labeled region a point lies in.
//!
//! A tree is built from a collection of regions ([`Region`]), a root box and
//! a depth limit ([`LabeledPartitionTree::build`]). Building bisects a box
//! and hands each quadrant the regions that `geo` finds to intersect it,
//! until the depth limit is reached, no region is left, or the only region
//! left contains the whole box. A leaf keeps what is left of its candidates
//! ([`Piece`]); a query walks down to the leaves whose box the point lies in
//! and asks their pieces ([`LabeledPartitionTree::label`]).
//!
//! What a tree is, as a mathematical value, is a [`NodeView`]. The contracts
//! of this module, and the laws of [`crate::laws`], speak of that value.
use crate::geometry::{shapes_of, Point, Polygon, Rect};
use crate::kernel::{
    clip_outline, clipped, covers_rect, grid_outline, has_point, meets_rect,
    outline_contains_rect, outline_from_grid, outline_has_point, outline_is_valid,
    outline_of_rect, rect_intersects_outline, rect_outline, sound, valid_grid,
    valid_polygon, Outline,
};
use vstd::arithmetic::power2::{
    lemma2_to64, lemma_pow2_pos, lemma_pow2_strictly_increases, lemma_pow2_unfold, pow2,
};
use vstd::prelude::*;

verus! {

/// The deepest tree that can be built. A tree of this depth has at most
/// `4^15` leaves, which is the largest power of four that fits in a `usize`
/// on every platform.
pub const MAX_DEPTH: usize = 15;

/// Why a tree could not be built.
#[derive(Clone, Copy, Debug, PartialEq, Eq, Structural)]
pub enum BuildError {
    /// The depth limit is larger than `MAX_DEPTH`.
    InvalidMaxDepth,
    /// The collection holds no region.
    EmptyCollection,
    /// The root box has no interior, or its sides are not multiples of
    /// `2^max_depth`, so that it cannot be bisected down to the depth limit.
    UnevenBounds,
}

/// A label together with an outline: what a leaf keeps of a region, and what
/// a region of the collection looks like to the specifications.
pub struct Piece<T> {
    pub label: T,
    pub outline: Outline,
}

/// A region of the collection: a label and the outline of the region, built
/// from polygons on the grid.
pub struct Region<T> {
    label: T,
    outline: Outline,
}

impl<T> View for Region<T> {
    type V = Piece<T>;

    closed spec fn view(&self) -> Piece<T> {
        Piece { label: self.label, outline: self.outline }
    }
}

impl<T> Region<T> {
    /// The outline of a region is built from grid polygons that `geo` finds
    /// valid, one by one and together.
    #[verifier::type_invariant]
    spec fn made_sound(self) -> bool {
        sound(self.outline)
    }

    /// The region with the given label whose outline consists of the given
    /// polygons, if they are valid: if there is at least one, every ring of
    /// them encloses an area, and `geo` finds each of them valid, and the
    /// outline that they make together. A region is not made of anything
    /// else.
    pub fn new(label: T, polygons: &Vec<Polygon>) -> (made: Option<Region<T>>)
        ensures
            made is Some <==> valid_grid(shapes_of(polygons@)),
            made matches Some(region) ==> {
                &&& region@.label == label
                &&& region@.outline == grid_outline(shapes_of(polygons@))
                &&& sound(region@.outline)
            },
    {
        if polygons.len() == 0 {
            return None;
        }
        let mut i: usize = 0;
        while i < polygons.len()
            invariant
                i <= polygons.len(),
                forall|j: int| 0 <= j < i ==> valid_polygon(#[trigger] shapes_of(polygons@)[j]),
            decreases polygons.len() - i,
        {
            assert(shapes_of(polygons@)[i as int] == polygons[i as int]@);
            if !polygons[i].is_valid() {
                return None;
            }
            i = i + 1;
        }
        let outline = outline_from_grid(polygons);
        if !outline_is_valid(&outline) {
            return None;
        }
        Some(Region { label, outline })
    }

    /// The label of the region.
    pub fn label(&self) -> (label: &T)
        ensures
            *label == self@.label,
    {
        &self.label
    }

    /// The outline of the region.
    pub fn outline(&self) -> (outline: &Outline)
        ensures
            *outline == self@.outline,
    {
        &self.outline
    }
}

/// A node of the tree as a mathematical value.
pub struct NodeView<T> {
    /// The rectangle that the node stands for.
    pub bounds: Rect,
    /// No children at a leaf, the four quadrants at an internal node.
    pub children: Seq<NodeView<T>>,
    /// What a leaf holds of the regions that reach it, in the order of the
    /// candidate list that the leaf was built from.
    pub pieces: Seq<Piece<T>>,
}

impl<T> NodeView<T> {
    pub open spec fn is_leaf(self) -> bool {
        self.children.len() == 0
    }

    /// Number of steps from the node down to its deepest leaf.
    pub open spec fn height(self) -> nat
        decreases self, 0nat,
    {
        if self.is_leaf() {
            0
        } else {
            1 + Self::height_from(self.children, 0)
        }
    }

    /// The greatest height among the children from the `i`-th on.
    pub open spec fn height_from(children: Seq<NodeView<T>>, i: int) -> nat
        decreases children, children.len() - i,
    {
        if 0 <= i < children.len() {
            let here = children[i].height();
            let rest = Self::height_from(children, i + 1);
            if here >= rest { here } else { rest }
        } else {
            0
        }
    }

    /// Number of leaves below the node, the node itself counted if it is one.
    pub open spec fn leaf_count(self) -> nat
        decreases self, 0nat,
    {
        if self.is_leaf() {
            1
        } else {
            Self::leaf_count_from(self.children, 0)
        }
    }

    /// Number of leaves below the children from the `i`-th on.
    pub open spec fn leaf_count_from(children: Seq<NodeView<T>>, i: int) -> nat
        decreases children, children.len() - i,
    {
        if 0 <= i < children.len() {
            children[i].leaf_count() + Self::leaf_count_from(children, i + 1)
        } else {
            0
        }
    }

    /// The rectangles of the leaves below the node, from the first child's
    /// leaves to the last child's.
    pub open spec fn leaf_rects(self) -> Seq<Rect>
        decreases self, 0nat,
    {
        if self.is_leaf() {
            seq![self.bounds]
        } else {
            Self::leaf_rects_from(self.children, 0)
        }
    }

    /// The rectangles of the leaves below the children from the `i`-th on.
    pub open spec fn leaf_rects_from(children: Seq<NodeView<T>>, i: int) -> Seq<Rect>
        decreases children, children.len() - i,
    {
        if 0 <= i < children.len() {
            children[i].leaf_rects() + Self::leaf_rects_from(children, i + 1)
        } else {
            Seq::empty()
        }
    }

    /// The label of the first piece, from the `i`-th on, whose outline the
    /// point lies in.
    pub open spec fn first_hit_from(pieces: Seq<Piece<T>>, p: Point, i: int) -> Option<T>
        decreases pieces.len() - i,
    {
        if 0 <= i < pieces.len() {
            if has_point(pieces[i].outline, p) {
                Some(pieces[i].label)
            } else {
                Self::first_hit_from(pieces, p, i + 1)
            }
        } else {
            None
        }
    }

    /// The label that a query for `p` finds below this node. A leaf answers
    /// with its first piece whose outline the point lies in. An internal
    /// node asks its children in order, skipping those whose rectangle the
    /// point does not lie in, and takes the first answer. Boundaries count
    /// as inside throughout, so a point on a cut line is looked for in every
    /// quadrant that it touches.
    pub open spec fn locate(self, p: Point) -> Option<T>
        decreases self, 0nat,
    {
        if self.is_leaf() {
            Self::first_hit_from(self.pieces, p, 0)
        } else {
            Self::locate_from(self.children, p, 0)
        }
    }

    /// The first answer among the children from the `i`-th on.
    pub open spec fn locate_from(children: Seq<NodeView<T>>, p: Point, i: int) -> Option<T>
        decreases children, children.len() - i,
    {
        if 0 <= i < children.len() {
            if children[i].bounds.holds(p) && children[i].locate(p) is Some {
                children[i].locate(p)
            } else {
                Self::locate_from(children, p, i + 1)
            }
        } else {
            None
        }
    }

    /// The shape that every tree of this crate has: a node is a leaf or has
    /// exactly four children and no pieces of its own, the children stand
    /// for the four quadrants of the node's rectangle, in order, the
    /// rectangle can be bisected into congruent quadrants all the way down
    /// to the deepest leaf, and no leaf lies deeper than `MAX_DEPTH`.
    pub open spec fn well_formed(self) -> bool
        decreases self,
    {
        &&& self.bounds.bisectable(self.height())
        &&& self.height() <= MAX_DEPTH
        &&& self.is_leaf() || (self.children.len() == 4 && self.pieces.len() == 0)
        &&& forall|i: int|
            0 <= i < self.children.len() ==> {
                &&& (#[trigger] self.children[i]).bounds == self.bounds.spec_quadrant(i)
                &&& self.children[i].well_formed()
            }
    }

    /// Every child from the `i`-th on is at most as high as the highest.
    pub proof fn lemma_height_from_bounds(children: Seq<NodeView<T>>, i: int, j: int)
        requires
            0 <= i <= j < children.len(),
        ensures
            children[j].height() <= Self::height_from(children, i),
        decreases j - i,
    {
        if i < j {
            Self::lemma_height_from_bounds(children, i + 1, j);
        }
    }

    /// No child from the `i`-th on is higher than `bound`: neither is the
    /// highest of them.
    pub proof fn lemma_height_from_at_most(children: Seq<NodeView<T>>, i: int, bound: nat)
        requires
            0 <= i,
            forall|j: int| i <= j < children.len() ==> (#[trigger] children[j]).height() <= bound,
        ensures
            Self::height_from(children, i) <= bound,
        decreases children.len() - i,
    {
        if i < children.len() {
            Self::lemma_height_from_at_most(children, i + 1, bound);
        }
    }

    /// Whether a box, children and pieces can be put together to a
    /// well-formed node, the children being well-formed themselves.
    pub open spec fn fits(bounds: Rect, children: Seq<NodeView<T>>, pieces: Seq<Piece<T>>) -> bool {
        &&& children.len() == 0 || (children.len() == 4 && pieces.len() == 0)
        &&& forall|i: int|
            0 <= i < children.len() ==> (#[trigger] children[i]).bounds == bounds.spec_quadrant(i)
        &&& if children.len() == 0 {
            bounds.bisectable(0)
        } else {
            &&& Self::height_from(children, 0) < MAX_DEPTH
            &&& bounds.bisectable(1 + Self::height_from(children, 0))
        }
    }

    /// A child is lower than its parent.
    pub proof fn lemma_child_height(self, j: int)
        requires
            0 <= j < self.children.len(),
        ensures
            self.children[j].height() < self.height(),
    {
        Self::lemma_height_from_bounds(self.children, 0, j);
    }

    /// The leaves below four children are the leaves below each of them.
    pub proof fn lemma_leaf_count_of_four(cs: Seq<NodeView<T>>)
        requires
            cs.len() == 4,
        ensures
            Self::leaf_count_from(cs, 0) == cs[0].leaf_count() + cs[1].leaf_count()
                + cs[2].leaf_count() + cs[3].leaf_count(),
    {
        assert(Self::leaf_count_from(cs, 4) == 0);
        assert(Self::leaf_count_from(cs, 3) == cs[3].leaf_count());
        assert(Self::leaf_count_from(cs, 2) == cs[2].leaf_count() + cs[3].leaf_count());
        assert(Self::leaf_count_from(cs, 1) == cs[1].leaf_count() + cs[2].leaf_count()
            + cs[3].leaf_count());
    }

    /// A well-formed node of height `h` has at most `4^h` leaves.
    pub proof fn lemma_leaf_count_bound(self)
        requires
            self.well_formed(),
        ensures
            1 <= self.leaf_count() <= pow2(2 * self.height()),
        decreases self,
    {
        lemma_pow2_pos(2 * self.height());
        if !self.is_leaf() {
            let h = self.height();
            let cs = self.children;
            assert(pow2(2 * h) == 4 * pow2((2 * (h - 1)) as nat)) by {
                lemma_pow2_unfold(2 * h);
                lemma_pow2_unfold((2 * h - 1) as nat);
            }
            assert forall|j: int| 0 <= j < 4 implies 1 <= (#[trigger] cs[j]).leaf_count() <= pow2(
                (2 * (h - 1)) as nat,
            ) by {
                cs[j].lemma_leaf_count_bound();
                self.lemma_child_height(j);
                if cs[j].height() < h - 1 {
                    lemma_pow2_strictly_increases(2 * cs[j].height(), (2 * (h - 1)) as nat);
                }
            }
            Self::lemma_leaf_count_of_four(cs);
        }
    }
}

/// The indices `0, 1, ..` below `n`: all regions of a collection of `n` as
/// candidates.
pub open spec fn all_candidates(n: nat) -> Seq<usize> {
    Seq::new(n, |k: int| k as usize)
}

/// The regions of a collection as the specifications see them.
pub open spec fn region_views<T>(regions: Seq<Region<T>>) -> Seq<Piece<T>> {
    Seq::new(regions.len(), |k: int| regions[k]@)
}

/// Tells, for an index into `regions`, whether `geo` finds that the region
/// there intersects the box `q`.
pub open spec fn reaches<T>(regions: Seq<Piece<T>>, q: Rect) -> spec_fn(usize) -> bool {
    |k: usize| meets_rect(regions[k as int].outline, q)
}

/// The candidates that stay candidates in the box `q`: those whose region
/// `geo` finds to intersect it, in their old order.
pub open spec fn candidates_in<T>(selected: Seq<usize>, regions: Seq<Piece<T>>, q: Rect) -> Seq<
    usize,
> {
    selected.filter(reaches(regions, q))
}

impl<T: Clone> NodeView<T> {
    /// The pieces are the candidates' regions cut down to the box, one piece
    /// for each candidate and in the candidates' order, each under a clone
    /// of its region's label.
    pub open spec fn holds_clipped(
        pieces: Seq<Piece<T>>,
        selected: Seq<usize>,
        regions: Seq<Piece<T>>,
        bbox: Rect,
    ) -> bool {
        &&& pieces.len() == selected.len()
        &&& forall|j: int|
            0 <= j < selected.len() ==> {
                &&& cloned(regions[selected[j] as int].label, (#[trigger] pieces[j]).label)
                &&& pieces[j].outline == clipped(regions[selected[j] as int].outline, bbox)
            }
    }

    /// The node is what building gives for the candidates `selected` among
    /// `regions` in the box `bbox` at depth `depth` of a tree that may reach
    /// depth `max_depth`:
    ///
    /// - at the depth limit, a leaf that holds every candidate's region cut
    ///   down to the box;
    /// - else, with no candidate, an empty leaf;
    /// - else, with a single candidate whose region contains the whole box, a
    ///   leaf that holds the box itself under that candidate's label;
    /// - else an internal node whose `i`-th child is what building gives for
    ///   the `i`-th quadrant, one level deeper, with the candidates that
    ///   reach that quadrant.
    pub open spec fn is_build_of(
        self,
        selected: Seq<usize>,
        regions: Seq<Piece<T>>,
        bbox: Rect,
        max_depth: nat,
        depth: nat,
    ) -> bool
        decreases max_depth - depth,
    {
        &&& self.bounds == bbox
        &&& if depth >= max_depth {
            self.is_leaf() && Self::holds_clipped(self.pieces, selected, regions, bbox)
        } else if selected.len() == 0 {
            self.is_leaf() && self.pieces.len() == 0
        } else if selected.len() == 1 && covers_rect(regions[selected[0] as int].outline, bbox) {
            &&& self.is_leaf()
            &&& self.pieces.len() == 1
            &&& cloned(regions[selected[0] as int].label, self.pieces[0].label)
            &&& self.pieces[0].outline == rect_outline(bbox)
        } else {
            &&& self.children.len() == 4
            &&& self.pieces.len() == 0
            &&& forall|i: int|
                0 <= i < 4 ==> (#[trigger] self.children[i]).is_build_of(
                    candidates_in(selected, regions, bbox.spec_quadrant(i)),
                    regions,
                    bbox.spec_quadrant(i),
                    max_depth,
                    depth + 1,
                )
        }
    }
}

/// A quadtree over a rectangle that answers which labeled region a point
/// lies in.
pub struct LabeledPartitionTree<T> {
    children: Vec<LabeledPartitionTree<T>>,
    polygons: Vec<Piece<T>>,
    bbox: Rect,
}

impl<T> View for LabeledPartitionTree<T> {
    type V = NodeView<T>;

    closed spec fn view(&self) -> NodeView<T>
        decreases self, 0nat,
    {
        NodeView {
            bounds: self.bbox,
            children: Self::views_of(self.children@, self.children@.len()),
            pieces: self.polygons@,
        }
    }
}

/// The trees of a list as mathematical values.
pub open spec fn tree_views<T>(trees: Seq<LabeledPartitionTree<T>>) -> Seq<NodeView<T>> {
    Seq::new(trees.len(), |i: int| trees[i]@)
}

impl<T> LabeledPartitionTree<T> {
    /// The views of the first `n` trees of a list.
    spec fn views_of(trees: Seq<LabeledPartitionTree<T>>, n: nat) -> Seq<NodeView<T>>
        decreases trees, n,
    {
        if 0 < n <= trees.len() {
            Self::views_of(trees, (n - 1) as nat).push(trees[n - 1]@)
        } else {
            Seq::empty()
        }
    }

    proof fn views_of_unfolds(trees: Seq<LabeledPartitionTree<T>>, n: nat)
        requires
            n <= trees.len(),
        ensures
            Self::views_of(trees, n).len() == n,
            forall|j: int| 0 <= j < n ==> (#[trigger] Self::views_of(trees, n)[j]) == trees[j]@,
        decreases n,
    {
        if n > 0 {
            Self::views_of_unfolds(trees, (n - 1) as nat);
            assert(Self::views_of(trees, n) == Self::views_of(trees, (n - 1) as nat).push(trees[n - 1]@));
        } else {
            assert(Self::views_of(trees, n) == Seq::<NodeView<T>>::empty());
        }
    }

    /// Every tree is well-formed.
    #[verifier::type_invariant]
    spec fn shaped(self) -> bool {
        self@.well_formed()
    }

    /// Puts the parts of a well-formed node together.
    fn assemble(
        bbox: Rect,
        children: Vec<LabeledPartitionTree<T>>,
        polygons: Vec<Piece<T>>,
    ) -> (tree: LabeledPartitionTree<T>)
        requires
            (NodeView {
                bounds: bbox,
                children: tree_views(children@),
                pieces: polygons@,
            }).well_formed(),
        ensures
            tree@ == (NodeView {
                bounds: bbox,
                children: tree_views(children@),
                pieces: polygons@,
            }),
    {
        proof {
            Self::views_of_unfolds(children@, children@.len());
            assert(Self::views_of(children@, children@.len()) =~= tree_views(children@));
        }
        LabeledPartitionTree { children, polygons, bbox }
    }

    /// How the view of a tree follows its fields.
    proof fn view_unfolds(&self)
        ensures
            self@.bounds == self.bbox,
            self@.pieces == self.polygons@,
            self@.children.len() == self.children@.len(),
            forall|j: int|
                0 <= j < self.children@.len() ==> (#[trigger] self@.children[j])
                    == self.children@[j]@,
    {
        Self::views_of_unfolds(self.children@, self.children@.len());
    }

    /// The rectangle that the tree stands for.
    pub fn bbox(&self) -> (bounds: Rect)
        ensures
            bounds == self@.bounds,
    {
        self.bbox
    }

    /// The children of the root: none if it is a leaf.
    pub fn children(&self) -> (children: &Vec<LabeledPartitionTree<T>>)
        ensures
            tree_views(children@) == self@.children,
    {
        proof {
            self.view_unfolds();
            assert(tree_views(self.children@) =~= self@.children);
        }
        &self.children
    }

    /// What the root holds of the regions: nothing unless it is a leaf.
    pub fn polygons(&self) -> (pieces: &Vec<Piece<T>>)
        ensures
            pieces@ == self@.pieces,
    {
        &self.polygons
    }

    /// Number of steps from the root down to the deepest leaf.
    pub fn height(&self) -> (h: usize)
        ensures
            h == self@.height(),
            h <= MAX_DEPTH,
        decreases self,
    {
        proof {
            use_type_invariant(self);
            self.view_unfolds();
            assert(self@.children =~= tree_views(self.children@));
        }
        if self.children.len() == 0 {
            return 0;
        }
        let below: usize = Self::height_of(&self.children);
        below + 1
    }

    /// The greatest height among the trees of a list.
    fn height_of(trees: &Vec<LabeledPartitionTree<T>>) -> (h: usize)
        ensures
            h == NodeView::height_from(tree_views(trees@), 0),
            h <= MAX_DEPTH,
        decreases trees,
    {
        let ghost views = tree_views(trees@);
        let mut highest: usize = 0;
        let mut i: usize = trees.len();
        while i > 0
            invariant
                i <= trees.len(),
                views == tree_views(trees@),
                highest == NodeView::height_from(views, i as int),
                highest <= MAX_DEPTH,
            decreases i,
        {
            i = i - 1;
            let here: usize = trees[i].height();
            if here >= highest {
                highest = here;
            }
        }
        highest
    }

    /// Puts a tree together from its parts, as they were read from a tree
    /// with `bbox`, `children` and `polygons`. Gives nothing if the parts do
    /// not fit: if the node would have children and pieces, or a number of
    /// children other than four, or children that do not stand for the four
    /// quadrants of the box, or a box that cannot be bisected down to the
    /// deepest leaf, or a leaf deeper than `MAX_DEPTH`.
    pub fn from_parts(
        bbox: Rect,
        children: Vec<LabeledPartitionTree<T>>,
        polygons: Vec<Piece<T>>,
    ) -> (made: Option<LabeledPartitionTree<T>>)
        ensures
            made is Some <==> NodeView::fits(bbox, tree_views(children@), polygons@),
            made matches Some(tree) ==> {
                &&& tree@.well_formed()
                &&& tree@.bounds == bbox
                &&& tree@.pieces == polygons@
                &&& tree@.children == tree_views(children@)
            },
    {
        let ghost views = tree_views(children@);
        if !bbox.is_bisectable(0) {
            proof {
                lemma2_to64();
            }
            return None;
        }
        if children.len() != 0 {
            if children.len() != 4 || polygons.len() != 0 {
                return None;
            }
            let mut i: usize = 0;
            while i < 4
                invariant
                    i <= 4,
                    children.len() == 4,
                    bbox.valid(),
                    views == tree_views(children@),
                    forall|j: int|
                        0 <= j < i ==> {
                            &&& (#[trigger] views[j]).bounds == bbox.spec_quadrant(j)
                            &&& views[j].well_formed()
                        },
                decreases 4 - i,
            {
                let child = &children[i];
                proof {
                    use_type_invariant(child);
                    child.view_unfolds();
                }
                if child.bbox != bbox.quadrant(i) {
                    assert(views[i as int].bounds != bbox.spec_quadrant(i as int));
                    return None;
                }
                i = i + 1;
            }
            let below: usize = Self::height_of(&children);
            if below >= MAX_DEPTH || !bbox.is_bisectable(below + 1) {
                return None;
            }
        }
        Some(Self::assemble(bbox, children, polygons))
    }

    /// The rectangles of the leaves, from the first child's leaves to the
    /// last child's.
    pub fn bboxes(&self) -> (rects: Vec<Rect>)
        ensures
            rects@ == self@.leaf_rects(),
        decreases self,
    {
        let mut rects: Vec<Rect> = Vec::new();
        if self.children.len() == 0 {
            rects.push(self.bbox);
            return rects;
        }
        proof {
            self.view_unfolds();
        }
        let mut i: usize = 0;
        while i < self.children.len()
            invariant
                i <= self.children.len(),
                self@.children.len() == self.children.len(),
                forall|j: int| 0 <= j < self.children.len() ==> self.children[j]@ == self@.children[j],
                rects@ + NodeView::leaf_rects_from(self@.children, i as int)
                    == NodeView::leaf_rects_from(self@.children, 0),
            decreases self.children.len() - i,
        {
            let mut part: Vec<Rect> = self.children[i].bboxes();
            rects.append(&mut part);
            i = i + 1;
        }
        rects
    }

    /// Number of leaves of the tree.
    pub fn size(&self) -> (n: usize)
        ensures
            n == self@.leaf_count(),
        decreases self,
    {
        if self.children.len() == 0 {
            return 1;
        }
        proof {
            use_type_invariant(self);
            self.view_unfolds();
            self@.lemma_leaf_count_bound();
            lemma2_to64();
            if self@.height() < MAX_DEPTH {
                lemma_pow2_strictly_increases(2 * self@.height(), 30);
            }
        }
        let mut total: usize = 0;
        let mut i: usize = 0;
        while i < self.children.len()
            invariant
                i <= self.children.len(),
                self@.well_formed(),
                self@.children.len() == self.children.len(),
                forall|j: int| 0 <= j < self.children.len() ==> self.children[j]@ == self@.children[j],
                total + NodeView::leaf_count_from(self@.children, i as int)
                    == NodeView::leaf_count_from(self@.children, 0),
                NodeView::leaf_count_from(self@.children, 0) <= 0x4000_0000,
            decreases self.children.len() - i,
        {
            let part: usize = self.children[i].size();
            total = total + part;
            i = i + 1;
        }
        total
    }
}

impl<T: Clone> LabeledPartitionTree<T> {
    /// Builds the tree below one box.
    ///
    /// `selected` lists the candidates, as indices into `regions`: the
    /// regions that may reach the box `bbox`. `depth` is the depth of the
    /// node to build and `max_depth` the depth at which building stops; the
    /// root is built with all regions as candidates and `depth` 0. The
    /// collection holds a region, and the sides of `bbox` are multiples of
    /// `2^(max_depth - depth)`, so that every bisection on the way down gives
    /// four congruent quadrants.
    pub fn from_labeled_polygons(
        selected: &Vec<usize>,
        regions: &Vec<Region<T>>,
        bbox: Rect,
        max_depth: usize,
        depth: usize,
    ) -> (tree: LabeledPartitionTree<T>)
        requires
            regions.len() > 0,
            depth <= max_depth <= MAX_DEPTH,
            bbox.bisectable((max_depth - depth) as nat),
            forall|j: int| 0 <= j < selected.len() ==> selected[j] < regions.len(),
        ensures
            tree@.is_build_of(
                selected@,
                region_views(regions@),
                bbox,
                max_depth as nat,
                depth as nat,
            ),
            tree@.well_formed(),
            tree@.height() <= max_depth - depth,
        decreases max_depth - depth,
    {
        proof {
            bbox.lemma_bisectable_fewer((max_depth - depth) as nat, 0);
        }
        if depth == max_depth {
            let pieces = Self::clip_candidates(selected, regions, &bbox);
            Self::assemble(bbox, Vec::new(), pieces)
        } else if selected.len() == 0 {
            Self::assemble(bbox, Vec::new(), Vec::new())
        } else if selected.len() == 1 && Self::region_contains(&regions[selected[0]], &bbox) {
            let region = &regions[selected[0]];
            let mut pieces: Vec<Piece<T>> = Vec::new();
            pieces.push(Piece { label: region.label.clone(), outline: outline_of_rect(&bbox) });
            Self::assemble(bbox, Vec::new(), pieces)
        } else {
            let ghost views = region_views(regions@);
            let mut children: Vec<LabeledPartitionTree<T>> = Vec::new();
            let mut i: usize = 0;
            while i < 4
                invariant
                    i <= 4,
                    regions.len() > 0,
                    depth < max_depth <= MAX_DEPTH,
                    bbox.bisectable((max_depth - depth) as nat),
                    views == region_views(regions@),
                    forall|j: int| 0 <= j < selected.len() ==> selected[j] < regions.len(),
                    children.len() == i,
                    forall|j: int|
                        0 <= j < i ==> {
                            &&& (#[trigger] children[j])@.is_build_of(
                                candidates_in(selected@, views, bbox.spec_quadrant(j)),
                                views,
                                bbox.spec_quadrant(j),
                                max_depth as nat,
                                (depth + 1) as nat,
                            )
                            &&& children[j]@.well_formed()
                            &&& children[j]@.height() <= max_depth - depth - 1
                        },
                decreases 4 - i,
            {
                proof {
                    bbox.lemma_quadrants_bisectable((max_depth - depth - 1) as nat, i as int);
                }
                let quadrant = bbox.quadrant(i);
                let reaching = Self::filter_candidates(selected, regions, &quadrant);
                let child = Self::from_labeled_polygons(
                    &reaching,
                    regions,
                    quadrant,
                    max_depth,
                    depth + 1,
                );
                children.push(child);
                i = i + 1;
            }
            proof {
                let views = tree_views(children@);
                assert forall|j: int| 0 <= j < 4 implies (#[trigger] views[j]).height() <= max_depth
                    - depth - 1 by {
                    assert(views[j] == children[j]@);
                }
                NodeView::lemma_height_from_at_most(views, 0, (max_depth - depth - 1) as nat);
                bbox.lemma_bisectable_fewer(
                    (max_depth - depth) as nat,
                    1 + NodeView::height_from(views, 0),
                );
                assert forall|j: int| 0 <= j < 4 implies {
                    &&& (#[trigger] views[j]).bounds == bbox.spec_quadrant(j)
                    &&& views[j].well_formed()
                } by {
                    assert(views[j] == children[j]@);
                }
            }
            Self::assemble(bbox, children, Vec::new())
        }
    }

    /// Builds the tree over the box `bbox` for all regions of the
    /// collection, down to depth `max_depth` at most.
    ///
    /// Fails, before anything is built, if the depth limit is larger than
    /// `MAX_DEPTH`, else if the collection is empty, else if the sides of the
    /// box are not positive multiples of `2^max_depth`.
    pub fn build(regions: &Vec<Region<T>>, bbox: Rect, max_depth: usize) -> (built: Result<
        LabeledPartitionTree<T>,
        BuildError,
    >)
        ensures
            match built {
                Ok(tree) => {
                    &&& max_depth <= MAX_DEPTH
                    &&& regions.len() > 0
                    &&& bbox.bisectable(max_depth as nat)
                    &&& tree@.is_build_of(
                        all_candidates(regions.len() as nat),
                        region_views(regions@),
                        bbox,
                        max_depth as nat,
                        0,
                    )
                    &&& tree@.well_formed()
                    &&& tree@.height() <= max_depth
                },
                Err(BuildError::InvalidMaxDepth) => max_depth > MAX_DEPTH,
                Err(BuildError::EmptyCollection) => max_depth <= MAX_DEPTH && regions.len() == 0,
                Err(BuildError::UnevenBounds) => {
                    &&& max_depth <= MAX_DEPTH
                    &&& regions.len() > 0
                    &&& !bbox.bisectable(max_depth as nat)
                },
            },
    {
        if max_depth > MAX_DEPTH {
            return Err(BuildError::InvalidMaxDepth);
        }
        if regions.len() == 0 {
            return Err(BuildError::EmptyCollection);
        }
        if !bbox.is_bisectable(max_depth) {
            return Err(BuildError::UnevenBounds);
        }
        let mut selected: Vec<usize> = Vec::new();
        let mut k: usize = 0;
        while k < regions.len()
            invariant
                k <= regions.len(),
                selected@ == all_candidates(k as nat),
            decreases regions.len() - k,
        {
            selected.push(k);
            k = k + 1;
            assert(selected@ == all_candidates(k as nat));
        }
        Ok(Self::from_labeled_polygons(&selected, regions, bbox, max_depth, 0))
    }

    /// Asks whether the region contains the whole box.
    fn region_contains(region: &Region<T>, bbox: &Rect) -> (b: bool)
        requires
            bbox.min_x < bbox.max_x && bbox.min_y < bbox.max_y,
        ensures
            b == covers_rect(region@.outline, *bbox),
    {
        proof {
            use_type_invariant(region);
        }
        outline_contains_rect(&region.outline, bbox)
    }

    /// The pieces of a leaf at the depth limit: every candidate's region cut
    /// down to the box.
    fn clip_candidates(selected: &Vec<usize>, regions: &Vec<Region<T>>, bbox: &Rect) -> (pieces:
        Vec<Piece<T>>)
        requires
            bbox.min_x < bbox.max_x && bbox.min_y < bbox.max_y,
            forall|j: int| 0 <= j < selected.len() ==> selected[j] < regions.len(),
        ensures
            NodeView::holds_clipped(pieces@, selected@, region_views(regions@), *bbox),
    {
        let mut pieces: Vec<Piece<T>> = Vec::new();
        let mut j: usize = 0;
        while j < selected.len()
            invariant
                j <= selected.len(),
                bbox.min_x < bbox.max_x && bbox.min_y < bbox.max_y,
                forall|k: int| 0 <= k < selected.len() ==> selected[k] < regions.len(),
                NodeView::holds_clipped(
                    pieces@,
                    selected@.take(j as int),
                    region_views(regions@),
                    *bbox,
                ),
            decreases selected.len() - j,
        {
            let region = &regions[selected[j]];
            proof {
                use_type_invariant(region);
            }
            pieces.push(
                Piece { label: region.label.clone(), outline: clip_outline(&region.outline, bbox) },
            );
            j = j + 1;
        }
        proof {
            assert(selected@.take(selected.len() as int) == selected@);
        }
        pieces
    }

    /// The candidates whose region reaches the box, in their old order.
    fn filter_candidates(selected: &Vec<usize>, regions: &Vec<Region<T>>, bbox: &Rect) -> (reaching:
        Vec<usize>)
        requires
            forall|j: int| 0 <= j < selected.len() ==> selected[j] < regions.len(),
        ensures
            reaching@ == candidates_in(selected@, region_views(regions@), *bbox),
            forall|j: int| 0 <= j < reaching.len() ==> reaching[j] < regions.len(),
    {
        let ghost views = region_views(regions@);
        let mut reaching: Vec<usize> = Vec::new();
        let mut j: usize = 0;
        proof {
            reveal(Seq::filter);
        }
        while j < selected.len()
            invariant
                j <= selected.len(),
                views == region_views(regions@),
                forall|k: int| 0 <= k < selected.len() ==> selected[k] < regions.len(),
                reaching@ == selected@.take(j as int).filter(reaches(views, *bbox)),
                forall|k: int| 0 <= k < reaching.len() ==> reaching[k] < regions.len(),
            decreases selected.len() - j,
        {
            let k: usize = selected[j];
            proof {
                reveal(Seq::filter);
                assert(selected@.take(j + 1).drop_last() == selected@.take(j as int));
            }
            let region = &regions[k];
            proof {
                use_type_invariant(region);
            }
            if rect_intersects_outline(bbox, &region.outline) {
                reaching.push(k);
            }
            j = j + 1;
        }
        proof {
            assert(selected@.take(selected.len() as int) == selected@);
        }
        reaching
    }

    /// The label of the region that the point lies in, if the tree finds one.
    ///
    /// At a leaf this is the label of the first piece whose outline the
    /// point lies in. At an internal node the children whose rectangle the
    /// point lies in are asked in order, and the first answer is returned.
    /// A point on a boundary lies in what the boundary belongs to. The label
    /// handed out is a clone of the one that the tree holds.
    pub fn label(&self, point: &Point) -> (found: Option<T>)
        ensures
            match self@.locate(*point) {
                Some(held) => found matches Some(label) && cloned(held, label),
                None => found is None,
            },
        decreases self,
    {
        proof {
            self.view_unfolds();
        }
        if self.children.len() == 0 {
            let mut i: usize = 0;
            while i < self.polygons.len()
                invariant
                    i <= self.polygons.len(),
                    self@.is_leaf(),
                    self@.pieces == self.polygons@,
                    NodeView::first_hit_from(self@.pieces, *point, i as int)
                        == NodeView::first_hit_from(self@.pieces, *point, 0),
                decreases self.polygons.len() - i,
            {
                if outline_has_point(&self.polygons[i].outline, point) {
                    return Some(self.polygons[i].label.clone());
                }
                i = i + 1;
            }
            None
        } else {
            let mut i: usize = 0;
            while i < self.children.len()
                invariant
                    i <= self.children.len(),
                    !self@.is_leaf(),
                    self@.children.len() == self.children.len(),
                    forall|j: int|
                        0 <= j < self.children.len() ==> self.children[j]@ == self@.children[j],
                    NodeView::locate_from(self@.children, *point, i as int)
                        == NodeView::locate_from(self@.children, *point, 0),
                decreases self.children.len() - i,
            {
                let child = &self.children[i];
                proof {
                    child.view_unfolds();
                }
                if child.bbox.contains(point) {
                    let found = child.label(point);
                    if found.is_some() {
                        return found;
                    }
                }
                i = i + 1;
            }
            None
        }
    }
}

} // verus!

//! What holds of every tree that building gives.
//!
//! The laws speak of trees as mathematical values ([`NodeView`]) and of the
//! relation [`NodeView::is_build_of`], which `from_labeled_polygons` and
//! `build` promise of their result. Laws about the shape of a tree hold
//! outright. Laws about which label a query finds depend on what `geo`
//! answers about the outlines involved, and say so: they take the answers
//! that they need as hypotheses ([`lets_in`], [`lets_in_along`],
//! [`keeps_out`]).
use crate::geometry::{Point, Rect};
use crate::kernel::{clipped, covers_rect, has_point, meets_rect, rect_outline, Outline};
use crate::labeling::{all_candidates, candidates_in, reaches, NodeView, Piece, MAX_DEPTH};
use vstd::prelude::*;

verus! {

/// The children of an internal node tile the node's rectangle with four
/// equal rectangles: each child's rectangle lies inside it and is half as
/// wide and half as high, their areas add up to its area, two of them have no
/// area in common, and a grid point lies in it exactly if it lies in one of
/// them.
pub proof fn lemma_children_tile<T>(t: NodeView<T>, p: Point)
    requires
        t.well_formed(),
        !t.is_leaf(),
    ensures
        t.children.len() == 4,
        forall|i: int| 0 <= i < 4 ==> t.bounds.covers((#[trigger] t.children[i]).bounds),
        forall|i: int|
            0 <= i < 4 ==> {
                &&& 2 * (#[trigger] t.children[i]).bounds.width() == t.bounds.width()
                &&& 2 * t.children[i].bounds.height() == t.bounds.height()
            },
        t.children[0].bounds.area() + t.children[1].bounds.area() + t.children[2].bounds.area()
            + t.children[3].bounds.area() == t.bounds.area(),
        forall|i: int, j: int|
            0 <= i < 4 && 0 <= j < 4 && i != j ==> (#[trigger] t.children[i]).bounds.overlap_area(
                (#[trigger] t.children[j]).bounds,
            ) == 0,
        t.bounds.holds(p) <==> exists|i: int|
            0 <= i < 4 && (#[trigger] t.children[i]).bounds.holds(p),
{
    let r = t.bounds;
    r.lemma_bisectable_fewer(t.height(), 1);
    assert forall|i: int| 0 <= i < 4 implies t.bounds.covers((#[trigger] t.children[i]).bounds) by {
        r.lemma_quadrants_inside(i);
    }
    assert forall|i: int| 0 <= i < 4 implies {
        &&& 2 * (#[trigger] t.children[i]).bounds.width() == t.bounds.width()
        &&& 2 * t.children[i].bounds.height() == t.bounds.height()
    } by {
        r.lemma_quadrants_bisectable(0, i);
    }
    r.lemma_quadrants_fill();
    assert(t.children[0].bounds == r.spec_quadrant(0));
    assert(t.children[1].bounds == r.spec_quadrant(1));
    assert(t.children[2].bounds == r.spec_quadrant(2));
    assert(t.children[3].bounds == r.spec_quadrant(3));
    assert forall|i: int, j: int| 0 <= i < 4 && 0 <= j < 4 && i != j implies (
    #[trigger] t.children[i]).bounds.overlap_area((#[trigger] t.children[j]).bounds) == 0 by {
        r.lemma_quadrants_share_no_area(i, j);
    }
    r.lemma_quadrants_cover(p);
    if t.bounds.holds(p) {
        let i = choose|i: int| 0 <= i < 4 && (#[trigger] r.spec_quadrant(i)).holds(p);
        assert(t.children[i].bounds.holds(p));
    }
    if exists|i: int| 0 <= i < 4 && (#[trigger] t.children[i]).bounds.holds(p) {
        let i = choose|i: int| 0 <= i < 4 && (#[trigger] t.children[i]).bounds.holds(p);
        assert(r.spec_quadrant(i).holds(p));
    }
}

/// The areas of the rectangles of a list, added up.
pub open spec fn area_sum(rects: Seq<Rect>) -> int
    decreases rects.len(),
{
    if rects.len() == 0 {
        0
    } else {
        area_sum(rects.drop_last()) + rects.last().area()
    }
}

/// The point lies in one of the rectangles of a list.
pub open spec fn some_holds(rects: Seq<Rect>, p: Point) -> bool {
    exists|k: int| 0 <= k < rects.len() && (#[trigger] rects[k]).holds(p)
}

/// The areas of two lists put together are the areas of each.
proof fn lemma_area_sum_of_both(a: Seq<Rect>, b: Seq<Rect>)
    ensures
        area_sum(a + b) == area_sum(a) + area_sum(b),
    decreases b.len(),
{
    if b.len() == 0 {
        assert(a + b =~= a);
    } else {
        lemma_area_sum_of_both(a, b.drop_last());
        assert((a + b).drop_last() =~= a + b.drop_last());
        assert((a + b).last() == b.last());
    }
}

/// A point lies in a rectangle of two lists put together exactly if it lies
/// in a rectangle of one of them.
proof fn lemma_some_holds_of_both(a: Seq<Rect>, b: Seq<Rect>, p: Point)
    ensures
        some_holds(a + b, p) <==> some_holds(a, p) || some_holds(b, p),
{
    if some_holds(a, p) {
        let k = choose|k: int| 0 <= k < a.len() && (#[trigger] a[k]).holds(p);
        assert((a + b)[k].holds(p));
    }
    if some_holds(b, p) {
        let k = choose|k: int| 0 <= k < b.len() && (#[trigger] b[k]).holds(p);
        assert((a + b)[a.len() + k].holds(p));
    }
    if some_holds(a + b, p) {
        let k = choose|k: int| 0 <= k < (a + b).len() && (#[trigger] (a + b)[k]).holds(p);
        if k < a.len() {
            assert(a[k].holds(p));
        } else {
            assert(b[k - a.len()].holds(p));
        }
    }
}

/// The leaves of a tree tile its rectangle: there are as many leaf
/// rectangles as leaves, their areas add up to the area of the root's
/// rectangle, and a grid point lies in the root's rectangle exactly if it
/// lies in the rectangle of a leaf.
pub proof fn lemma_leaves_tile<T>(t: NodeView<T>, p: Point)
    requires
        t.well_formed(),
    ensures
        t.leaf_rects().len() == t.leaf_count(),
        area_sum(t.leaf_rects()) == t.bounds.area(),
        some_holds(t.leaf_rects(), p) <==> t.bounds.holds(p),
    decreases t,
{
    if t.is_leaf() {
        let rects = t.leaf_rects();
        assert(rects.drop_last() =~= Seq::<Rect>::empty());
        assert(area_sum(rects.drop_last()) == 0);
        assert(rects[0] == t.bounds);
        if some_holds(rects, p) {
            let k = choose|k: int| 0 <= k < rects.len() && (#[trigger] rects[k]).holds(p);
            assert(k == 0);
        }
    } else {
        let cs = t.children;
        let r = t.bounds;
        r.lemma_bisectable_fewer(t.height(), 0);
        assert forall|i: int| 0 <= i < 4 implies {
            &&& (#[trigger] cs[i]).leaf_rects().len() == cs[i].leaf_count()
            &&& area_sum(cs[i].leaf_rects()) == r.spec_quadrant(i).area()
            &&& some_holds(cs[i].leaf_rects(), p) <==> r.spec_quadrant(i).holds(p)
        } by {
            lemma_leaves_tile(cs[i], p);
        }
        let l0 = cs[0].leaf_rects();
        let l1 = cs[1].leaf_rects();
        let l2 = cs[2].leaf_rects();
        let l3 = cs[3].leaf_rects();
        assert(NodeView::leaf_rects_from(cs, 4) =~= Seq::<Rect>::empty());
        assert(NodeView::leaf_rects_from(cs, 3) =~= l3);
        assert(NodeView::leaf_rects_from(cs, 2) =~= l2 + l3);
        assert(NodeView::leaf_rects_from(cs, 1) =~= l1 + (l2 + l3));
        assert(NodeView::leaf_rects_from(cs, 0) =~= l0 + (l1 + (l2 + l3)));
        NodeView::lemma_leaf_count_of_four(cs);
        lemma_area_sum_of_both(l2, l3);
        lemma_area_sum_of_both(l1, l2 + l3);
        lemma_area_sum_of_both(l0, l1 + (l2 + l3));
        r.lemma_quadrants_fill();
        lemma_some_holds_of_both(l2, l3, p);
        lemma_some_holds_of_both(l1, l2 + l3, p);
        lemma_some_holds_of_both(l0, l1 + (l2 + l3), p);
        r.lemma_quadrants_cover(p);
        if r.holds(p) {
            let i = choose|i: int| 0 <= i < 4 && (#[trigger] r.spec_quadrant(i)).holds(p);
            assert(some_holds(cs[i].leaf_rects(), p));
        }
        if some_holds(t.leaf_rects(), p) {
            assert(r.spec_quadrant(0).holds(p) || r.spec_quadrant(1).holds(p) || r.spec_quadrant(
                2,
            ).holds(p) || r.spec_quadrant(3).holds(p));
        }
    }
}

/// A single candidate whose region contains the whole box gives, above the
/// depth limit, a tree of one leaf that holds the box under the candidate's
/// label: a query finds that label exactly for the points that `geo` finds
/// in the box's outline.
pub proof fn lemma_single_region_over_the_box<T: Clone>(
    t: NodeView<T>,
    selected: Seq<usize>,
    regions: Seq<Piece<T>>,
    bbox: Rect,
    max_depth: nat,
    depth: nat,
    p: Point,
)
    requires
        t.is_build_of(selected, regions, bbox, max_depth, depth),
        depth < max_depth,
        selected.len() == 1,
        covers_rect(regions[selected[0] as int].outline, bbox),
    ensures
        t.is_leaf(),
        t.leaf_count() == 1,
        t.height() == 0,
        t.pieces.len() == 1,
        cloned(regions[selected[0] as int].label, t.pieces[0].label),
        t.locate(p) == if has_point(rect_outline(bbox), p) {
            Some(t.pieces[0].label)
        } else {
            None
        },
{
    assert(NodeView::first_hit_from(t.pieces, p, 1) == None::<T>);
}

/// A well-formed tree can be put together again from its own parts.
pub proof fn lemma_own_parts_fit<T>(t: NodeView<T>)
    requires
        t.well_formed(),
    ensures
        NodeView::fits(t.bounds, t.children, t.pieces),
{
}

/// No leaf of a tree built with depth limit `max_depth` lies deeper than the
/// limit: a node built at depth `depth` has height at most
/// `max_depth - depth`.
pub proof fn lemma_depth_bound<T: Clone>(
    t: NodeView<T>,
    selected: Seq<usize>,
    regions: Seq<Piece<T>>,
    bbox: Rect,
    max_depth: nat,
    depth: nat,
)
    requires
        t.is_build_of(selected, regions, bbox, max_depth, depth),
        depth <= max_depth,
    ensures
        t.height() <= max_depth - depth,
    decreases max_depth - depth,
{
    if !t.is_leaf() {
        assert forall|i: int| 0 <= i < 4 implies (#[trigger] t.children[i]).height() <= max_depth
            - depth - 1 by {
            lemma_depth_bound(
                t.children[i],
                candidates_in(selected, regions, bbox.spec_quadrant(i)),
                regions,
                bbox.spec_quadrant(i),
                max_depth,
                depth + 1,
            );
        }
        NodeView::lemma_height_from_at_most(t.children, 0, (max_depth - depth - 1) as nat);
    }
}

/// What building gives is well-formed, if the box can be bisected down to
/// the depth limit and the limit is at most `MAX_DEPTH`.
pub proof fn lemma_build_is_well_formed<T: Clone>(
    t: NodeView<T>,
    selected: Seq<usize>,
    regions: Seq<Piece<T>>,
    bbox: Rect,
    max_depth: nat,
    depth: nat,
)
    requires
        t.is_build_of(selected, regions, bbox, max_depth, depth),
        depth <= max_depth <= MAX_DEPTH,
        bbox.bisectable((max_depth - depth) as nat),
    ensures
        t.well_formed(),
    decreases max_depth - depth,
{
    lemma_depth_bound(t, selected, regions, bbox, max_depth, depth);
    bbox.lemma_bisectable_fewer((max_depth - depth) as nat, t.height());
    if !t.is_leaf() {
        reveal_with_fuel(NodeView::is_build_of, 2);
        assert forall|i: int| 0 <= i < 4 implies (#[trigger] t.children[i]).well_formed() by {
            bbox.lemma_quadrants_bisectable((max_depth - depth - 1) as nat, i);
            lemma_build_is_well_formed(
                t.children[i],
                candidates_in(selected, regions, bbox.spec_quadrant(i)),
                regions,
                bbox.spec_quadrant(i),
                max_depth,
                depth + 1,
            );
        }
    }
}

/// What building gives has at least one leaf.
pub proof fn lemma_build_has_leaves<T: Clone>(
    t: NodeView<T>,
    selected: Seq<usize>,
    regions: Seq<Piece<T>>,
    bbox: Rect,
    max_depth: nat,
    depth: nat,
)
    requires
        t.is_build_of(selected, regions, bbox, max_depth, depth),
    ensures
        t.leaf_count() >= 1,
    decreases max_depth - depth,
{
    if !t.is_leaf() {
        lemma_build_has_leaves(
            t.children[0],
            candidates_in(selected, regions, bbox.spec_quadrant(0)),
            regions,
            bbox.spec_quadrant(0),
            max_depth,
            depth + 1,
        );
    }
}

/// The number of leaves does not shrink when the depth limit grows: of two
/// trees built from the same candidates, regions and box, the one with the
/// larger depth limit has at least as many leaves.
pub proof fn lemma_size_grows_with_depth<T: Clone>(
    shallow: NodeView<T>,
    deep: NodeView<T>,
    selected: Seq<usize>,
    regions: Seq<Piece<T>>,
    bbox: Rect,
    small_depth: nat,
    large_depth: nat,
    depth: nat,
)
    requires
        shallow.is_build_of(selected, regions, bbox, small_depth, depth),
        deep.is_build_of(selected, regions, bbox, large_depth, depth),
        depth <= small_depth <= large_depth,
    ensures
        shallow.leaf_count() <= deep.leaf_count(),
    decreases small_depth - depth,
{
    if shallow.is_leaf() {
        lemma_build_has_leaves(deep, selected, regions, bbox, large_depth, depth);
    } else {
        assert forall|i: int| 0 <= i < 4 implies (#[trigger] shallow.children[i]).leaf_count() <= (
        #[trigger] deep.children[i]).leaf_count() by {
            lemma_size_grows_with_depth(
                shallow.children[i],
                deep.children[i],
                candidates_in(selected, regions, bbox.spec_quadrant(i)),
                regions,
                bbox.spec_quadrant(i),
                small_depth,
                large_depth,
                depth + 1,
            );
        }
        NodeView::lemma_leaf_count_of_four(shallow.children);
        NodeView::lemma_leaf_count_of_four(deep.children);
    }
}

/// `label` is what a query for `p` may answer: the label of a piece whose
/// outline `p` lies in, in a leaf that is reached from `t` through children
/// whose rectangles `p` lies in.
pub open spec fn offers<T>(t: NodeView<T>, p: Point, label: T) -> bool
    decreases t,
{
    if t.is_leaf() {
        exists|j: int|
            0 <= j < t.pieces.len() && (#[trigger] t.pieces[j]).label == label && has_point(
                t.pieces[j].outline,
                p,
            )
    } else {
        exists|i: int|
            0 <= i < t.children.len() && (#[trigger] t.children[i]).bounds.holds(p) && offers(
                t.children[i],
                p,
                label,
            )
    }
}

/// What the first hit among pieces is: the label of a piece whose outline
/// the point lies in if there is one, nothing if there is none.
proof fn lemma_first_hit<T>(pieces: Seq<Piece<T>>, p: Point, i: int)
    requires
        0 <= i,
    ensures
        match NodeView::first_hit_from(pieces, p, i) {
            Some(label) => exists|j: int|
                i <= j < pieces.len() && (#[trigger] pieces[j]).label == label && has_point(
                    pieces[j].outline,
                    p,
                ),
            None => forall|j: int|
                i <= j < pieces.len() ==> !has_point((#[trigger] pieces[j]).outline, p),
        },
    decreases pieces.len() - i,
{
    if i < pieces.len() {
        lemma_first_hit(pieces, p, i + 1);
    }
}

/// A query answers with a label that the tree offers for the point, and
/// answers nothing only if the tree offers none.
pub proof fn lemma_found_is_offered<T>(t: NodeView<T>, p: Point)
    ensures
        match t.locate(p) {
            Some(label) => offers(t, p, label),
            None => forall|label: T| !offers(t, p, label),
        },
    decreases t, 0nat,
{
    if t.is_leaf() {
        lemma_first_hit(t.pieces, p, 0);
    } else {
        lemma_found_among(t.children, p, 0);
    }
    match t.locate(p) {
        Some(label) => {
            assert(offers(t, p, label));
        },
        None => {
            assert forall|label: T| !offers(t, p, label) by {
                if offers(t, p, label) {
                    if t.is_leaf() {
                        let j = choose|j: int|
                            0 <= j < t.pieces.len() && (#[trigger] t.pieces[j]).label == label
                                && has_point(t.pieces[j].outline, p);
                        assert(false);
                    } else {
                        let i = choose|i: int|
                            0 <= i < t.children.len() && (#[trigger] t.children[i]).bounds.holds(p) && offers(t.children[i], p, label);
                        assert(false);
                    }
                }
            }
        },
    }
}

/// The same of the children of a node, from the `i`-th on.
proof fn lemma_found_among<T>(children: Seq<NodeView<T>>, p: Point, i: int)
    requires
        0 <= i,
    ensures
        match NodeView::locate_from(children, p, i) {
            Some(label) => exists|j: int|
                i <= j < children.len() && (#[trigger] children[j]).bounds.holds(p) && offers(
                    children[j],
                    p,
                    label,
                ),
            None => forall|j: int, label: T|
                i <= j < children.len() && (#[trigger] children[j]).bounds.holds(p)
                    ==> !#[trigger] offers(children[j], p, label),
        },
    decreases children, children.len() - i,
{
    if i < children.len() {
        lemma_found_is_offered(children[i], p);
        lemma_found_among(children, p, i + 1);
    }
}

/// What `geo` answers about the outline is what it would answer if `p` lay
/// outside the region: `p` lies in no part cut from the outline, and in the
/// outline of no box that the outline contains.
pub open spec fn keeps_out(outline: Outline, p: Point) -> bool {
    forall|r: Rect|
        #![trigger clipped(outline, r)]
        #![trigger covers_rect(outline, r)]
        {
            &&& !has_point(clipped(outline, r), p)
            &&& covers_rect(outline, r) ==> !has_point(rect_outline(r), p)
        }
}

/// What `geo` answers about the outline is what it would answer if `p` lay
/// inside the region: a box with an interior that `p` lies in intersects the
/// outline, `p` lies in the part that the box cuts from the outline, and if
/// the outline contains the box, then `p` lies in the box's own outline.
pub open spec fn lets_in(outline: Outline, p: Point) -> bool {
    forall|r: Rect|
        #![trigger meets_rect(outline, r)]
        #![trigger clipped(outline, r)]
        #![trigger covers_rect(outline, r)]
        r.holds(p) && r.bisectable(0) ==> {
            &&& meets_rect(outline, r)
            &&& has_point(clipped(outline, r), p)
            &&& covers_rect(outline, r) ==> has_point(rect_outline(r), p)
        }
}

/// What a filter keeps was there before.
proof fn lemma_filter_elements<A>(s: Seq<A>, pred: spec_fn(A) -> bool)
    ensures
        forall|i: int|
            0 <= i < s.filter(pred).len() ==> s.contains(#[trigger] s.filter(pred)[i]) && pred(
                s.filter(pred)[i],
            ),
    decreases s.len(),
{
    reveal(Seq::filter);
    if s.len() > 0 {
        let front = s.drop_last();
        lemma_filter_elements(front, pred);
        assert forall|i: int| 0 <= i < s.filter(pred).len() implies s.contains(
            #[trigger] s.filter(pred)[i],
        ) && pred(s.filter(pred)[i]) by {
            if i < front.filter(pred).len() {
                let x = front.filter(pred)[i];
                assert(front.contains(x));
                let j = choose|j: int| 0 <= j < front.len() && front[j] == x;
                assert(s[j] == x);
            } else {
                assert(s.filter(pred)[i] == s.last());
                assert(s[s.len() - 1] == s.last());
            }
        }
    }
}

/// What is listed once is kept at most once.
proof fn lemma_filter_keeps_distinct<A>(s: Seq<A>, pred: spec_fn(A) -> bool)
    requires
        s.no_duplicates(),
    ensures
        s.filter(pred).no_duplicates(),
    decreases s.len(),
{
    reveal(Seq::filter);
    if s.len() > 0 {
        let front = s.drop_last();
        let kept = front.filter(pred);
        lemma_filter_keeps_distinct(front, pred);
        lemma_filter_elements(front, pred);
        if pred(s.last()) {
            assert(s.filter(pred) == kept.push(s.last()));
            assert forall|i: int, j: int|
                0 <= i < kept.len() + 1 && 0 <= j < kept.len() + 1 && i != j implies kept.push(
                s.last(),
            )[i] != kept.push(s.last())[j] by {
                if i < kept.len() && j < kept.len() {
                } else {
                    let inner = if i < kept.len() { i } else { j };
                    assert(front.contains(kept[inner]));
                    let at = choose|at: int| 0 <= at < front.len() && front[at] == kept[inner];
                    assert(s[at] == kept[inner]);
                    assert(s[s.len() - 1] == s.last());
                }
            }
        }
    }
}

/// No region is a candidate twice: where each candidate is listed once, so
/// it is in every quadrant, and in the list of all regions of a collection
/// each is listed once. A leaf holds one piece for each of its candidates,
/// so that it holds at most one piece of a region.
pub proof fn lemma_candidates_stay_distinct<T>(
    selected: Seq<usize>,
    regions: Seq<Piece<T>>,
    q: Rect,
    n: nat,
)
    requires
        n <= usize::MAX,
    ensures
        selected.no_duplicates() ==> candidates_in(selected, regions, q).no_duplicates(),
        all_candidates(n).no_duplicates(),
{
    if selected.no_duplicates() {
        lemma_filter_keeps_distinct(selected, reaches(regions, q));
    }
}

/// A region is a candidate in a quadrant only if it was one in the whole
/// box and `geo` finds that it intersects the quadrant: below an internal
/// node, no leaf holds a piece of a region that does not reach the quadrant
/// that the leaf lies in.
pub proof fn lemma_candidates_stay<T>(selected: Seq<usize>, regions: Seq<Piece<T>>, q: Rect, k: usize)
    requires
        candidates_in(selected, regions, q).contains(k),
    ensures
        selected.contains(k),
        meets_rect(regions[k as int].outline, q),
{
    lemma_filter_elements(selected, reaches(regions, q));
    let kept = candidates_in(selected, regions, q);
    let i = choose|i: int| 0 <= i < kept.len() && kept[i] == k;
    assert(selected.contains(kept[i]));
}

/// A candidate whose region reaches a quadrant is a candidate there.
proof fn lemma_candidate_reaches<T>(
    selected: Seq<usize>,
    regions: Seq<Piece<T>>,
    q: Rect,
    k: usize,
)
    requires
        selected.contains(k),
        meets_rect(regions[k as int].outline, q),
    ensures
        candidates_in(selected, regions, q).contains(k),
{
    let i = choose|i: int| 0 <= i < selected.len() && selected[i] == k;
    selected.lemma_filter_contains(reaches(regions, q), i);
}

/// If no child from the `i`-th on has an answer, there is none.
proof fn lemma_no_child_answers<T>(children: Seq<NodeView<T>>, p: Point, i: int)
    requires
        0 <= i,
        forall|j: int|
            i <= j < children.len() ==> (#[trigger] children[j]).bounds.holds(p)
                ==> children[j].locate(p) is None,
    ensures
        NodeView::locate_from(children, p, i) is None,
    decreases children.len() - i,
{
    if i < children.len() {
        lemma_no_child_answers(children, p, i + 1);
    }
}

/// A point outside the rectangle of an internal node gets no label there:
/// it lies in none of the children's rectangles, so that no leaf is asked.
pub proof fn lemma_outside_the_box_is_missed<T>(t: NodeView<T>, p: Point)
    requires
        t.well_formed(),
        !t.is_leaf(),
        !t.bounds.holds(p),
    ensures
        t.locate(p) is None,
{
    t.bounds.lemma_bisectable_fewer(t.height(), 0);
    t.bounds.lemma_quadrants_cover(p);
    assert forall|j: int| 0 <= j < t.children.len() implies !(#[trigger] t.children[j]).bounds.holds(
        p,
    ) by {
        assert(t.children[j].bounds == t.bounds.spec_quadrant(j));
    }
    lemma_no_child_answers(t.children, p, 0);
}

/// What `geo` answers about the outline on one way down the tree is what it
/// would answer if `p` lay inside the region: there is a way from the node
/// to a leaf through boxes that `p` lies in and that intersect the outline,
/// `p` lies in the part that the leaf's box cuts from the outline, and if the
/// outline contains the leaf's box, then `p` lies in the box's own outline.
/// Nothing is asked of any box off that way.
pub open spec fn lets_in_along<T>(t: NodeView<T>, outline: Outline, p: Point) -> bool
    decreases t,
{
    &&& t.bounds.holds(p)
    &&& if t.is_leaf() {
        &&& has_point(clipped(outline, t.bounds), p)
        &&& covers_rect(outline, t.bounds) ==> has_point(rect_outline(t.bounds), p)
    } else {
        exists|i: int|
            0 <= i < t.children.len() && meets_rect(outline, (#[trigger] t.children[i]).bounds)
                && lets_in_along(t.children[i], outline, p)
    }
}

/// If a child that the point lies in has an answer, the children have one.
proof fn lemma_some_child_answers<T>(children: Seq<NodeView<T>>, p: Point, i: int, j: int)
    requires
        0 <= i <= j < children.len(),
        children[j].bounds.holds(p),
        children[j].locate(p) is Some,
    ensures
        NodeView::locate_from(children, p, i) is Some,
    decreases j - i,
{
    if i < j {
        lemma_some_child_answers(children, p, i + 1, j);
    }
}

/// The answer of the children is the answer of one of them that the point
/// lies in.
proof fn lemma_answer_is_a_childs<T>(children: Seq<NodeView<T>>, p: Point, i: int) -> (j: int)
    requires
        0 <= i,
        NodeView::locate_from(children, p, i) is Some,
    ensures
        i <= j < children.len(),
        children[j].bounds.holds(p),
        children[j].locate(p) == NodeView::locate_from(children, p, i),
    decreases children.len() - i,
{
    if children[i].bounds.holds(p) && children[i].locate(p) is Some {
        i
    } else {
        lemma_answer_is_a_childs(children, p, i + 1)
    }
}

/// What `geo` answers on the way down is what it answers everywhere: if it
/// answers as for a point inside the region for every box that `p` lies in,
/// it does so along a way through a well-formed tree whose box `p` lies in.
pub proof fn lemma_lets_in_along<T>(t: NodeView<T>, outline: Outline, p: Point)
    requires
        t.well_formed(),
        t.bounds.holds(p),
        lets_in(outline, p),
    ensures
        lets_in_along(t, outline, p),
    decreases t,
{
    let r = t.bounds;
    r.lemma_bisectable_fewer(t.height(), 0);
    if t.is_leaf() {
        assert(has_point(clipped(outline, r), p));
    } else {
        r.lemma_quadrants_cover(p);
        let i = choose|i: int| 0 <= i < 4 && (#[trigger] r.spec_quadrant(i)).holds(p);
        let child = t.children[i];
        assert(child.bounds == r.spec_quadrant(i));
        assert(child.well_formed());
        child.bounds.lemma_bisectable_fewer(child.height(), 0);
        assert(meets_rect(outline, child.bounds));
        lemma_lets_in_along(child, outline, p);
    }
}

/// A point gets a label if `geo` lets it into a candidate's region along one
/// way down the tree ([`lets_in_along`]).
///
/// This reaches points on borders and corners too, where `geo` cuts some
/// boxes around the point to nothing: only the boxes on the way count.
pub proof fn lemma_path_is_found<T: Clone>(
    t: NodeView<T>,
    selected: Seq<usize>,
    regions: Seq<Piece<T>>,
    bbox: Rect,
    max_depth: nat,
    depth: nat,
    home: usize,
    p: Point,
)
    requires
        t.is_build_of(selected, regions, bbox, max_depth, depth),
        selected.contains(home),
        lets_in_along(t, regions[home as int].outline, p),
    ensures
        t.locate(p) is Some,
    decreases max_depth - depth,
{
    let outline = regions[home as int].outline;
    if t.is_leaf() {
        lemma_first_hit(t.pieces, p, 0);
        let at = choose|j: int| 0 <= j < selected.len() && selected[j] == home;
        if depth >= max_depth {
            assert(t.pieces[at].outline == clipped(outline, bbox));
            assert(has_point(t.pieces[at].outline, p));
        } else {
            assert(at == 0);
            assert(has_point(t.pieces[0].outline, p));
        }
    } else {
        reveal_with_fuel(NodeView::is_build_of, 2);
        let i = choose|i: int|
            0 <= i < t.children.len() && meets_rect(outline, (#[trigger] t.children[i]).bounds)
                && lets_in_along(t.children[i], outline, p);
        let q = bbox.spec_quadrant(i);
        assert(t.children[i].bounds == q);
        lemma_candidate_reaches(selected, regions, q, home);
        lemma_path_is_found(
            t.children[i],
            candidates_in(selected, regions, q),
            regions,
            q,
            max_depth,
            depth + 1,
            home,
            p,
        );
        lemma_some_child_answers(t.children, p, 0, i);
    }
}

/// The label that a point gets is a candidate's, and never that of a
/// candidate of whose region `geo` answers as for a point outside it
/// ([`keeps_out`]): the label is a clone of the label of a candidate that
/// `geo` does not keep the point out of.
pub proof fn lemma_found_is_let_in<T: Clone>(
    t: NodeView<T>,
    selected: Seq<usize>,
    regions: Seq<Piece<T>>,
    bbox: Rect,
    max_depth: nat,
    depth: nat,
    p: Point,
) -> (k: usize)
    requires
        t.is_build_of(selected, regions, bbox, max_depth, depth),
        t.locate(p) is Some,
    ensures
        selected.contains(k),
        cloned(regions[k as int].label, t.locate(p)->0),
        !keeps_out(regions[k as int].outline, p),
    decreases max_depth - depth,
{
    if t.is_leaf() {
        lemma_first_hit(t.pieces, p, 0);
        let label = t.locate(p)->0;
        let j = choose|j: int|
            0 <= j < t.pieces.len() && (#[trigger] t.pieces[j]).label == label && has_point(
                t.pieces[j].outline,
                p,
            );
        if depth >= max_depth {
            let k = selected[j];
            assert(selected.contains(k));
            assert(t.pieces[j].outline == clipped(regions[k as int].outline, bbox));
            k
        } else {
            let k = selected[0];
            assert(selected.contains(k));
            assert(covers_rect(regions[k as int].outline, bbox));
            k
        }
    } else {
        let i = lemma_answer_is_a_childs(t.children, p, 0);
        let q = bbox.spec_quadrant(i);
        let kept = candidates_in(selected, regions, q);
        let k = lemma_found_is_let_in(t.children[i], kept, regions, q, max_depth, depth + 1, p);
        lemma_candidates_stay(selected, regions, q, k);
        k
    }
}

/// A point that `geo` keeps out of every candidate's region gets no label.
///
/// This is how a query misses: the law holds for every point of which `geo`
/// answers, for each candidate, as for a point outside the region
/// ([`keeps_out`]). That `geo` answers so for points far from all regions is
/// a fact about `geo`, and not stated here.
pub proof fn lemma_outside_is_missed<T: Clone>(
    t: NodeView<T>,
    selected: Seq<usize>,
    regions: Seq<Piece<T>>,
    bbox: Rect,
    max_depth: nat,
    depth: nat,
    p: Point,
)
    requires
        t.is_build_of(selected, regions, bbox, max_depth, depth),
        forall|k: usize| selected.contains(k) ==> keeps_out(#[trigger] regions[k as int].outline, p),
    ensures
        t.locate(p) is None,
{
    if t.locate(p) is Some {
        let k = lemma_found_is_let_in(t, selected, regions, bbox, max_depth, depth, p);
        assert(keeps_out(regions[k as int].outline, p));
    }
}

/// A point gets the label of a candidate if `geo` lets it into that
/// candidate's region along one way down the tree ([`lets_in_along`]) and
/// keeps it out of every other candidate's ([`keeps_out`]). The label found
/// is a clone of the candidate's.
pub proof fn lemma_path_gets_its_label<T: Clone>(
    t: NodeView<T>,
    selected: Seq<usize>,
    regions: Seq<Piece<T>>,
    bbox: Rect,
    max_depth: nat,
    depth: nat,
    home: usize,
    p: Point,
)
    requires
        t.is_build_of(selected, regions, bbox, max_depth, depth),
        selected.contains(home),
        lets_in_along(t, regions[home as int].outline, p),
        forall|k: usize|
            selected.contains(k) && k != home ==> keeps_out(
                #[trigger] regions[k as int].outline,
                p,
            ),
    ensures
        t.locate(p) matches Some(label) && cloned(regions[home as int].label, label),
{
    lemma_path_is_found(t, selected, regions, bbox, max_depth, depth, home, p);
    let k = lemma_found_is_let_in(t, selected, regions, bbox, max_depth, depth, p);
    if k != home {
        assert(keeps_out(regions[k as int].outline, p));
    }
}

/// A point inside a region gets the region's label.
///
/// `home` is a candidate. The law holds for every point of the box of which
/// `geo` answers, for the region `home`, as for a point inside it
/// ([`lets_in`]), and, for every other candidate, as for a point outside it
/// ([`keeps_out`]). The label found is a clone of the label of `home`. That
/// `geo` answers so for points in the interior of a region that overlaps no
/// other is a fact about `geo`, and not stated here.
pub proof fn lemma_inside_gets_its_label<T: Clone>(
    t: NodeView<T>,
    selected: Seq<usize>,
    regions: Seq<Piece<T>>,
    bbox: Rect,
    max_depth: nat,
    depth: nat,
    home: usize,
    p: Point,
)
    requires
        t.is_build_of(selected, regions, bbox, max_depth, depth),
        t.well_formed(),
        bbox.holds(p),
        selected.contains(home),
        lets_in(regions[home as int].outline, p),
        forall|k: usize|
            selected.contains(k) && k != home ==> keeps_out(
                #[trigger] regions[k as int].outline,
                p,
            ),
    ensures
        t.locate(p) matches Some(label) && cloned(regions[home as int].label, label),
{
    lemma_lets_in_along(t, regions[home as int].outline, p);
    lemma_path_gets_its_label(t, selected, regions, bbox, max_depth, depth, home, p);
}

/// A point inside a region gets a label.
///
/// As [`lemma_inside_gets_its_label`], but nothing is asked of the other
/// candidates, and which label the point gets is left open: where regions
/// overlap, it may be another region's.
pub proof fn lemma_inside_is_found<T: Clone>(
    t: NodeView<T>,
    selected: Seq<usize>,
    regions: Seq<Piece<T>>,
    bbox: Rect,
    max_depth: nat,
    depth: nat,
    home: usize,
    p: Point,
)
    requires
        t.is_build_of(selected, regions, bbox, max_depth, depth),
        t.well_formed(),
        bbox.holds(p),
        selected.contains(home),
        lets_in(regions[home as int].outline, p),
    ensures
        t.locate(p) is Some,
{
    lemma_lets_in_along(t, regions[home as int].outline, p);
    lemma_path_is_found(t, selected, regions, bbox, max_depth, depth, home, p);
}

} // verus!

//! The polygon kernel: everything this crate asks of `geo`, and of
//! `serde_json` for the text of an outline.
//!
//! Outlines of regions are `geo::MultiPolygon` values whose coordinates are
//! grid units. The verifier sees nothing inside such a value. What `geo`
//! answers about one is therefore given a name here (a spec function without a
//! body), and each function below states that its result is that name applied
//! to its arguments: the same outline, box and point always give the same
//! answer. The outline of a box is stated in full: it is the outline built
//! from the box's corners. Nothing else is claimed of `geo`; in particular no
//! geometric law (that a clipped outline lies inside its box, say) is assumed
//! anywhere.
//!
//! `geo` promises its answers for valid polygons. A polygon is valid if every
//! ring of it encloses an area, which is computed here, and if `geo` finds it
//! valid ([`sound_polygon`], [`valid_outline`]); a region is made of polygons
//! that passed both ([`sound`]), and only the outlines of regions are asked
//! about boxes and cut.
use crate::geometry::{shapes_of, Point, Polygon, PolygonShape, Rect};
use geo::{BooleanOps, Contains, Intersects, Validation};
use vstd::prelude::*;

verus! {

/// The outline of a region, or of the part of one inside a box: a `geo`
/// multi-polygon in grid units. The verifier does not look inside: an
/// outline is made, asked and cut by the functions of this module only.
#[verifier::external_body]
pub struct Outline {
    shape: geo::MultiPolygon,
}

/// The outline that `geo` builds from the given polygons.
pub uninterp spec fn grid_outline(shapes: Seq<PolygonShape>) -> Outline;

/// Whether `geo` finds that `outline` and the point `p` intersect: that `p`
/// lies in the interior or on the boundary of one of its polygons.
pub uninterp spec fn has_point(outline: Outline, p: Point) -> bool;

/// Whether `geo` finds the box `r` contained in `outline`.
pub uninterp spec fn covers_rect(outline: Outline, r: Rect) -> bool;

/// Whether `geo` finds that the box `r` and `outline` intersect.
pub uninterp spec fn meets_rect(outline: Outline, r: Rect) -> bool;

/// The part of `outline` that `geo` cuts out with the box `r`.
pub uninterp spec fn clipped(outline: Outline, r: Rect) -> Outline;

/// The box `r` as an outline: the outline of the one polygon that the box
/// is.
pub open spec fn rect_outline(r: Rect) -> Outline {
    grid_outline(seq![r.as_polygon()])
}

/// The JSON text that `serde_json` writes for `outline`, if it writes one.
pub uninterp spec fn outline_json(outline: Outline) -> Option<Seq<char>>;

/// The outline that `serde_json` reads from `text`, if it reads one, with
/// every ring that the text left open closed by `geo`.
pub uninterp spec fn json_outline(text: Seq<char>) -> Option<Outline>;

/// Whether `geo` finds the polygon valid: every ring has three different
/// corners at least and does not cross or touch itself, every hole lies
/// inside the outer ring, and no two rings cross or share a line.
pub uninterp spec fn sound_polygon(shape: PolygonShape) -> bool;

/// Whether `geo` finds the outline valid: every polygon of it is valid, and
/// no two of them overlap or share a line.
pub uninterp spec fn valid_outline(outline: Outline) -> bool;

/// The outline was built from grid points, so all its coordinates are finite.
pub open spec fn on_grid(outline: Outline) -> bool {
    exists|shapes: Seq<PolygonShape>| outline == #[trigger] grid_outline(shapes)
}

/// The polygon is valid: every ring of it encloses an area, and `geo` finds
/// it valid.
pub open spec fn valid_polygon(shape: PolygonShape) -> bool {
    shape.has_area() && sound_polygon(shape)
}

/// Each of the polygons is valid.
pub open spec fn sound_parts(shapes: Seq<PolygonShape>) -> bool {
    forall|i: int| 0 <= i < shapes.len() ==> valid_polygon(#[trigger] shapes[i])
}

/// The polygons make a valid outline: there is at least one, each of them
/// is valid, and `geo` finds the outline valid that they make together.
pub open spec fn valid_grid(shapes: Seq<PolygonShape>) -> bool {
    shapes.len() >= 1 && sound_parts(shapes) && valid_outline(grid_outline(shapes))
}

/// The outline was built from grid polygons each of which is valid.
pub open spec fn made_of_sound_parts(outline: Outline) -> bool {
    exists|shapes: Seq<PolygonShape>|
        outline == #[trigger] grid_outline(shapes) && sound_parts(shapes)
}

/// The outline was built from valid grid polygons, and `geo` finds it
/// valid: what the outline of a region is.
pub open spec fn sound(outline: Outline) -> bool {
    exists|shapes: Seq<PolygonShape>|
        outline == #[trigger] grid_outline(shapes) && valid_grid(shapes)
}

/// The outline of a box is built from grid points.
pub proof fn lemma_rect_outline_on_grid(r: Rect)
    ensures
        on_grid(rect_outline(r)),
{
}

/// Builds the `geo` outline of the given polygons with
/// `geo::MultiPolygon::new`, each polygon made by `geo::Polygon::new` from its
/// rings, each grid point becoming the coordinate pair with the same two
/// numbers. The contract claims that equal polygon lists give equal outlines.
#[verifier::external_body]
pub(crate) fn outline_from_grid(polygons: &Vec<Polygon>) -> (outline: Outline)
    ensures
        outline == grid_outline(shapes_of(polygons@)),
{
    let ring = |points: &Vec<Point>| -> geo::LineString {
        points.iter().map(|p| geo::Coord { x: p.x.into(), y: p.y.into() }).collect()
    };
    let shape = geo::MultiPolygon::new(
        polygons
            .iter()
            .map(|p| geo::Polygon::new(ring(&p.exterior), p.interiors.iter().map(ring).collect()))
            .collect(),
    );
    Outline { shape }
}

/// Asks `geo` (`Validation::is_valid` of `Polygon`) whether the polygon is
/// valid. `geo` first looks at each ring by itself (corners finite, three
/// different ones at least, no crossing or touching of itself) and gives up
/// at the first ring that fails. Only rings that passed are then related to
/// each other, as polygons without holes; as it is asked of rings that
/// enclose an area only, these are valid polygons. The contract claims that
/// the answer depends on the polygon alone.
#[verifier::external_body]
pub(crate) fn polygon_is_valid(polygon: &Polygon) -> (b: bool)
    requires
        polygon@.has_area(),
    ensures
        b == sound_polygon(polygon@),
{
    let ring = |points: &Vec<Point>| -> geo::LineString {
        points.iter().map(|p| geo::Coord { x: p.x.into(), y: p.y.into() }).collect()
    };
    let interiors = polygon.interiors.iter().map(ring).collect();
    geo::Polygon::new(ring(&polygon.exterior), interiors).is_valid()
}

/// Asks `geo` (`Validation::is_valid` of `MultiPolygon`) whether the outline
/// is valid. `geo` relates the polygons of the outline to each other two by
/// two; they are polygons that were found valid one by one before. The
/// contract claims that the answer depends on the outline alone.
#[verifier::external_body]
pub(crate) fn outline_is_valid(outline: &Outline) -> (b: bool)
    requires
        made_of_sound_parts(*outline),
    ensures
        b == valid_outline(*outline),
{
    outline.shape.is_valid()
}

/// Asks `geo` (`Intersects<Point>` of `MultiPolygon`) whether the point lies
/// in the outline, boundary included. The contract claims that the answer
/// depends on the outline and the point alone.
#[verifier::external_body]
pub(crate) fn outline_has_point(outline: &Outline, p: &Point) -> (b: bool)
    ensures
        b == has_point(*outline, *p),
{
    outline.shape.intersects(&geo::Point::new(p.x.into(), p.y.into()))
}

/// Asks `geo` (`Contains<Rect>` of `MultiPolygon`) whether the outline
/// contains the box. `geo` computes this from the topological relation of the
/// two. It is asked of what `geo` computes the relation for: an outline that
/// `geo` found valid, with finite coordinates as it was built from grid
/// points, and a box with an interior. The contract claims that the answer
/// depends on the outline and the box alone.
#[verifier::external_body]
pub(crate) fn outline_contains_rect(outline: &Outline, r: &Rect) -> (b: bool)
    requires
        sound(*outline),
        r.min_x < r.max_x && r.min_y < r.max_y,
    ensures
        b == covers_rect(*outline, *r),
{
    let lo: geo::Coord = geo::Coord { x: r.min_x.into(), y: r.min_y.into() };
    let hi: geo::Coord = geo::Coord { x: r.max_x.into(), y: r.max_y.into() };
    outline.shape.contains(&geo::Rect::new(lo, hi))
}

/// Asks `geo` (`Intersects<MultiPolygon>` of `Rect`) whether the box and the
/// outline have a point in common. It is asked of the outlines of regions
/// only, which are built from grid points and which `geo` found valid. The
/// contract claims that the answer depends on the box and the outline alone.
#[verifier::external_body]
pub(crate) fn rect_intersects_outline(r: &Rect, outline: &Outline) -> (b: bool)
    requires
        sound(*outline),
    ensures
        b == meets_rect(*outline, *r),
{
    let lo: geo::Coord = geo::Coord { x: r.min_x.into(), y: r.min_y.into() };
    let hi: geo::Coord = geo::Coord { x: r.max_x.into(), y: r.max_y.into() };
    geo::Rect::new(lo, hi).intersects(&outline.shape)
}

/// Has `geo` (`BooleanOps::intersection`) cut the outline down to the box.
/// `geo` calls the operation well-defined on valid geometries: it is asked
/// of an outline that `geo` found valid, with finite coordinates as it was
/// built from grid points, and of a box with an interior. The contract
/// claims that the result depends on the outline and the box alone; it says
/// nothing of where the result lies.
#[verifier::external_body]
pub(crate) fn clip_outline(outline: &Outline, r: &Rect) -> (piece: Outline)
    requires
        sound(*outline),
        r.min_x < r.max_x && r.min_y < r.max_y,
    ensures
        piece == clipped(*outline, *r),
{
    let lo: geo::Coord = geo::Coord { x: r.min_x.into(), y: r.min_y.into() };
    let hi: geo::Coord = geo::Coord { x: r.max_x.into(), y: r.max_y.into() };
    let window = geo::MultiPolygon::from(geo::Rect::new(lo, hi));
    Outline { shape: outline.shape.intersection(&window) }
}

/// Turns the box into an outline with `geo`'s `MultiPolygon::from`, which
/// makes one polygon without holes of it: the corners of the box,
/// counter-clockwise from the lower left one, which comes again at the end.
/// The contract claims that this is the outline that `outline_from_grid`
/// builds from the same five points.
#[verifier::external_body]
pub(crate) fn outline_of_rect(r: &Rect) -> (outline: Outline)
    ensures
        outline == rect_outline(*r),
{
    let lo: geo::Coord = geo::Coord { x: r.min_x.into(), y: r.min_y.into() };
    let hi: geo::Coord = geo::Coord { x: r.max_x.into(), y: r.max_y.into() };
    Outline { shape: geo::MultiPolygon::from(geo::Rect::new(lo, hi)) }
}

/// Writes the outline as JSON text with `serde_json::to_string`, in the form
/// that `geo` gives its multi-polygons. The contract claims that the text,
/// or the failure to write one, depends on the outline alone.
#[verifier::external_body]
pub(crate) fn outline_to_json(outline: &Outline) -> (text: Option<String>)
    ensures
        match text {
            Some(t) => outline_json(*outline) == Some(t@),
            None => outline_json(*outline) is None,
        },
{
    serde_json::to_string(&outline.shape).ok()
}

/// Reads an outline from JSON text with `serde_json::from_str`, and has
/// `geo::Polygon::new` close every ring that the text left open. The
/// contract claims that the outline, or the failure to read one, depends on
/// the text alone.
#[verifier::external_body]
pub(crate) fn outline_from_json(text: &str) -> (outline: Option<Outline>)
    ensures
        outline == json_outline(text@),
{
    let read: Option<geo::MultiPolygon> = serde_json::from_str(text).ok();
    let close = |p: geo::Polygon| {
        let (exterior, interiors) = p.into_inner();
        geo::Polygon::new(exterior, interiors)
    };
    read.map(|shape| Outline { shape: geo::MultiPolygon::new(shape.0.into_iter().map(close).collect()) })
}

impl Polygon {
    /// Whether the polygon is valid: whether every ring encloses an area and
    /// does not cross or touch itself, every hole lies inside the outer
    /// ring, and no two rings cross or share a line.
    pub fn is_valid(&self) -> (b: bool)
        ensures
            b == valid_polygon(self@),
    {
        self.has_area() && polygon_is_valid(self)
    }
}

impl Outline {
    /// Whether the point lies in the outline, boundary included.
    pub fn contains(&self, p: &Point) -> (b: bool)
        ensures
            b == has_point(*self, *p),
    {
        outline_has_point(self, p)
    }

    /// The outline as JSON text, for keeping a tree between runs.
    pub fn to_json(&self) -> (text: Option<String>)
        ensures
            match text {
                Some(t) => outline_json(*self) == Some(t@),
                None => outline_json(*self) is None,
            },
    {
        outline_to_json(self)
    }

    /// The outline that a JSON text stands for, if it stands for one.
    pub fn from_json(text: &str) -> (outline: Option<Outline>)
        ensures
            outline == json_outline(text@),
    {
        outline_from_json(text)
    }
}

} // verus!

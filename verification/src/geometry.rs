//! Points, polygons and axis-aligned rectangles on the integer coordinate
//! grid.
//!
//! A grid unit is whatever the caller makes it (a fraction of a degree, say);
//! the only thing this module assumes is that coordinates fit in `i32`.
//! Rectangles are closed boxes given by their lower and upper corner. The
//! bisection that drives the partition tree splits a box at
//! `min + (max - min) / 2` on each axis, so a box whose sides are multiples of
//! `2^n` can be bisected `n` times into congruent quadrants.
use vstd::arithmetic::div_mod::{
    lemma_fundamental_div_mod, lemma_mod_multiples_basic, lemma_small_mod,
};
use vstd::arithmetic::power2::{
    lemma2_to64, lemma_pow2_adds, lemma_pow2_pos, lemma_pow2_strictly_increases,
    lemma_pow2_unfold, pow2,
};
use vstd::prelude::*;

verus! {

/// A position on the grid.
#[derive(Clone, Copy, Debug, PartialEq, Eq, Structural)]
pub struct Point {
    pub x: i32,
    pub y: i32,
}

/// An axis-aligned box on the grid, from `(min_x, min_y)` to `(max_x, max_y)`.
#[derive(Clone, Copy, Debug, PartialEq, Eq, Structural)]
pub struct Rect {
    pub min_x: i32,
    pub min_y: i32,
    pub max_x: i32,
    pub max_y: i32,
}

/// A polygon given by grid points: an outer ring and any number of hole
/// rings. A ring need not repeat its first point at the end.
#[derive(Clone, Debug, PartialEq, Eq)]
pub struct Polygon {
    pub exterior: Vec<Point>,
    pub interiors: Vec<Vec<Point>>,
}

/// A polygon as a mathematical value: its outer ring and its holes.
pub struct PolygonShape {
    pub exterior: Seq<Point>,
    pub interiors: Seq<Seq<Point>>,
}

impl View for Polygon {
    type V = PolygonShape;

    open spec fn view(&self) -> PolygonShape {
        PolygonShape {
            exterior: self.exterior@,
            interiors: Seq::new(self.interiors@.len(), |i: int| self.interiors@[i]@),
        }
    }
}

/// The polygons of a list as mathematical values.
pub open spec fn shapes_of(polygons: Seq<Polygon>) -> Seq<PolygonShape> {
    Seq::new(polygons.len(), |i: int| polygons[i]@)
}

/// What the side from `a` to `b` adds to twice the area of a ring.
pub open spec fn side_area(a: Point, b: Point) -> int {
    a.x * b.y - b.x * a.y
}

/// What the first `n` sides of the ring add to twice its area; the side
/// after the last corner leads back to the first.
pub open spec fn ring_area_upto(ring: Seq<Point>, n: int) -> int
    decreases n,
{
    if n <= 0 {
        0
    } else {
        let next = if n == ring.len() { 0 } else { n };
        ring_area_upto(ring, n - 1) + side_area(ring[n - 1], ring[next])
    }
}

/// Twice the area that the ring encloses: positive if the ring runs
/// counter-clockwise, negative if clockwise, zero if it encloses nothing.
pub open spec fn ring_area_doubled(ring: Seq<Point>) -> int {
    ring_area_upto(ring, ring.len() as int)
}

impl PolygonShape {
    /// No ring of the polygon is empty or flat: each encloses an area.
    pub open spec fn has_area(self) -> bool {
        &&& ring_area_doubled(self.exterior) != 0
        &&& forall|i: int|
            0 <= i < self.interiors.len() ==> ring_area_doubled(#[trigger] self.interiors[i]) != 0
    }
}

/// Whether the ring encloses an area.
fn ring_has_area(ring: &Vec<Point>) -> (b: bool)
    ensures
        b == (ring_area_doubled(ring@) != 0),
{
    let n: usize = ring.len();
    let mut doubled: i128 = 0;
    let mut i: usize = 0;
    while i < n
        invariant
            i <= n,
            n == ring.len(),
            doubled == ring_area_upto(ring@, i as int),
            -(i * 0x8000_0000_0000_0000) <= doubled <= i * 0x8000_0000_0000_0000,
        decreases n - i,
    {
        let a: Point = ring[i];
        let b: Point = if i + 1 == n { ring[0] } else { ring[i + 1] };
        let ax: i128 = a.x as i128;
        let ay: i128 = a.y as i128;
        let bx: i128 = b.x as i128;
        let by: i128 = b.y as i128;
        assert(-0x4000_0000_0000_0000 <= ax * by <= 0x4000_0000_0000_0000) by (nonlinear_arith)
            requires
                -0x8000_0000 <= ax <= 0x8000_0000,
                -0x8000_0000 <= by <= 0x8000_0000,
        ;
        assert(-0x4000_0000_0000_0000 <= bx * ay <= 0x4000_0000_0000_0000) by (nonlinear_arith)
            requires
                -0x8000_0000 <= bx <= 0x8000_0000,
                -0x8000_0000 <= ay <= 0x8000_0000,
        ;
        let side: i128 = ax * by - bx * ay;
        assert(side == side_area(ring@[i as int], ring@[if i + 1 == n { 0 } else { i + 1 }]));
        doubled = doubled + side;
        i = i + 1;
    }
    doubled != 0
}

impl Polygon {
    /// Whether no ring of the polygon is empty or flat.
    pub fn has_area(&self) -> (b: bool)
        ensures
            b == self@.has_area(),
    {
        if !ring_has_area(&self.exterior) {
            return false;
        }
        let mut i: usize = 0;
        while i < self.interiors.len()
            invariant
                i <= self.interiors.len(),
                forall|j: int| 0 <= j < i ==> ring_area_doubled(#[trigger] self@.interiors[j]) != 0,
            decreases self.interiors.len() - i,
        {
            assert(self@.interiors[i as int] == self.interiors[i as int]@);
            if !ring_has_area(&self.interiors[i]) {
                return false;
            }
            i = i + 1;
        }
        true
    }
}

/// The grid coordinate halfway from `lo` to `hi`, or half a unit nearer to
/// `lo` where there is none halfway.
pub open spec fn middle(lo: int, hi: int) -> int {
    if lo <= hi {
        lo + (hi - lo) / 2
    } else {
        lo - (lo - hi) / 2
    }
}

impl Point {
    pub fn new(x: i32, y: i32) -> (p: Point)
        ensures
            p.x == x,
            p.y == y,
    {
        Point { x, y }
    }
}

impl Rect {
    /// The lower corner is not above or right of the upper corner.
    pub open spec fn valid(self) -> bool {
        self.min_x <= self.max_x && self.min_y <= self.max_y
    }

    pub open spec fn width(self) -> int {
        self.max_x - self.min_x
    }

    pub open spec fn height(self) -> int {
        self.max_y - self.min_y
    }

    pub open spec fn area(self) -> int {
        self.width() * self.height()
    }

    /// `p` lies in the box, its boundary included.
    pub open spec fn holds(self, p: Point) -> bool {
        self.min_x <= p.x <= self.max_x && self.min_y <= p.y <= self.max_y
    }

    /// `other` lies inside this box, boundaries included.
    pub open spec fn covers(self, other: Rect) -> bool {
        &&& self.min_x <= other.min_x
        &&& other.max_x <= self.max_x
        &&& self.min_y <= other.min_y
        &&& other.max_y <= self.max_y
    }

    /// Area that the two closed boxes have in common.
    pub open spec fn overlap_area(self, other: Rect) -> int {
        let left = if self.min_x >= other.min_x { self.min_x } else { other.min_x };
        let right = if self.max_x <= other.max_x { self.max_x } else { other.max_x };
        let low = if self.min_y >= other.min_y { self.min_y } else { other.min_y };
        let high = if self.max_y <= other.max_y { self.max_y } else { other.max_y };
        if left <= right && low <= high {
            (right - left) * (high - low)
        } else {
            0
        }
    }

    /// The box as a polygon without holes: the four corners of the box
    /// between its two corners, counter-clockwise from the lower left one,
    /// which comes again at the end.
    pub open spec fn as_polygon(self) -> PolygonShape {
        let lo_x = if self.min_x < self.max_x { self.min_x } else { self.max_x };
        let hi_x = if self.min_x < self.max_x { self.max_x } else { self.min_x };
        let lo_y = if self.min_y < self.max_y { self.min_y } else { self.max_y };
        let hi_y = if self.min_y < self.max_y { self.max_y } else { self.min_y };
        PolygonShape {
            exterior: seq![
                Point { x: lo_x, y: lo_y },
                Point { x: hi_x, y: lo_y },
                Point { x: hi_x, y: hi_y },
                Point { x: lo_x, y: hi_y },
                Point { x: lo_x, y: lo_y },
            ],
            interiors: Seq::empty(),
        }
    }

    /// Where the box is cut along the x axis.
    pub open spec fn mid_x(self) -> int {
        middle(self.min_x as int, self.max_x as int)
    }

    /// Where the box is cut along the y axis.
    pub open spec fn mid_y(self) -> int {
        middle(self.min_y as int, self.max_y as int)
    }

    /// Left and right half, in this order.
    pub open spec fn spec_split_x(self) -> (Rect, Rect) {
        (
            Rect { max_x: self.mid_x() as i32, ..self },
            Rect { min_x: self.mid_x() as i32, ..self },
        )
    }

    /// Lower and upper half, in this order.
    pub open spec fn spec_split_y(self) -> (Rect, Rect) {
        (
            Rect { max_y: self.mid_y() as i32, ..self },
            Rect { min_y: self.mid_y() as i32, ..self },
        )
    }

    /// The four quadrants: lower left, upper left, lower right, upper right.
    /// Any other index gives the box itself.
    pub open spec fn spec_quadrant(self, i: int) -> Rect {
        if i == 0 {
            self.spec_split_x().0.spec_split_y().0
        } else if i == 1 {
            self.spec_split_x().0.spec_split_y().1
        } else if i == 2 {
            self.spec_split_x().1.spec_split_y().0
        } else if i == 3 {
            self.spec_split_x().1.spec_split_y().1
        } else {
            self
        }
    }

    /// The box has an interior and can be bisected `levels` times into
    /// congruent quadrants without leaving the grid.
    pub open spec fn bisectable(self, levels: nat) -> bool {
        &&& self.min_x < self.max_x
        &&& self.min_y < self.max_y
        &&& self.width() % (pow2(levels) as int) == 0
        &&& self.height() % (pow2(levels) as int) == 0
    }

    /// The box spanned by two opposite corners, given in any order.
    pub fn new(c1: Point, c2: Point) -> (r: Rect)
        ensures
            r.valid(),
            r.min_x == if c1.x < c2.x { c1.x } else { c2.x },
            r.max_x == if c1.x < c2.x { c2.x } else { c1.x },
            r.min_y == if c1.y < c2.y { c1.y } else { c2.y },
            r.max_y == if c1.y < c2.y { c2.y } else { c1.y },
    {
        let (min_x, max_x) = if c1.x < c2.x { (c1.x, c2.x) } else { (c2.x, c1.x) };
        let (min_y, max_y) = if c1.y < c2.y { (c1.y, c2.y) } else { (c2.y, c1.y) };
        Rect { min_x, min_y, max_x, max_y }
    }

    /// Whether `p` lies in the box, its boundary included.
    pub fn contains(&self, p: &Point) -> (b: bool)
        ensures
            b == self.holds(*p),
    {
        p.x >= self.min_x && p.x <= self.max_x && p.y >= self.min_y && p.y <= self.max_y
    }

    /// Splits the box into a left and a right half that share the cut line.
    pub fn split_x(&self) -> (halves: (Rect, Rect))
        ensures
            halves == self.spec_split_x(),
    {
        let mid: i32 = midpoint(self.min_x, self.max_x);
        (
            Rect { min_x: self.min_x, min_y: self.min_y, max_x: mid, max_y: self.max_y },
            Rect { min_x: mid, min_y: self.min_y, max_x: self.max_x, max_y: self.max_y },
        )
    }

    /// Splits the box into a lower and an upper half that share the cut line.
    pub fn split_y(&self) -> (halves: (Rect, Rect))
        ensures
            halves == self.spec_split_y(),
    {
        let mid: i32 = midpoint(self.min_y, self.max_y);
        (
            Rect { min_x: self.min_x, min_y: self.min_y, max_x: self.max_x, max_y: mid },
            Rect { min_x: self.min_x, min_y: mid, max_x: self.max_x, max_y: self.max_y },
        )
    }

    /// Whether the box has an interior and sides that are multiples of
    /// `2^levels`.
    pub fn is_bisectable(&self, levels: usize) -> (b: bool)
        ensures
            b == self.bisectable(levels as nat),
    {
        let width: i64 = self.max_x as i64 - self.min_x as i64;
        let height: i64 = self.max_y as i64 - self.min_y as i64;
        if width <= 0 || height <= 0 {
            return false;
        }
        if levels > 32 {
            proof {
                lemma2_to64();
                lemma_pow2_strictly_increases(32, levels as nat);
                lemma_small_mod(width as nat, pow2(levels as nat));
            }
            return false;
        }
        let mut unit: i64 = 1;
        let mut done: usize = 0;
        proof {
            lemma2_to64();
        }
        while done < levels
            invariant
                done <= levels <= 32,
                unit == pow2(done as nat),
                unit <= 0x1_0000_0000,
            decreases levels - done,
        {
            proof {
                lemma_pow2_unfold((done + 1) as nat);
                lemma2_to64();
                if done + 1 < 32 {
                    lemma_pow2_strictly_increases((done + 1) as nat, 32);
                }
            }
            unit = unit * 2;
            done = done + 1;
        }
        width % unit == 0 && height % unit == 0
    }

    /// The `i`-th quadrant: the box is cut along x, then each half along y.
    /// There are four; any further index gives the box itself.
    pub fn quadrant(&self, i: usize) -> (q: Rect)
        ensures
            q == self.spec_quadrant(i as int),
    {
        if i >= 4 {
            return *self;
        }
        let (left, right) = self.split_x();
        let half = if i < 2 { left } else { right };
        let (low, high) = half.split_y();
        if i % 2 == 0 { low } else { high }
    }
}

impl Rect {
    /// The four quadrants of a box lie inside it.
    pub proof fn lemma_quadrants_inside(self, i: int)
        requires
            self.valid(),
            0 <= i < 4,
        ensures
            self.spec_quadrant(i).valid(),
            self.covers(self.spec_quadrant(i)),
    {
    }

    /// The four quadrants cover the box and nothing else: a point lies in the
    /// box exactly if it lies in one of the quadrants.
    pub proof fn lemma_quadrants_cover(self, p: Point)
        requires
            self.valid(),
        ensures
            self.holds(p) <==> exists|i: int|
                0 <= i < 4 && (#[trigger] self.spec_quadrant(i)).holds(p),
    {
        if self.holds(p) {
            let i: int = if p.x <= self.mid_x() {
                if p.y <= self.mid_y() { 0 } else { 1 }
            } else {
                if p.y <= self.mid_y() { 2 } else { 3 }
            };
            assert(self.spec_quadrant(i).holds(p));
        }
    }

    /// Two different quadrants share at most a line: the area that they have
    /// in common is zero.
    pub proof fn lemma_quadrants_share_no_area(self, i: int, j: int)
        requires
            self.valid(),
            0 <= i < 4,
            0 <= j < 4,
            i != j,
        ensures
            self.spec_quadrant(i).overlap_area(self.spec_quadrant(j)) == 0,
    {
        let a = self.spec_quadrant(i);
        let b = self.spec_quadrant(j);
        let left: int = if a.min_x >= b.min_x { a.min_x as int } else { b.min_x as int };
        let right: int = if a.max_x <= b.max_x { a.max_x as int } else { b.max_x as int };
        let low: int = if a.min_y >= b.min_y { a.min_y as int } else { b.min_y as int };
        let high: int = if a.max_y <= b.max_y { a.max_y as int } else { b.max_y as int };
        if left <= right && low <= high {
            assert(right - left == 0 || high - low == 0);
            assert((right - left) * (high - low) == 0) by (nonlinear_arith)
                requires
                    right - left == 0 || high - low == 0,
            ;
        }
    }

    /// The areas of the four quadrants add up to the area of the box.
    pub proof fn lemma_quadrants_fill(self)
        requires
            self.valid(),
        ensures
            self.spec_quadrant(0).area() + self.spec_quadrant(1).area() + self.spec_quadrant(
                2,
            ).area() + self.spec_quadrant(3).area() == self.area(),
    {
        let a: int = self.min_x as int;
        let b: int = self.max_x as int;
        let c: int = self.min_y as int;
        let d: int = self.max_y as int;
        let m: int = self.mid_x();
        let n: int = self.mid_y();
        assert((m - a) * (n - c) + (m - a) * (d - n) + (b - m) * (n - c) + (b - m) * (d - n) == (b
            - a) * (d - c)) by (nonlinear_arith);
    }

    /// A box that can be bisected `levels` times can be bisected fewer times.
    pub proof fn lemma_bisectable_fewer(self, levels: nat, fewer: nat)
        requires
            self.bisectable(levels),
            fewer <= levels,
        ensures
            self.bisectable(fewer),
    {
        let unit: int = pow2(fewer) as int;
        let rest: int = pow2((levels - fewer) as nat) as int;
        lemma_pow2_pos(fewer);
        lemma_pow2_pos((levels - fewer) as nat);
        lemma_pow2_adds(fewer, (levels - fewer) as nat);
        assert(pow2(levels) as int == unit * rest);
        lemma_multiple_of_multiple(self.width(), unit, rest);
        lemma_multiple_of_multiple(self.height(), unit, rest);
    }

    /// Bisecting a box whose sides are multiples of `2^(levels + 1)` gives
    /// four congruent quadrants whose sides are multiples of `2^levels`.
    pub proof fn lemma_quadrants_bisectable(self, levels: nat, i: int)
        requires
            self.bisectable(levels + 1),
            0 <= i < 4,
        ensures
            self.spec_quadrant(i).bisectable(levels),
            2 * self.spec_quadrant(i).width() == self.width(),
            2 * self.spec_quadrant(i).height() == self.height(),
    {
        let unit: int = pow2(levels) as int;
        lemma_pow2_pos(levels);
        lemma_pow2_unfold(levels + 1);
        lemma_half_of_multiple(self.width(), unit);
        lemma_half_of_multiple(self.height(), unit);
    }
}

/// A multiple of `unit * rest` is a multiple of `unit`.
proof fn lemma_multiple_of_multiple(side: int, unit: int, rest: int)
    requires
        unit > 0,
        rest > 0,
        side % (unit * rest) == 0,
    ensures
        side % unit == 0,
{
    assert(unit * rest > 0) by (nonlinear_arith)
        requires
            unit > 0,
            rest > 0,
    ;
    let k: int = side / (unit * rest);
    assert(side == (unit * rest) * k) by {
        lemma_fundamental_div_mod(side, unit * rest);
    }
    assert((unit * rest) * k == (rest * k) * unit) by (nonlinear_arith);
    lemma_mod_multiples_basic(rest * k, unit);
}

/// Half of a positive multiple of `2 * unit` is a positive multiple of `unit`.
proof fn lemma_half_of_multiple(side: int, unit: int)
    requires
        unit > 0,
        side > 0,
        side % (2 * unit) == 0,
    ensures
        side % 2 == 0,
        side / 2 > 0,
        (side / 2) % unit == 0,
{
    let k: int = side / (2 * unit);
    assert(side == (2 * unit) * k) by {
        lemma_fundamental_div_mod(side, 2 * unit);
    }
    assert((2 * unit) * k == 2 * (unit * k)) by (nonlinear_arith);
    assert(side / 2 == unit * k);
    assert((unit * k) % unit == 0) by {
        lemma_mod_multiples_basic(k, unit);
        assert(unit * k == k * unit) by (nonlinear_arith);
    }
}

/// The middle of two coordinates, computed without overflow.
fn midpoint(lo: i32, hi: i32) -> (mid: i32)
    ensures
        mid == middle(lo as int, hi as int),
{
    if lo <= hi {
        let span: i64 = hi as i64 - lo as i64;
        (lo as i64 + span / 2) as i32
    } else {
        let span: i64 = lo as i64 - hi as i64;
        (lo as i64 - span / 2) as i32
    }
}

} // verus!

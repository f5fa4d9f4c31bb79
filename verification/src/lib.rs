//! # pinpointer
//!
//! Fast "which labeled region contains this point?" queries over a static
//! collection of polygonal regions, such as country or province borders.
//!
//! The heart of the crate is [`labeling::LabeledPartitionTree`]: a quadtree
//! over an axis-aligned rectangle whose leaves hold, for every region that
//! reaches them, the part of the region inside the leaf. A tree is built once
//! from a collection of regions, a root rectangle and a depth limit, and then
//! only asked.
//!
//! - [`geometry`]: points, polygons and rectangles on an integer coordinate
//!   grid, and the bisection of a rectangle into quadrants.
//! - [`kernel`]: the outlines of regions, which are `geo` multi-polygons in
//!   grid units, and every question about them that `geo` answers.
//! - [`labeling`]: the tree, how it is built and how it is asked.
//! - [`laws`]: what holds of every tree.
//! - [`datasets`]: from the features of a map file to a collection of
//!   regions, and the name of the file that keeps a tree.
//!
//! A region is made of valid polygons only: rings that enclose an area and
//! do not cross themselves or each other, holes inside their outer ring,
//! polygons that do not overlap.
//!
//! Boundaries count as inside throughout: a point on the border of two
//! regions gets the label of one of them, and a point on the line between two
//! quadrants is looked for in both.
pub mod datasets;
pub mod geometry;
pub mod kernel;
pub mod labeling;
pub mod laws;

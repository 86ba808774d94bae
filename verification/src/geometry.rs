//! Points and the shapes that are handed to the physics engine.
//!
//! All coordinates are whole numbers of half pixels: the pixel in column `x`
//! of row `y` covers the square from `(2x, 2y)` to `(2x + 2, 2y + 2)` and has
//! its centre at `(2x + 1, 2y + 1)`.

use vstd::prelude::*;
use crate::pixel::Rgba;

verus! {

/// A point of the plane, in half pixels.
#[derive(Clone, Copy, Debug, PartialEq, Eq, Structural)]
pub struct Point {
    pub x: i64,
    pub y: i64,
}

/// An axis-aligned box with a flat colour.
#[derive(Clone, Copy, Debug, PartialEq, Eq, Structural)]
pub struct Rectangle {
    pub center: Point,
    pub half_extents: Point,
    pub color: Rgba,
}

/// A chain of line segments through `vertices`; a closed chain ends where it
/// began.
#[derive(Debug)]
pub struct Polyline {
    pub vertices: Vec<Point>,
    pub closed: bool,
}

/// One static collider for the physics engine to place.
#[derive(Debug)]
pub enum ColliderRequest {
    Rectangle(Rectangle),
    Polyline(Polyline),
}

/// What went wrong while a shape was built.
#[derive(Clone, Copy, Debug, PartialEq, Eq, Structural)]
pub enum ExtractError {
    /// An outline with fewer than three corners encloses nothing.
    InsufficientGeometry,
}

/// The square of the distance between two points.
pub open spec fn dist_sq(a: Point, b: Point) -> int {
    (a.x - b.x) * (a.x - b.x) + (a.y - b.y) * (a.y - b.y)
}

} // verus!

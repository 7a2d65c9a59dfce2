//! Grid geometry: integer coordinates and axis-aligned bounding boxes.
//!
//! A bounding box is split at an interior point into four quadrant boxes
//! (named after the corner of the parent they keep: NE holds the minimum
//! corner, SW the maximum corner, matching the partitioner's naming).
//! The quadrants tile the parent exactly: closed boxes cover it, and their
//! interiors are pairwise disjoint.

use vstd::prelude::*;

verus! {

/// An integer grid position.
#[derive(Clone, Copy, Debug, PartialEq, Eq, Structural)]
pub struct Coord {
    pub x: u64,
    pub y: u64,
}

impl Coord {
    pub fn new(x: u64, y: u64) -> (c: Coord)
        ensures
            c.x == x,
            c.y == y,
    {
        Coord { x, y }
    }

    /// Componentwise minimum, for growing bounding boxes.
    pub fn min_with(self, other: Coord) -> (c: Coord)
        ensures
            c.x == if self.x <= other.x { self.x } else { other.x },
            c.y == if self.y <= other.y { self.y } else { other.y },
    {
        Coord {
            x: if self.x <= other.x { self.x } else { other.x },
            y: if self.y <= other.y { self.y } else { other.y },
        }
    }

    /// Componentwise maximum, for growing bounding boxes.
    pub fn max_with(self, other: Coord) -> (c: Coord)
        ensures
            c.x == if self.x >= other.x { self.x } else { other.x },
            c.y == if self.y >= other.y { self.y } else { other.y },
    {
        Coord {
            x: if self.x >= other.x { self.x } else { other.x },
            y: if self.y >= other.y { self.y } else { other.y },
        }
    }
}

/// An axis-aligned rectangle of grid coordinates, both corners inclusive.
#[derive(Clone, Copy, Debug, PartialEq, Eq, Structural)]
pub struct BBox {
    pub min: Coord,
    pub max: Coord,
}

impl BBox {
    /// A box is well formed when its corners are ordered.
    pub open spec fn wf(self) -> bool {
        self.min.x <= self.max.x && self.min.y <= self.max.y
    }

    /// Closed containment: `c` lies in the box, boundary included.
    pub open spec fn spec_contains(self, c: Coord) -> bool {
        self.min.x <= c.x <= self.max.x && self.min.y <= c.y <= self.max.y
    }

    /// Strict containment: `c` lies in the open interior of the box.
    pub open spec fn spec_contains_strict(self, c: Coord) -> bool {
        self.min.x < c.x < self.max.x && self.min.y < c.y < self.max.y
    }

    pub fn new(min: Coord, max: Coord) -> (b: BBox)
        ensures
            b.min == min,
            b.max == max,
    {
        BBox { min, max }
    }

    /// Runtime form of closed containment.
    pub fn contains(&self, c: Coord) -> (r: bool)
        ensures
            r == self.spec_contains(c),
    {
        self.min.x <= c.x && c.x <= self.max.x && self.min.y <= c.y && c.y <= self.max.y
    }
}

/// A split point is interior to a box when it is strictly between the
/// corners on both axes, so that every quadrant has positive extent.
pub open spec fn split_in_box(b: BBox, x: u64, y: u64) -> bool {
    b.min.x < x < b.max.x && b.min.y < y < b.max.y
}

/// Quadrant keeping the minimum corner of the parent.
pub open spec fn ne_box(b: BBox, x: u64, y: u64) -> BBox {
    BBox { min: b.min, max: Coord { x, y } }
}

/// Quadrant with larger x, smaller y.
pub open spec fn se_box(b: BBox, x: u64, y: u64) -> BBox {
    BBox { min: Coord { x, y: b.min.y }, max: Coord { x: b.max.x, y } }
}

/// Quadrant keeping the maximum corner of the parent.
pub open spec fn sw_box(b: BBox, x: u64, y: u64) -> BBox {
    BBox { min: Coord { x, y }, max: b.max }
}

/// Quadrant with smaller x, larger y.
pub open spec fn nw_box(b: BBox, x: u64, y: u64) -> BBox {
    BBox { min: Coord { x: b.min.x, y }, max: Coord { x, y: b.max.y } }
}

/// The four quadrant boxes cover the parent: a point lies in the parent
/// box exactly when it lies in at least one quadrant box.
pub proof fn lemma_quadrants_cover(b: BBox, x: u64, y: u64, c: Coord)
    requires
        b.wf(),
        split_in_box(b, x, y),
    ensures
        b.spec_contains(c) <==> (ne_box(b, x, y).spec_contains(c) || se_box(b, x, y).spec_contains(
            c,
        ) || sw_box(b, x, y).spec_contains(c) || nw_box(b, x, y).spec_contains(c)),
{
}

/// The interiors of distinct quadrant boxes are disjoint: no point lies
/// strictly inside two of them.
pub proof fn lemma_quadrant_interiors_disjoint(b: BBox, x: u64, y: u64, c: Coord)
    requires
        b.wf(),
        split_in_box(b, x, y),
    ensures
        !(ne_box(b, x, y).spec_contains_strict(c) && se_box(b, x, y).spec_contains_strict(c)),
        !(ne_box(b, x, y).spec_contains_strict(c) && sw_box(b, x, y).spec_contains_strict(c)),
        !(ne_box(b, x, y).spec_contains_strict(c) && nw_box(b, x, y).spec_contains_strict(c)),
        !(se_box(b, x, y).spec_contains_strict(c) && sw_box(b, x, y).spec_contains_strict(c)),
        !(se_box(b, x, y).spec_contains_strict(c) && nw_box(b, x, y).spec_contains_strict(c)),
        !(sw_box(b, x, y).spec_contains_strict(c) && nw_box(b, x, y).spec_contains_strict(c)),
{
}

/// A point strictly inside a box that sits inside an outer box is
/// strictly inside the outer box as well.
pub proof fn lemma_strict_in_contained_box(inner: BBox, outer: BBox, c: Coord)
    requires
        outer.spec_contains(inner.min),
        outer.spec_contains(inner.max),
        inner.spec_contains_strict(c),
    ensures
        outer.spec_contains_strict(c),
{
}

/// The areas of the four quadrants sum to the parent's area. Area is
/// taken over half-open extents (`max` exclusive), under which adjacent
/// quadrants share no row or column and nothing is counted twice.
pub proof fn lemma_quadrant_extents_tile(b: BBox, x: u64, y: u64)
    requires
        b.wf(),
        split_in_box(b, x, y),
    ensures
        (x - b.min.x) * (y - b.min.y) + (b.max.x - x) * (y - b.min.y) + (x - b.min.x) * (b.max.y
            - y) + (b.max.x - x) * (b.max.y - y) == (b.max.x - b.min.x) * (b.max.y - b.min.y),
{
    let ax = x - b.min.x;
    let bx = b.max.x - x;
    let ay = y - b.min.y;
    let by = b.max.y - y;
    assert(ax * ay + bx * ay + ax * by + bx * by == (ax + bx) * (ay + by)) by (nonlinear_arith);
}

} // verus!

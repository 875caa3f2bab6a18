//! Placement rectangles and the arithmetic the reconciler needs on them:
//! axis-overlap tests and recentering a rectangle within another.

use vstd::prelude::*;

verus! {

/// Bound on every stored coordinate and extent, so that sums and halved
/// differences of two bounded rectangles never overflow `i64`.
pub const COORD_LIMIT: i64 = 0x4000_0000;

/// A placement rectangle: origin plus non-negative extents.
#[derive(Clone, Copy, PartialEq, Eq, Structural, Debug)]
pub struct Rect {
    pub x: i64,
    pub y: i64,
    pub width: i64,
    pub height: i64,
}

impl Rect {
    /// All fields within the coordinate bound and the extents non-negative.
    pub open spec fn bounded(self) -> bool {
        &&& -COORD_LIMIT <= self.x <= COORD_LIMIT
        &&& -COORD_LIMIT <= self.y <= COORD_LIMIT
        &&& 0 <= self.width <= COORD_LIMIT
        &&& 0 <= self.height <= COORD_LIMIT
    }

    /// The weaker bound that recentering within a bounded rectangle
    /// preserves: the origin may drift up to half an extent outside.
    pub open spec fn loosely_bounded(self) -> bool {
        &&& -2 * COORD_LIMIT <= self.x <= 2 * COORD_LIMIT
        &&& -2 * COORD_LIMIT <= self.y <= 2 * COORD_LIMIT
        &&& 0 <= self.width <= COORD_LIMIT
        &&& 0 <= self.height <= COORD_LIMIT
    }

    /// Whether the horizontal extents of `self` and `other` intersect.
    pub open spec fn spec_overlap_x(self, other: Rect) -> bool {
        self.x < other.x + other.width && other.x < self.x + self.width
    }

    /// Whether the vertical extents of `self` and `other` intersect.
    pub open spec fn spec_overlap_y(self, other: Rect) -> bool {
        self.y < other.y + other.height && other.y < self.y + self.height
    }

    /// Horizontal-overlap test.
    pub fn has_overlap_x(&self, other: &Rect) -> (r: bool)
        requires
            self.loosely_bounded(),
            other.loosely_bounded(),
        ensures
            r == self.spec_overlap_x(*other),
    {
        self.x < other.x + other.width && other.x < self.x + self.width
    }

    /// Vertical-overlap test.
    pub fn has_overlap_y(&self, other: &Rect) -> (r: bool)
        requires
            self.loosely_bounded(),
            other.loosely_bounded(),
        ensures
            r == self.spec_overlap_y(*other),
    {
        self.y < other.y + other.height && other.y < self.y + self.height
    }

    /// The rectangle of `self`'s size whose centre coincides with the
    /// centre of `outer` (up to the rounding of halving).
    pub open spec fn spec_centered_in(self, outer: Rect) -> Rect {
        Rect {
            x: (outer.x + outer.width / 2 - self.width / 2) as i64,
            y: (outer.y + outer.height / 2 - self.height / 2) as i64,
            width: self.width,
            height: self.height,
        }
    }

    /// Recenter `self` within `outer`, keeping its size.
    pub fn translate_to_center(&self, outer: &Rect) -> (r: Rect)
        requires
            self.loosely_bounded(),
            outer.bounded(),
        ensures
            r == self.spec_centered_in(*outer),
            r.loosely_bounded(),
    {
        Rect {
            x: outer.x + outer.width / 2 - self.width / 2,
            y: outer.y + outer.height / 2 - self.height / 2,
            width: self.width,
            height: self.height,
        }
    }
}

} // verus!

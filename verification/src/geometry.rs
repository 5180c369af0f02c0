//! Rectangles in atlas space (texels) and in screen space (pixels).

use vstd::prelude::*;

verus! {

/// A rectangle of texels inside the atlas: `width` columns from `x`,
/// `height` rows from `y`.
#[derive(Clone, Copy, Debug, PartialEq, Eq, Structural)]
pub struct Rect {
    pub x: u32,
    pub y: u32,
    pub width: u32,
    pub height: u32,
}

impl Rect {
    /// The column just right of the rectangle.
    pub open spec fn right(self) -> int {
        self.x + self.width
    }

    /// The row just below the rectangle.
    pub open spec fn bottom(self) -> int {
        self.y + self.height
    }

    /// The number of texels covered.
    pub open spec fn area(self) -> int {
        self.width * self.height
    }

    /// The rectangle covers no texel.
    pub open spec fn is_empty(self) -> bool {
        self.width == 0 || self.height == 0
    }

    /// The rectangle lies inside an atlas of the given dimensions.
    pub open spec fn within(self, width: u32, height: u32) -> bool {
        self.right() <= width && self.bottom() <= height
    }

    /// The texel in column `px`, row `py` belongs to the rectangle.
    pub open spec fn covers(self, px: int, py: int) -> bool {
        self.x <= px < self.right() && self.y <= py < self.bottom()
    }

    /// The two rectangles are separated by a vertical or a horizontal line.
    pub open spec fn disjoint(self, other: Rect) -> bool {
        ||| self.right() <= other.x
        ||| other.right() <= self.x
        ||| self.bottom() <= other.y
        ||| other.bottom() <= self.y
    }

    /// The rectangle that covers nothing, at the atlas origin.
    pub fn zero() -> (r: Rect)
        ensures
            r == (Rect { x: 0, y: 0, width: 0, height: 0 }),
    {
        Rect { x: 0, y: 0, width: 0, height: 0 }
    }

    /// Whether the two rectangles share no texel line by line: true exactly
    /// when a vertical or a horizontal line separates them.
    pub fn is_disjoint_from(&self, other: &Rect) -> (r: bool)
        ensures
            r == self.disjoint(*other),
    {
        let self_right: u64 = self.x as u64 + self.width as u64;
        let other_right: u64 = other.x as u64 + other.width as u64;
        let self_bottom: u64 = self.y as u64 + self.height as u64;
        let other_bottom: u64 = other.y as u64 + other.height as u64;
        self_right <= other.x as u64 || other_right <= self.x as u64 || self_bottom
            <= other.y as u64 || other_bottom <= self.y as u64
    }
}

/// Two rectangles separated by a line have no texel in common.
pub proof fn lemma_disjoint_shares_no_texel(a: Rect, b: Rect, px: int, py: int)
    requires
        a.disjoint(b),
    ensures
        !(a.covers(px, py) && b.covers(px, py)),
{
}

/// A rectangle of screen pixels, from `min` (inclusive) to `max` (exclusive),
/// with the y axis pointing down.
#[derive(Clone, Copy, Debug, PartialEq, Eq, Structural)]
pub struct ScreenRect {
    pub min_x: i64,
    pub min_y: i64,
    pub max_x: i64,
    pub max_y: i64,
}

impl ScreenRect {
    pub open spec fn width(self) -> int {
        self.max_x - self.min_x
    }

    pub open spec fn height(self) -> int {
        self.max_y - self.min_y
    }

    /// The rectangle covers no pixel.
    pub open spec fn is_empty(self) -> bool {
        self.max_x <= self.min_x || self.max_y <= self.min_y
    }

    /// Whether the rectangle covers no pixel.
    pub fn has_no_area(&self) -> (r: bool)
        ensures
            r == self.is_empty(),
    {
        self.max_x <= self.min_x || self.max_y <= self.min_y
    }
}

} // verus!

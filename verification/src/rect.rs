//! Axis-aligned room rectangles. A room occupies the tile region strictly
//! inside its border: carving writes floor to `x1+1 ..= x2`, `y1+1 ..= y2`,
//! so two rectangles that merely touch keep a one-tile wall between their
//! carved regions.

use vstd::prelude::*;

verus! {

#[derive(PartialEq, Eq, Structural, Copy, Clone, Debug)]
pub struct Rect {
    pub x1: i32,
    pub y1: i32,
    pub x2: i32,
    pub y2: i32,
}

impl Rect {
    /// The carved interior of the room: the tiles written to floor.
    pub open spec fn carved(self, x: int, y: int) -> bool {
        self.x1 + 1 <= x <= self.x2 && self.y1 + 1 <= y <= self.y2
    }

    /// Inclusive rectangle overlap; touching counts, which is what keeps a
    /// one-tile buffer between the carved regions of accepted rooms.
    pub open spec fn spec_intersect(self, other: Rect) -> bool {
        self.x1 <= other.x2 && self.x2 >= other.x1 && self.y1 <= other.y2 && self.y2 >= other.y1
    }

    pub open spec fn spec_center(self) -> (int, int) {
        ((self.x1 + self.x2) / 2, (self.y1 + self.y2) / 2)
    }

    pub fn new(x: i32, y: i32, w: i32, h: i32) -> (r: Rect)
        requires
            0 <= x,
            0 <= y,
            0 <= w,
            0 <= h,
            x + w <= i32::MAX,
            y + h <= i32::MAX,
        ensures
            r.x1 == x,
            r.y1 == y,
            r.x2 == x + w,
            r.y2 == y + h,
    {
        Rect { x1: x, y1: y, x2: x + w, y2: y + h }
    }

    /// True when the two rectangles overlap or touch.
    pub fn intersect(&self, other: &Rect) -> (r: bool)
        ensures
            r == self.spec_intersect(*other),
    {
        self.x1 <= other.x2 && self.x2 >= other.x1 && self.y1 <= other.y2 && self.y2 >= other.y1
    }

    pub fn center(&self) -> (c: (i32, i32))
        requires
            0 <= self.x1,
            0 <= self.y1,
            self.x1 <= self.x2,
            self.y1 <= self.y2,
            self.x2 < 0x4000_0000,
            self.y2 < 0x4000_0000,
        ensures
            (c.0 as int, c.1 as int) == self.spec_center(),
    {
        ((self.x1 + self.x2) / 2, (self.y1 + self.y2) / 2)
    }
}

/// Rooms whose rectangles do not even touch have disjoint carved regions.
pub proof fn lemma_carved_disjoint(a: Rect, b: Rect, x: int, y: int)
    requires
        !a.spec_intersect(b),
    ensures
        !(a.carved(x, y) && b.carved(x, y)),
{
}

/// The carved region of a room lies strictly inside its border, so a room
/// whose center is carved has its center strictly inside as well.
pub proof fn lemma_center_carved(r: Rect)
    requires
        0 <= r.x1,
        0 <= r.y1,
        r.x1 + 2 <= r.x2,
        r.y1 + 2 <= r.y2,
    ensures
        r.carved(r.spec_center().0, r.spec_center().1),
{
}

} // verus!

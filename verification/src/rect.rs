//! Axis-aligned rectangles: the rooms of the dungeon.

use vstd::prelude::*;

verus! {

/// An axis-aligned rectangle with corners `(x1, y1)` and `(x2, y2)`.
#[derive(PartialEq, Eq, Structural, Copy, Clone, Debug)]
pub struct Rect {
    pub x1: i32,
    pub y1: i32,
    pub x2: i32,
    pub y2: i32,
}

impl Rect {
    /// The first corner lies strictly above and to the left of the second.
    pub open spec fn wf(self) -> bool {
        self.x1 < self.x2 && self.y1 < self.y2
    }

    /// `(x, y)` lies in the rectangle, its border included.
    pub open spec fn contains(self, x: int, y: int) -> bool {
        self.x1 <= x <= self.x2 && self.y1 <= y <= self.y2
    }

    /// `(x, y)` lies in the rectangle and not on its border.
    pub open spec fn interior(self, x: int, y: int) -> bool {
        self.x1 < x < self.x2 && self.y1 < y < self.y2
    }

    /// The two rectangles, borders included, share a cell: their closed
    /// intervals overlap on both axes.
    pub open spec fn intersects(self, other: Rect) -> bool {
        self.x1 <= other.x2 && other.x1 <= self.x2 && self.y1 <= other.y2 && other.y1
            <= self.y2
    }

    /// The column of the centre: the mean of the two corner columns, rounded down.
    pub open spec fn center_x(self) -> int {
        (self.x1 + self.x2) / 2
    }

    /// The row of the centre: the mean of the two corner rows, rounded down.
    pub open spec fn center_y(self) -> int {
        (self.y1 + self.y2) / 2
    }

    /// The rectangle with top-left corner `(x, y)` that reaches `w` columns to
    /// the right and `h` rows down, or `None` where `w` or `h` is not positive
    /// or the far corner does not fit in an `i32`.
    pub fn new(x: i32, y: i32, w: i32, h: i32) -> (rect: Option<Rect>)
        ensures
            rect.is_some() <==> 0 < w && 0 < h && x + w <= i32::MAX && y + h <= i32::MAX,
            rect.is_some() ==> rect.unwrap() == (Rect { x1: x, y1: y, x2: (x + w) as i32, y2: (y + h) as i32 }),
            rect.is_some() ==> rect.unwrap().wf(),
    {
        if w <= 0 || h <= 0 || x > i32::MAX - w || y > i32::MAX - h {
            None
        } else {
            Some(Rect { x1: x, y1: y, x2: x + w, y2: y + h })
        }
    }

    /// Whether the two rectangles share a cell, borders included.
    pub fn intersect(&self, other: &Rect) -> (hit: bool)
        ensures
            hit == self.intersects(*other),
    {
        self.x1 <= other.x2 && self.x2 >= other.x1 && self.y1 <= other.y2 && self.y2 >= other.y1
    }

    /// The centre of the rectangle.
    pub fn center(&self) -> (c: (i32, i32))
        ensures
            c.0 == self.center_x(),
            c.1 == self.center_y(),
    {
        (midpoint(self.x1, self.x2), midpoint(self.y1, self.y2))
    }
}

/// The mean of `a` and `b`, rounded down.
pub fn midpoint(a: i32, b: i32) -> (m: i32)
    ensures
        m == (a + b) / 2,
{
    let sum: i64 = a as i64 + b as i64;
    if sum >= 0 {
        (sum / 2) as i32
    } else {
        let up: i64 = (1 - sum) / 2;
        (-up) as i32
    }
}

/// A rectangle that is well formed shares a cell with itself.
pub proof fn lemma_intersects_reflexive(a: Rect)
    requires
        a.wf(),
    ensures
        a.intersects(a),
{
}

/// Whether two rectangles share a cell does not depend on their order.
pub proof fn lemma_intersects_symmetric(a: Rect, b: Rect)
    ensures
        a.intersects(b) == b.intersects(a),
{
}

/// Two rectangles intersect exactly when some cell lies in both.
pub proof fn lemma_intersects_iff_shared_cell(a: Rect, b: Rect)
    requires
        a.wf(),
        b.wf(),
    ensures
        a.intersects(b) <==> exists|x: int, y: int| a.contains(x, y) && b.contains(x, y),
{
    if a.intersects(b) {
        let x = if a.x1 >= b.x1 { a.x1 as int } else { b.x1 as int };
        let y = if a.y1 >= b.y1 { a.y1 as int } else { b.y1 as int };
        assert(a.contains(x, y) && b.contains(x, y));
    }
}

} // verus!

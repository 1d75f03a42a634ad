//! Grid cells and axis-aligned rectangles of cells.

use vstd::prelude::*;

verus! {

/// A cell of the dungeon grid.
#[derive(Clone, Copy, Debug, PartialEq, Eq, Hash, Structural)]
pub struct Position {
    pub x: i32,
    pub y: i32,
}

/// The rectangle of cells with columns `x .. x + width` and rows `y .. y + height`.
#[derive(Clone, Copy, Debug, PartialEq, Eq, Structural)]
pub struct Rect {
    pub x: i32,
    pub y: i32,
    pub width: i32,
    pub height: i32,
}

impl Rect {
    /// One past the last column.
    pub open spec fn end_x(self) -> int {
        self.x + self.width
    }

    /// One past the last row.
    pub open spec fn end_y(self) -> int {
        self.y + self.height
    }

    /// Both far edges are representable.
    pub open spec fn fits(self) -> bool {
        self.end_x() <= i32::MAX && self.end_y() <= i32::MAX
    }

    /// A non-empty rectangle whose far edges are representable.
    pub open spec fn is_valid(self) -> bool {
        self.width > 0 && self.height > 0 && self.fits()
    }

    pub open spec fn contains(self, p: Position) -> bool {
        self.x <= p.x < self.end_x() && self.y <= p.y < self.end_y()
    }

    /// The cells of the rectangle.
    pub open spec fn cells(self) -> Set<Position> {
        Set::new(|p: Position| self.contains(p))
    }

    /// Every cell of `self` is a cell of `outer`.
    pub open spec fn within(self, outer: Rect) -> bool {
        outer.x <= self.x && self.end_x() <= outer.end_x() && outer.y <= self.y && self.end_y()
            <= outer.end_y()
    }

    /// The two rectangles share no cell.
    pub open spec fn is_disjoint(self, other: Rect) -> bool {
        ||| self.end_x() <= other.x
        ||| other.end_x() <= self.x
        ||| self.end_y() <= other.y
        ||| other.end_y() <= self.y
    }

    pub open spec fn area(self) -> int {
        self.width * self.height
    }

    /// Column of the center, rounded toward the origin corner.
    pub open spec fn mid_x(self) -> int {
        self.x + self.width / 2
    }

    /// Row of the center, rounded toward the origin corner.
    pub open spec fn mid_y(self) -> int {
        self.y + self.height / 2
    }

    /// The center cell.
    pub open spec fn mid(self) -> Position {
        Position { x: self.mid_x() as i32, y: self.mid_y() as i32 }
    }

    /// The center of the rectangle, with the half extents truncated.
    pub fn center(&self) -> (c: (i32, i32))
        requires
            self.width >= 0,
            self.height >= 0,
            self.mid_x() <= i32::MAX,
            self.mid_y() <= i32::MAX,
        ensures
            c.0 == self.mid_x(),
            c.1 == self.mid_y(),
    {
        (self.x + self.width / 2, self.y + self.height / 2)
    }
}

/// The center of a non-empty valid rectangle is one of its cells.
pub proof fn lemma_mid_inside(r: Rect)
    requires
        r.is_valid(),
    ensures
        r.contains(r.mid()),
        r.mid().x == r.mid_x(),
        r.mid().y == r.mid_y(),
{
}

} // verus!

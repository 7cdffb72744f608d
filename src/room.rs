use vstd::prelude::*;

verus! {

/// A grid position.
#[derive(Debug, Clone, Copy, PartialEq, Eq)]
pub struct Point {
    pub x: i32,
    pub y: i32,
}

/// An axis-aligned rectangle of tiles: the cells `[x, x2) × [y, y2)`.
#[derive(Debug, Clone, Copy, PartialEq, Eq)]
pub struct Room {
    pub x: i32,
    pub y: i32,
    pub x2: i32,
    pub y2: i32,
    pub width: i32,
    pub height: i32,
    pub centre: Point,
}

/// Half of `n`, rounded down (toward negative infinity).
fn floor_half(n: i32) -> (r: i32)
    ensures
        r == Room::half(n as int),
{
    if n >= 0 {
        n / 2
    } else {
        -((-(n + 1)) / 2) - 1
    }
}

impl Room {
    /// Half of `n`, rounded down.
    pub open spec fn half(n: int) -> int {
        n / 2
    }

    /// The rectangle with origin `(x, y)` and extent `w × h`, with its derived fields.
    pub open spec fn rect(x: int, y: int, w: int, h: int) -> Room {
        Room {
            x: x as i32,
            y: y as i32,
            x2: (x + w) as i32,
            y2: (y + h) as i32,
            width: w as i32,
            height: h as i32,
            centre: Point { x: (x + Self::half(w)) as i32, y: (y + Self::half(h)) as i32 },
        }
    }

    /// Whether the derived fields agree with the origin and extent.
    pub open spec fn consistent(self) -> bool {
        &&& self.x2 == self.x + self.width
        &&& self.y2 == self.y + self.height
        &&& self.centre.x == self.x + Self::half(self.width as int)
        &&& self.centre.y == self.y + Self::half(self.height as int)
    }

    /// Whether the cell in column `c` and row `r` lies in the rectangle.
    pub open spec fn contains_cell(self, c: int, r: int) -> bool {
        self.x <= c < self.x + self.width && self.y <= r < self.y + self.height
    }

    /// Whether the rectangle lies in the region with origin `(x, y)` and extent `w × h`.
    pub open spec fn within(self, x: int, y: int, w: int, h: int) -> bool {
        x <= self.x && self.x + self.width <= x + w && y <= self.y && self.y + self.height <= y
            + h
    }

    /// The inclusive overlap of two rectangles by their derived corners.
    pub open spec fn overlaps(self, other: Room) -> bool {
        self.x <= other.x2 && self.x2 >= other.x && self.y <= other.y2 && self.y2 >= other.y
    }

    pub fn new(x: i32, y: i32, width: i32, height: i32) -> (r: Room)
        requires
            i32::MIN <= x + width <= i32::MAX,
            i32::MIN <= y + height <= i32::MAX,
        ensures
            r == Room::rect(x as int, y as int, width as int, height as int),
            r.consistent(),
    {
        Room {
            x,
            y,
            x2: x + width,
            y2: y + height,
            width,
            height,
            centre: Point { x: x + floor_half(width), y: y + floor_half(height) },
        }
    }

    /// Inclusive bounding-box overlap: rectangles whose edges touch intersect.
    pub fn intersects(&self, other: &Room) -> (r: bool)
        ensures
            r == self.overlaps(*other),
    {
        self.x <= other.x2 && self.x2 >= other.x && self.y <= other.y2 && self.y2 >= other.y
    }
}

} // verus!

use vstd::prelude::*;
use crate::map::{Point, SCREEN_WIDTH, SCREEN_HEIGHT};

verus! {

/// An axis-aligned rectangle; `x1..x2` and `y1..y2`, upper bounds excluded.
#[derive(Clone, Copy, Debug, PartialEq, Eq, Structural)]
pub struct Rect {
    pub x1: i32,
    pub x2: i32,
    pub y1: i32,
    pub y2: i32,
}

/// The point lies in the rectangle.
pub open spec fn in_rect(r: Rect, x: int, y: int) -> bool {
    r.x1 <= x < r.x2 && r.y1 <= y < r.y2
}

/// The rectangle is non-empty and keeps one tile of border free on every side of the map.
pub open spec fn inside_border(r: Rect) -> bool {
    &&& 1 <= r.x1 < r.x2 <= SCREEN_WIDTH - 1
    &&& 1 <= r.y1 < r.y2 <= SCREEN_HEIGHT - 1
}

/// Two rectangles overlap or touch.
pub open spec fn rects_meet(a: Rect, b: Rect) -> bool {
    a.x1 <= b.x2 && a.x2 >= b.x1 && a.y1 <= b.y2 && a.y2 >= b.y1
}

/// Half of `s`, rounded toward zero as integer division does.
pub open spec fn half(s: int) -> int {
    if s >= 0 {
        s / 2
    } else {
        -((-s) / 2)
    }
}

pub open spec fn center_spec(r: Rect) -> Point {
    Point { x: half(r.x1 + r.x2) as i32, y: half(r.y1 + r.y2) as i32 }
}

impl Rect {
    pub fn with_size(x: i32, y: i32, w: i32, h: i32) -> (r: Rect)
        requires
            i32::MIN <= x + w <= i32::MAX,
            i32::MIN <= y + h <= i32::MAX,
        ensures
            r == (Rect { x1: x, x2: (x + w) as i32, y1: y, y2: (y + h) as i32 }),
    {
        Rect { x1: x, x2: x + w, y1: y, y2: y + h }
    }

    /// The middle point, rounded down on each axis.
    pub fn center(&self) -> (r: Point)
        requires
            i32::MIN <= self.x1 + self.x2 <= i32::MAX,
            i32::MIN <= self.y1 + self.y2 <= i32::MAX,
        ensures
            r == center_spec(*self),
    {
        Point { x: (self.x1 + self.x2) / 2, y: (self.y1 + self.y2) / 2 }
    }

    /// Whether the two rectangles overlap or touch.
    pub fn intersect(&self, other: &Rect) -> (r: bool)
        ensures
            r == rects_meet(*self, *other),
    {
        self.x1 <= other.x2 && self.x2 >= other.x1 && self.y1 <= other.y2 && self.y2 >= other.y1
    }
}

} // verus!

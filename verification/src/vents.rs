//! Hydrothermal vent lines on a grid: a line segment is horizontal,
//! vertical or diagonal at 45 degrees, and covers one grid point per step
//! from its first endpoint to its second.

use vstd::prelude::*;
use crate::geom::mag;

verus! {

/// The lesser of two integers.
pub open spec fn imin(a: int, b: int) -> int {
    if a <= b {
        a
    } else {
        b
    }
}

/// The greater of two integers.
pub open spec fn imax(a: int, b: int) -> int {
    if a >= b {
        a
    } else {
        b
    }
}

/// A vent line segment between two grid points.
#[derive(Clone, Copy, Debug, PartialEq, Eq, Structural)]
pub struct Line {
    pub x1: i32,
    pub y1: i32,
    pub x2: i32,
    pub y2: i32,
}

/// Where one coordinate stands after `k` unit steps from `a` toward `b`
/// (stopping at `b`).
pub open spec fn walk_coord(a: int, b: int, k: int) -> int {
    if a < b {
        a + imin(k, b - a)
    } else if a > b {
        a - imin(k, a - b)
    } else {
        a
    }
}

impl Line {
    /// How many steps the walk from the first endpoint to the second takes.
    pub open spec fn steps(self) -> int {
        imax(mag(self.x2 - self.x1), mag(self.y2 - self.y1))
    }

    /// Both coordinate spans fit the machine width.
    pub open spec fn span_ok(self) -> bool {
        &&& -(i32::MAX as int) <= self.x2 - self.x1 <= i32::MAX
        &&& -(i32::MAX as int) <= self.y2 - self.y1 <= i32::MAX
    }

    /// A line with its endpoints put in a canonical order: leftmost (then
    /// topmost) endpoint first.
    pub fn new(x1: i32, y1: i32, x2: i32, y2: i32) -> (r: Line)
        ensures
            r == if x1 < x2 || (x1 == x2 && y1 <= y2) {
                (Line { x1, y1, x2, y2 })
            } else {
                (Line { x1: x2, y1: y2, x2: x1, y2: y1 })
            },
    {
        if x1 < x2 || (x1 == x2 && y1 <= y2) {
            Line { x1, y1, x2, y2 }
        } else {
            Line { x1: x2, y1: y2, x2: x1, y2: y1 }
        }
    }

    /// Whether the line is horizontal or vertical.
    pub fn is_straight(&self) -> (r: bool)
        ensures
            r == (self.x1 == self.x2 || self.y1 == self.y2),
    {
        self.x1 == self.x2 || self.y1 == self.y2
    }

    /// Every grid point the line covers, walking one step at a time from the
    /// first endpoint until the second is reached: each coordinate moves one
    /// toward its destination per step and then holds.
    pub fn covered_coordinates(&self) -> (r: Vec<(i32, i32)>)
        requires
            self.span_ok(),
        ensures
            r@.len() == self.steps() + 1,
            forall|k: int| 0 <= k < r@.len() ==> (#[trigger] r@[k]).0 == walk_coord(
                self.x1 as int,
                self.x2 as int,
                k,
            ) && r@[k].1 == walk_coord(self.y1 as int, self.y2 as int, k),
    {
        let mut v: Vec<(i32, i32)> = Vec::new();
        let mut px = self.x1;
        let mut py = self.y1;
        loop
            invariant_except_break
                self.span_ok(),
                v@.len() <= self.steps(),
                px as int == walk_coord(self.x1 as int, self.x2 as int, v@.len() as int),
                py as int == walk_coord(self.y1 as int, self.y2 as int, v@.len() as int),
                forall|k: int| 0 <= k < v@.len() ==> (#[trigger] v@[k]).0 == walk_coord(
                    self.x1 as int,
                    self.x2 as int,
                    k,
                ) && v@[k].1 == walk_coord(self.y1 as int, self.y2 as int, k),
            ensures
                v@.len() == self.steps() + 1,
                forall|k: int| 0 <= k < v@.len() ==> (#[trigger] v@[k]).0 == walk_coord(
                    self.x1 as int,
                    self.x2 as int,
                    k,
                ) && v@[k].1 == walk_coord(self.y1 as int, self.y2 as int, k),
            decreases self.steps() - v@.len(),
        {
            v.push((px, py));
            if px == self.x2 && py == self.y2 {
                assert(v@.len() == self.steps() + 1);
                break ;
            }
            assert(v@.len() <= self.steps());
            if px < self.x2 {
                px = px + 1;
            } else if px > self.x2 {
                px = px - 1;
            }
            if py < self.y2 {
                py = py + 1;
            } else if py > self.y2 {
                py = py - 1;
            }
        }
        v
    }
}

} // verus!

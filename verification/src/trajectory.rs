//! Probe launching at a rectangular target: the target test, the drag-step
//! of a fired probe, and the search for the first horizontal velocity whose
//! drift stops inside the target's x-range.

use vstd::prelude::*;

verus! {

/// The triangular number `1 + 2 + … + k` (0 for `k <= 0`): the total
/// horizontal drift of a probe fired with x-velocity `k`.
pub open spec fn tri(k: int) -> int
    decreases k,
{
    if k <= 0 {
        0
    } else {
        tri(k - 1) + k
    }
}

/// `tri` in closed form.
proof fn lemma_tri_closed(k: int)
    requires
        0 <= k,
    ensures
        2 * tri(k) == k * (k + 1),
        tri(k) >= 0,
    decreases k,
{
    if k > 0 {
        lemma_tri_closed(k - 1);
        assert(2 * (tri(k - 1) + k) == k * (k + 1)) by (nonlinear_arith)
            requires
                2 * tri(k - 1) == (k - 1) * k,
        ;
    }
}

/// The search failed: no drift in the searched range stops inside the
/// target's x-range.
#[derive(Clone, Copy, Debug, PartialEq, Eq, Structural)]
pub enum TrajectoryError {
    NoXVelocity,
}

/// The rectangular target area, axis-aligned and inclusive.
#[derive(Clone, Copy, Debug, PartialEq, Eq, Structural)]
pub struct TargetArea {
    pub x1: i32,
    pub x2: i32,
    pub y1: i32,
    pub y2: i32,
}

impl TargetArea {
    /// Whether the point is inside the target.
    pub fn contains(&self, x: i32, y: i32) -> (r: bool)
        ensures
            r == (self.x1 <= x && x <= self.x2 && self.y1 <= y && y <= self.y2),
    {
        self.x1 <= x && x <= self.x2 && self.y1 <= y && y <= self.y2
    }

    /// Whether a total drift stops within the target's x-range.
    pub open spec fn x_in_range(&self, drift: int) -> bool {
        self.x1 <= drift && drift <= self.x2
    }

    /// The smallest x-velocity below 100 whose total drift ends inside the
    /// target's x-range, or the failure when there is none.
    pub fn part1_x_velocity(&self) -> (r: Result<i32, TrajectoryError>)
        ensures
            match r {
                Ok(v) => 0 <= v < 100 && self.x_in_range(tri(v as int)) && forall|w: int|
                    0 <= w < v ==> !self.x_in_range(tri(w)),
                Err(e) => e == TrajectoryError::NoXVelocity && forall|w: int|
                    0 <= w < 100 ==> !self.x_in_range(tri(w)),
            },
    {
        let mut total: i32 = 0;
        let mut x: i32 = 0;
        while x < 100
            invariant
                0 <= x <= 100,
                total == tri(x as int - 1),
                0 <= total <= 4950,
                forall|w: int| 0 <= w < x ==> !self.x_in_range(tri(w)),
            decreases 100 - x,
        {
            proof {
                lemma_tri_closed(x as int);
                assert(x as int * (x as int + 1) <= 9900) by (nonlinear_arith)
                    requires
                        0 <= x as int,
                        (x as int) < 100,
                ;
            }
            total = total + x;
            if total >= self.x1 && total <= self.x2 {
                return Ok(x);
            }
            x = x + 1;
        }
        Err(TrajectoryError::NoXVelocity)
    }
}

/// A probe in flight: position and velocity.
#[derive(Clone, Copy, Debug, PartialEq, Eq, Structural)]
pub struct Probe {
    pub x: i32,
    pub y: i32,
    pub vel_x: i32,
    pub vel_y: i32,
}

/// The sign of an integer.
pub open spec fn sgn(n: int) -> int {
    if n > 0 {
        1
    } else if n < 0 {
        -1
    } else {
        0
    }
}

impl Probe {
    /// A probe launched from the origin with the given velocity.
    pub fn fire(vel_x: i32, vel_y: i32) -> (r: Probe)
        ensures
            r.x == 0,
            r.y == 0,
            r.vel_x == vel_x,
            r.vel_y == vel_y,
    {
        Probe { x: 0, y: 0, vel_x, vel_y }
    }

    /// One step of flight: position moves by the velocity, drag pulls the
    /// x-velocity toward zero, gravity drops the y-velocity by one.
    pub fn advance(&mut self)
        requires
            i32::MIN <= old(self).x + old(self).vel_x <= i32::MAX,
            i32::MIN <= old(self).y + old(self).vel_y <= i32::MAX,
            i32::MIN < old(self).vel_y,
        ensures
            final(self).x == old(self).x + old(self).vel_x,
            final(self).y == old(self).y + old(self).vel_y,
            final(self).vel_x == old(self).vel_x - sgn(old(self).vel_x as int),
            final(self).vel_y == old(self).vel_y - 1,
    {
        self.x = self.x + self.vel_x;
        self.y = self.y + self.vel_y;
        if self.vel_x > 0 {
            self.vel_x = self.vel_x - 1;
        } else if self.vel_x < 0 {
            self.vel_x = self.vel_x + 1;
        }
        self.vel_y = self.vel_y - 1;
    }
}

} // verus!

//! Integer 3D geometry: the beacon point type with exact vector arithmetic,
//! squared Euclidean distance and Manhattan distance.

use vstd::prelude::*;

verus! {

/// Largest coordinate magnitude the engine works with.  The problem's data
/// fits comfortably in 32 bits; this far wider bound exists only so that every
/// derived quantity (differences, squared distances, Manhattan sums) provably
/// fits its machine integer.
pub const MAX_COORD: i64 = 0x1000_0000_0000_0000;

/// A coordinate the engine accepts: within `[-MAX_COORD, MAX_COORD]`.
pub open spec fn coord_ok(c: int) -> bool {
    -MAX_COORD <= c <= MAX_COORD
}

/// A point (or translation vector) as a mathematical triple of integers.
pub open spec fn in_range(p: (int, int, int)) -> bool {
    coord_ok(p.0) && coord_ok(p.1) && coord_ok(p.2)
}

/// Component-wise difference of two points.
pub open spec fn pt_sub(a: (int, int, int), b: (int, int, int)) -> (int, int, int) {
    (a.0 - b.0, a.1 - b.1, a.2 - b.2)
}

/// Component-wise sum of a point and a vector.
pub open spec fn pt_add(a: (int, int, int), b: (int, int, int)) -> (int, int, int) {
    (a.0 + b.0, a.1 + b.1, a.2 + b.2)
}

/// The square of an integer.
pub open spec fn sq(n: int) -> int {
    n * n
}

/// The magnitude of an integer.
pub open spec fn mag(n: int) -> int {
    if n < 0 {
        -n
    } else {
        n
    }
}

/// Exact squared Euclidean distance between two points.
pub open spec fn sq_dist(a: (int, int, int), b: (int, int, int)) -> int {
    sq(b.0 - a.0) + sq(b.1 - a.1) + sq(b.2 - a.2)
}

/// Exact Manhattan distance between two points.
pub open spec fn manhattan(a: (int, int, int), b: (int, int, int)) -> int {
    mag(b.0 - a.0) + mag(b.1 - a.1) + mag(b.2 - a.2)
}

/// A beacon position, reported by a scanner in some coordinate frame.
/// Equality and ordering are component-wise; two beacons are the same
/// physical point iff equal once expressed in the same frame.
#[derive(Clone, Copy, Debug, PartialEq, Eq, PartialOrd, Ord, Hash, Structural)]
pub struct Beacon {
    pub x: i64,
    pub y: i64,
    pub z: i64,
}

impl View for Beacon {
    type V = (int, int, int);

    open spec fn view(&self) -> (int, int, int) {
        (self.x as int, self.y as int, self.z as int)
    }
}

/// `0 <= n*n <= m*m` whenever `|n| <= m`.
proof fn lemma_sq_bound(n: int, m: int)
    by (nonlinear_arith)
    requires
        -m <= n <= m,
    ensures
        0 <= n * n <= m * m,
{
}

impl Beacon {
    /// Every coordinate within the engine's representable range.
    pub open spec fn wf(self) -> bool {
        in_range(self@)
    }

    pub fn new(x: i64, y: i64, z: i64) -> (r: Beacon)
        ensures
            r@ == (x as int, y as int, z as int),
    {
        Beacon { x, y, z }
    }

    /// The vector from `rhs` to `self`, exact.
    pub fn minus(&self, rhs: &Beacon) -> (r: Beacon)
        requires
            i64::MIN <= self@.0 - rhs@.0 <= i64::MAX,
            i64::MIN <= self@.1 - rhs@.1 <= i64::MAX,
            i64::MIN <= self@.2 - rhs@.2 <= i64::MAX,
        ensures
            r@ == pt_sub(self@, rhs@),
    {
        Beacon { x: self.x - rhs.x, y: self.y - rhs.y, z: self.z - rhs.z }
    }

    /// The point reached from `self` by the vector `rhs`, exact.
    pub fn plus(&self, rhs: &Beacon) -> (r: Beacon)
        requires
            i64::MIN <= self@.0 + rhs@.0 <= i64::MAX,
            i64::MIN <= self@.1 + rhs@.1 <= i64::MAX,
            i64::MIN <= self@.2 + rhs@.2 <= i64::MAX,
        ensures
            r@ == pt_add(self@, rhs@),
    {
        Beacon { x: self.x + rhs.x, y: self.y + rhs.y, z: self.z + rhs.z }
    }

    /// Exact squared Euclidean distance; wide enough that it never overflows
    /// for in-range beacons.
    pub fn squared_distance(&self, other: &Beacon) -> (r: i128)
        requires
            self.wf(),
            other.wf(),
        ensures
            r as int == sq_dist(self@, other@),
            0 <= r,
    {
        let dx: i128 = other.x as i128 - self.x as i128;
        let dy: i128 = other.y as i128 - self.y as i128;
        let dz: i128 = other.z as i128 - self.z as i128;
        proof {
            lemma_sq_bound(dx as int, 2 * MAX_COORD as int);
            lemma_sq_bound(dy as int, 2 * MAX_COORD as int);
            lemma_sq_bound(dz as int, 2 * MAX_COORD as int);
        }
        dx * dx + dy * dy + dz * dz
    }

    /// Exact Manhattan distance.
    pub fn manhattan_distance(&self, other: &Beacon) -> (r: i64)
        requires
            self.wf(),
            other.wf(),
        ensures
            r as int == manhattan(self@, other@),
            0 <= r,
    {
        let dx: i64 = if other.x >= self.x {
            other.x - self.x
        } else {
            self.x - other.x
        };
        let dy: i64 = if other.y >= self.y {
            other.y - self.y
        } else {
            self.y - other.y
        };
        let dz: i64 = if other.z >= self.z {
            other.z - self.z
        } else {
            self.z - other.z
        };
        dx + dy + dz
    }
}

} // verus!

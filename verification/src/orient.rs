//! The orientation catalog: every axis permutation composed with every
//! per-axis sign flip, 48 transforms in all.  The catalog is closed and fixed;
//! the matching algorithm only iterates it, in a stable order, and rejects
//! transforms that disagree with the observed correspondences.

use vstd::prelude::*;
use crate::geom::{Beacon, coord_ok, in_range, pt_add, sq, sq_dist};

verus! {

/// An axis permutation: which source axis feeds each output axis.
#[derive(Clone, Copy, Debug, PartialEq, Eq, Structural)]
pub enum Transform {
    XYZ,
    XZY,
    YXZ,
    YZX,
    ZXY,
    ZYX,
}

/// A per-axis sign flip, applied after the permutation.
#[derive(Clone, Copy, Debug, PartialEq, Eq, Structural)]
pub enum Flip {
    Id,
    X,
    Y,
    Z,
    XY,
    XZ,
    YZ,
    XYZ,
}

/// The permutation as a function on mathematical points.
pub open spec fn permute(t: Transform, p: (int, int, int)) -> (int, int, int) {
    match t {
        Transform::XYZ => (p.0, p.1, p.2),
        Transform::XZY => (p.0, p.2, p.1),
        Transform::YXZ => (p.1, p.0, p.2),
        Transform::YZX => (p.1, p.2, p.0),
        Transform::ZXY => (p.2, p.0, p.1),
        Transform::ZYX => (p.2, p.1, p.0),
    }
}

/// Whether the flip negates the first axis.
pub open spec fn flips_x(f: Flip) -> bool {
    match f {
        Flip::X | Flip::XY | Flip::XZ | Flip::XYZ => true,
        _ => false,
    }
}

/// Whether the flip negates the second axis.
pub open spec fn flips_y(f: Flip) -> bool {
    match f {
        Flip::Y | Flip::XY | Flip::YZ | Flip::XYZ => true,
        _ => false,
    }
}

/// Whether the flip negates the third axis.
pub open spec fn flips_z(f: Flip) -> bool {
    match f {
        Flip::Z | Flip::XZ | Flip::YZ | Flip::XYZ => true,
        _ => false,
    }
}

/// The flip with exactly the given sign pattern.
pub open spec fn flip_from(fx: bool, fy: bool, fz: bool) -> Flip {
    if fx {
        if fy {
            if fz {
                Flip::XYZ
            } else {
                Flip::XY
            }
        } else {
            if fz {
                Flip::XZ
            } else {
                Flip::X
            }
        }
    } else {
        if fy {
            if fz {
                Flip::YZ
            } else {
                Flip::Y
            }
        } else {
            if fz {
                Flip::Z
            } else {
                Flip::Id
            }
        }
    }
}

/// The flip as a function on mathematical points.
pub open spec fn flip_pt(f: Flip, p: (int, int, int)) -> (int, int, int) {
    (
        if flips_x(f) {
            -p.0
        } else {
            p.0
        },
        if flips_y(f) {
            -p.1
        } else {
            p.1
        },
        if flips_z(f) {
            -p.2
        } else {
            p.2
        },
    )
}

/// One catalog orientation as a function on mathematical points:
/// permutation first, then sign flip.
pub open spec fn orient(t: Transform, f: Flip, p: (int, int, int)) -> (int, int, int) {
    flip_pt(f, permute(t, p))
}

/// The fixed enumeration order of the axis permutations.
pub open spec fn transform_catalog() -> Seq<Transform> {
    seq![
        Transform::XYZ,
        Transform::XZY,
        Transform::YXZ,
        Transform::YZX,
        Transform::ZXY,
        Transform::ZYX,
    ]
}

/// The fixed enumeration order of the sign flips.
pub open spec fn flip_catalog() -> Seq<Flip> {
    seq![Flip::Id, Flip::X, Flip::Y, Flip::Z, Flip::XY, Flip::XZ, Flip::YZ, Flip::XYZ]
}

/// The full 48-entry catalog in its stable enumeration order: entry `m`
/// pairs permutation `m / 8` with flip `m % 8`.
pub open spec fn orientation_at(m: int) -> (Transform, Flip) {
    (transform_catalog()[m / 8], flip_catalog()[m % 8])
}

/// How many orientations the catalog holds.
pub open spec fn catalog_len() -> int {
    48
}

impl Transform {
    /// Applies the axis permutation to a coordinate triple.
    pub fn apply(&self, x: i64, y: i64, z: i64) -> (r: (i64, i64, i64))
        ensures
            (r.0 as int, r.1 as int, r.2 as int) == permute(*self, (x as int, y as int, z as int)),
    {
        match self {
            Transform::XYZ => (x, y, z),
            Transform::XZY => (x, z, y),
            Transform::YXZ => (y, x, z),
            Transform::YZX => (y, z, x),
            Transform::ZXY => (z, x, y),
            Transform::ZYX => (z, y, x),
        }
    }
}

impl Flip {
    /// Applies the sign flip to a coordinate triple.
    pub fn apply(&self, x: i64, y: i64, z: i64) -> (r: (i64, i64, i64))
        requires
            i64::MIN < x,
            i64::MIN < y,
            i64::MIN < z,
        ensures
            (r.0 as int, r.1 as int, r.2 as int) == flip_pt(*self, (x as int, y as int, z as int)),
    {
        match self {
            Flip::Id => (x, y, z),
            Flip::X => (-x, y, z),
            Flip::Y => (x, -y, z),
            Flip::Z => (x, y, -z),
            Flip::XY => (-x, -y, z),
            Flip::XZ => (-x, y, -z),
            Flip::YZ => (x, -y, -z),
            Flip::XYZ => (-x, -y, -z),
        }
    }
}

/// The axis permutations in catalog order.
pub fn transforms() -> (r: Vec<Transform>)
    ensures
        r@ == transform_catalog(),
{
    let r = vec![
        Transform::XYZ,
        Transform::XZY,
        Transform::YXZ,
        Transform::YZX,
        Transform::ZXY,
        Transform::ZYX,
    ];
    proof {
        assert(r@ =~= transform_catalog());
    }
    r
}

/// The sign flips in catalog order.
pub fn flips() -> (r: Vec<Flip>)
    ensures
        r@ == flip_catalog(),
{
    let r = vec![Flip::Id, Flip::X, Flip::Y, Flip::Z, Flip::XY, Flip::XZ, Flip::YZ, Flip::XYZ];
    proof {
        assert(r@ =~= flip_catalog());
    }
    r
}

impl Beacon {
    /// The beacon as seen after rotating the frame by the given orientation.
    pub fn transformed(&self, transform: Transform, flip: Flip) -> (r: Beacon)
        requires
            self.wf(),
        ensures
            r@ == orient(transform, flip, self@),
            r.wf(),
    {
        let (x, y, z) = transform.apply(self.x, self.y, self.z);
        let (xf, yf, zf) = flip.apply(x, y, z);
        Beacon { x: xf, y: yf, z: zf }
    }
}

/// `(-n)^2 == n^2`.
proof fn lemma_sq_neg(n: int)
    by (nonlinear_arith)
    ensures
        sq(-n) == sq(n),
{
}

/// Sign flips preserve squared distances.
proof fn lemma_flip_preserves_sq_dist(f: Flip, p: (int, int, int), q: (int, int, int))
    ensures
        sq_dist(flip_pt(f, p), flip_pt(f, q)) == sq_dist(p, q),
{
    lemma_sq_neg(q.0 - p.0);
    lemma_sq_neg(q.1 - p.1);
    lemma_sq_neg(q.2 - p.2);
}

/// Axis permutations preserve squared distances.
proof fn lemma_permute_preserves_sq_dist(t: Transform, p: (int, int, int), q: (int, int, int))
    ensures
        sq_dist(permute(t, p), permute(t, q)) == sq_dist(p, q),
{
}

/// Orientation closure: every catalog orientation is rigid, so applying it to
/// two points leaves their squared distance unchanged.
pub proof fn lemma_orient_preserves_sq_dist(
    t: Transform,
    f: Flip,
    p: (int, int, int),
    q: (int, int, int),
)
    ensures
        sq_dist(orient(t, f, p), orient(t, f, q)) == sq_dist(p, q),
{
    lemma_permute_preserves_sq_dist(t, p, q);
    lemma_flip_preserves_sq_dist(f, permute(t, p), permute(t, q));
}

/// Orientations keep coordinates in range: they only permute magnitudes and
/// change signs.
pub proof fn lemma_orient_in_range(t: Transform, f: Flip, p: (int, int, int))
    requires
        in_range(p),
    ensures
        in_range(orient(t, f, p)),
{
}

/// Orientations are linear: they distribute over vector addition.
pub proof fn lemma_orient_linear(t: Transform, f: Flip, a: (int, int, int), b: (int, int, int))
    ensures
        orient(t, f, pt_add(a, b)) == pt_add(orient(t, f, a), orient(t, f, b)),
{
}

/// The inverse of a catalog orientation, itself a catalog orientation: the
/// inverse permutation, with the sign pattern carried across it.
pub open spec fn inverse(t: Transform, f: Flip) -> (Transform, Flip) {
    let ti = match t {
        Transform::XYZ => Transform::XYZ,
        Transform::XZY => Transform::XZY,
        Transform::YXZ => Transform::YXZ,
        Transform::YZX => Transform::ZXY,
        Transform::ZXY => Transform::YZX,
        Transform::ZYX => Transform::ZYX,
    };
    let s = permute_bools(ti, (flips_x(f), flips_y(f), flips_z(f)));
    (ti, flip_from(s.0, s.1, s.2))
}

/// The permutation acting on a triple of booleans (used to carry a sign
/// pattern across an axis permutation).
pub open spec fn permute_bools(t: Transform, p: (bool, bool, bool)) -> (bool, bool, bool) {
    match t {
        Transform::XYZ => (p.0, p.1, p.2),
        Transform::XZY => (p.0, p.2, p.1),
        Transform::YXZ => (p.1, p.0, p.2),
        Transform::YZX => (p.1, p.2, p.0),
        Transform::ZXY => (p.2, p.0, p.1),
        Transform::ZYX => (p.2, p.1, p.0),
    }
}

/// `inverse` undoes the orientation it inverts.
pub proof fn lemma_inverse(t: Transform, f: Flip, p: (int, int, int))
    ensures
        ({
            let (ti, fi) = inverse(t, f);
            orient(ti, fi, orient(t, f, p)) == p
        }),
{
    let (ti, fi) = inverse(t, f);
    match t {
        Transform::XYZ => {
            assert(orient(ti, fi, orient(t, f, p)) == p);
        },
        Transform::XZY => {
            assert(orient(ti, fi, orient(t, f, p)) == p);
        },
        Transform::YXZ => {
            assert(orient(ti, fi, orient(t, f, p)) == p);
        },
        Transform::YZX => {
            assert(orient(ti, fi, orient(t, f, p)) == p);
        },
        Transform::ZXY => {
            assert(orient(ti, fi, orient(t, f, p)) == p);
        },
        Transform::ZYX => {
            assert(orient(ti, fi, orient(t, f, p)) == p);
        },
    }
}

} // verus!

use scanner_align::geom::Beacon;
use scanner_align::orient::{Flip, Transform, flips, transforms};

#[test]
fn squared_distance_exact() {
    let a = Beacon::new(1, 2, 3);
    let b = Beacon::new(4, -2, 3);
    assert_eq!(a.squared_distance(&b), 25);
    assert_eq!(b.squared_distance(&a), 25);
    assert_eq!(a.squared_distance(&a), 0);
}

#[test]
fn manhattan_distance_exact() {
    let a = Beacon::new(1105, -1205, 1229);
    let b = Beacon::new(-92, -2380, -20);
    assert_eq!(a.manhattan_distance(&b), 3621);
    assert_eq!(b.manhattan_distance(&a), 3621);
    assert_eq!(a.manhattan_distance(&a), 0);
}

#[test]
fn vector_arithmetic() {
    let a = Beacon::new(5, 7, -3);
    let b = Beacon::new(2, -1, 4);
    let d = a.minus(&b);
    assert_eq!((d.x, d.y, d.z), (3, 8, -7));
    let s = b.plus(&d);
    assert_eq!((s.x, s.y, s.z), (5, 7, -3));
}

#[test]
fn transform_permutes_axes() {
    assert_eq!(Transform::XYZ.apply(1, 2, 3), (1, 2, 3));
    assert_eq!(Transform::XZY.apply(1, 2, 3), (1, 3, 2));
    assert_eq!(Transform::YXZ.apply(1, 2, 3), (2, 1, 3));
    assert_eq!(Transform::YZX.apply(1, 2, 3), (2, 3, 1));
    assert_eq!(Transform::ZXY.apply(1, 2, 3), (3, 1, 2));
    assert_eq!(Transform::ZYX.apply(1, 2, 3), (3, 2, 1));
}

#[test]
fn flip_changes_signs() {
    assert_eq!(Flip::Id.apply(1, 2, 3), (1, 2, 3));
    assert_eq!(Flip::X.apply(1, 2, 3), (-1, 2, 3));
    assert_eq!(Flip::Y.apply(1, 2, 3), (1, -2, 3));
    assert_eq!(Flip::Z.apply(1, 2, 3), (1, 2, -3));
    assert_eq!(Flip::XY.apply(1, 2, 3), (-1, -2, 3));
    assert_eq!(Flip::XZ.apply(1, 2, 3), (-1, 2, -3));
    assert_eq!(Flip::YZ.apply(1, 2, 3), (1, -2, -3));
    assert_eq!(Flip::XYZ.apply(1, 2, 3), (-1, -2, -3));
}

#[test]
fn catalog_has_48_orientations() {
    assert_eq!(transforms().len(), 6);
    assert_eq!(flips().len(), 8);
}

/// Orientation closure on concrete points: every catalog orientation
/// preserves squared distances.
#[test]
fn orientations_preserve_squared_distance() {
    let p = Beacon::new(3, -7, 11);
    let q = Beacon::new(-2, 5, 13);
    let d = p.squared_distance(&q);
    for t in transforms() {
        for f in flips() {
            let tp = p.transformed(t, f);
            let tq = q.transformed(t, f);
            assert_eq!(tp.squared_distance(&tq), d);
        }
    }
}

#[test]
fn transformed_composes_permutation_then_flip() {
    let p = Beacon::new(1, 2, 3);
    let r = p.transformed(Transform::YZX, Flip::XY);
    assert_eq!((r.x, r.y, r.z), (-2, -3, 1));
}

use scanner_align::align::{find_beacons_in_common, find_transform};
use scanner_align::fingerprint::Scanner;
use scanner_align::geom::Beacon;
use scanner_align::orient::{Flip, Transform};

fn beacons(points: &[(i64, i64, i64)]) -> Vec<Beacon> {
    let mut v = Vec::new();
    for &(x, y, z) in points {
        v.push(Beacon::new(x, y, z));
    }
    v
}

/// Scanner A: 12 points in the global frame plus one extra of its own.
fn scanner_a() -> Scanner {
    Scanner::new(
        0,
        beacons(&[
            (-337, 941, -692),
            (-192, 333, -902),
            (-852, 681, 97),
            (-808, -252, 193),
            (-882, 863, 39),
            (-561, -924, -824),
            (-112, -144, -857),
            (-508, -815, 128),
            (-131, -879, 693),
            (158, -747, 940),
            (-543, 291, 284),
            (193, 940, -874),
            (1500, 1600, 1700),
        ]),
    )
}

/// Scanner B: the same 12 points seen from a frame rotated by
/// (YZX, XY) and offset by (100, -200, 300), plus two extras of its own.
fn scanner_b() -> Scanner {
    Scanner::new(
        1,
        beacons(&[
            (-992, 437, -1141),
            (-1202, 292, -533),
            (-203, 952, -881),
            (-107, 908, 52),
            (-261, 982, -1063),
            (-1124, 661, 724),
            (-1157, 212, -56),
            (-172, 608, 615),
            (393, 231, 679),
            (640, -58, 547),
            (-16, 643, -491),
            (-1174, -93, -1140),
            (-2000, 1600, 1400),
            (1700, -1700, 1700),
        ]),
    )
}

/// A scanner with no beacon in common with the two above.
fn scanner_c() -> Scanner {
    Scanner::new(
        2,
        beacons(&[(9000, 9000, 9000), (9010, 9000, 9000), (9000, 9020, 9000), (9000, 9000, 9030), (
            9040, 9040, 9040,
        )]),
    )
}

#[test]
fn twelve_shared_points_give_twelve_candidates() {
    let a = scanner_a();
    let b = scanner_b();
    let pairs = find_beacons_in_common(&a, &b);
    assert_eq!(pairs.len(), 12);
}

#[test]
fn align_finds_the_exact_orientation_and_offset() {
    let a = scanner_a();
    let b = scanner_b();
    let got = find_transform(&a, &b);
    match got {
        Some((off, t, f)) => {
            assert_eq!((off.x, off.y, off.z), (100, -200, 300));
            assert!(matches!(t, Transform::YZX));
            assert!(matches!(f, Flip::XY));
        },
        None => panic!("expected an alignment"),
    }
}

/// Alignment symmetry on concrete data: the reverse alignment succeeds with
/// the inverse transform and the negated, inverse-rotated offset.
#[test]
fn align_succeeds_in_reverse_with_the_inverse_transform() {
    let a = scanner_a();
    let b = scanner_b();
    let got = find_transform(&b, &a);
    match got {
        Some((off, t, f)) => {
            assert_eq!((off.x, off.y, off.z), (-300, 100, -200));
            assert!(matches!(t, Transform::ZXY));
            assert!(matches!(f, Flip::YZ));
        },
        None => panic!("expected the reverse alignment to succeed"),
    }
}

#[test]
fn unrelated_scanners_do_not_align() {
    let a = scanner_a();
    let c = scanner_c();
    assert!(find_transform(&a, &c).is_none());
    assert!(find_transform(&c, &a).is_none());
}

/// Eleven shared beacons sit just under the threshold: each true pair
/// shares only ten neighbour distances, so no candidates arise at all.
#[test]
fn eleven_shared_points_are_not_enough() {
    let a = Scanner::new(
        0,
        beacons(&[
            (-337, 941, -692),
            (-192, 333, -902),
            (-852, 681, 97),
            (-808, -252, 193),
            (-882, 863, 39),
            (-561, -924, -824),
            (-112, -144, -857),
            (-508, -815, 128),
            (-131, -879, 693),
            (158, -747, 940),
            (-543, 291, 284),
            (1500, 1600, 1700),
        ]),
    );
    let b = Scanner::new(
        1,
        beacons(&[
            (-992, 437, -1141),
            (-1202, 292, -533),
            (-203, 952, -881),
            (-107, 908, 52),
            (-261, 982, -1063),
            (-1124, 661, 724),
            (-1157, 212, -56),
            (-172, 608, 615),
            (393, 231, 679),
            (640, -58, 547),
            (-16, 643, -491),
            (123, 456, 789),
        ]),
    );
    assert_eq!(find_beacons_in_common(&a, &b).len(), 0);
    assert!(find_transform(&a, &b).is_none());
}

/// A scanner with fewer beacons than the overlap threshold can never
/// satisfy the candidate test.
#[test]
fn degenerate_scanner_never_aligns() {
    let a = scanner_a();
    let tiny = Scanner::new(7, beacons(&[(-337, 941, -692), (-192, 333, -902)]));
    assert!(find_transform(&a, &tiny).is_none());
}

/// Idempotence of fingerprinting: recomputing the index gives identical
/// results.
#[test]
fn fingerprint_index_is_idempotent() {
    let a = scanner_a();
    let first = a.beacon_distances();
    let second = a.beacon_distances();
    assert_eq!(first, second);
    let b = scanner_b();
    assert_eq!(b.beacon_distances(), b.beacon_distances());
}

#[test]
fn fingerprints_have_one_entry_per_other_beacon() {
    let a = scanner_a();
    let index = a.beacon_distances();
    assert_eq!(index.len(), 13);
    for row in &index {
        assert_eq!(row.len(), 12);
    }
}

use scanner_align::aggregate::{max_scanner_separation, solve, total_beacons};
use scanner_align::assemble::{AssembleError, SolvedScanner, assemble, try_solve_one};
use scanner_align::fingerprint::Scanner;
use scanner_align::geom::Beacon;

fn beacons(points: &[(i64, i64, i64)]) -> Vec<Beacon> {
    let mut v = Vec::new();
    for &(x, y, z) in points {
        v.push(Beacon::new(x, y, z));
    }
    v
}

fn scanner_a() -> Scanner {
    Scanner::new(
        0,
        beacons(&[
            (-337, 941, -692),
            (-192, 333, -902),
            (-852, 681, 97),
            (-808, -252, 193),
            (-882, 863, 39),
            (-561, -924, -824),
            (-112, -144, -857),
            (-508, -815, 128),
            (-131, -879, 693),
            (158, -747, 940),
            (-543, 291, 284),
            (193, 940, -874),
            (1500, 1600, 1700),
        ]),
    )
}

fn scanner_b() -> Scanner {
    Scanner::new(
        1,
        beacons(&[
            (-992, 437, -1141),
            (-1202, 292, -533),
            (-203, 952, -881),
            (-107, 908, 52),
            (-261, 982, -1063),
            (-1124, 661, 724),
            (-1157, 212, -56),
            (-172, 608, 615),
            (393, 231, 679),
            (640, -58, 547),
            (-16, 643, -491),
            (-1174, -93, -1140),
            (-2000, 1600, 1400),
            (1700, -1700, 1700),
        ]),
    )
}

fn scanner_c() -> Scanner {
    Scanner::new(
        2,
        beacons(&[(9000, 9000, 9000), (9010, 9000, 9000), (9000, 9020, 9000), (9000, 9000, 9030), (
            9040, 9040, 9040,
        )]),
    )
}

/// End-to-end: two scanners sharing 12 points, threshold 11.  The assembled
/// beacon set is the 12 shared points plus each scanner's extras, with no
/// duplicates, and the scanner separation is the offset's Manhattan length.
#[test]
fn two_scanner_end_to_end() {
    let result = solve(vec![scanner_a(), scanner_b()]);
    match result {
        Ok((count, sep)) => {
            assert_eq!(count, 15);
            assert_eq!(sep, 600);
        },
        Err(_) => panic!("expected the assembly to succeed"),
    }
}

/// A scanner that shares nothing with the reference but overlaps another
/// scanner is still placed: assembly reaches it transitively once the
/// middle scanner is solved.
#[test]
fn three_scanner_transitive_chain() {
    let a = Scanner::new(
        0,
        beacons(&[
            (-74, 773, 146),
            (754, 892, 599),
            (-47, -75, 40),
            (751, 202, -612),
            (-622, 646, 48),
            (-26, 289, 257),
            (624, -619, -808),
            (-86, -379, -710),
            (-815, 103, 658),
            (823, 420, 299),
            (-915, 219, -189),
            (975, -73, 339),
            (-5000, -5000, -5000),
        ]),
    );
    let b = Scanner::new(
        1,
        beacons(&[
            (-154, 174, -973),
            (299, -654, -1092),
            (-260, 147, -125),
            (-912, -651, -402),
            (-252, 722, -846),
            (-43, 126, -489),
            (-1108, -524, 419),
            (-1010, 186, 179),
            (358, 915, -303),
            (-1, -723, -620),
            (-489, 1015, -419),
            (39, -875, -127),
            (3031, -3413, -3460),
            (1730, -2222, -3476),
            (1829, -3603, -3282),
            (2089, -2021, -2273),
            (2928, -3701, -2695),
            (2650, -1961, -3793),
            (2910, -2568, -3102),
            (2763, -3625, -2600),
            (2302, -2378, -3511),
            (3056, -2923, -2209),
            (3041, -2074, -3136),
            (2828, -2469, -3033),
        ]),
    );
    let c = Scanner::new(
        2,
        beacons(&[
            (4031, 660, -1013),
            (2730, 676, 178),
            (2829, 482, -1203),
            (3089, -527, 379),
            (3928, -105, -1301),
            (3650, 993, 439),
            (3910, 302, -168),
            (3763, -200, -1225),
            (3302, 711, 22),
            (4056, -591, -523),
            (4041, 336, 326),
            (3828, 233, -69),
            (7700, 4400, -4500),
        ]),
    );
    // scanner 2 never aligns with the reference directly
    assert!(scanner_align::align::find_transform(&a, &c).is_none());
    let result = assemble(vec![a, b, c]);
    match result {
        Ok(solved) => {
            assert_eq!(solved.len(), 3);
            let p1 = &solved[1].position;
            assert_eq!((p1.x, p1.y, p1.z), (100, -200, 300));
            let p2 = &solved[2].position;
            assert_eq!((p2.x, p2.y, p2.z), (2500, 2600, -700));
            assert_eq!(total_beacons(&solved), 26);
            assert_eq!(max_scanner_separation(&solved), 6200);
        },
        Err(_) => panic!("the chain should assemble"),
    }
}

#[test]
fn single_scanner_solves_trivially() {
    let result = solve(vec![scanner_c()]);
    match result {
        Ok((count, sep)) => {
            assert_eq!(count, 5);
            assert_eq!(sep, 0);
        },
        Err(_) => panic!("a lone scanner is already assembled"),
    }
}

/// Disconnected input: a scanner sharing no beacons with the others leaves
/// the assembly with the distinct, fatal failure rather than looping or
/// silently dropping the scanner.
#[test]
fn disconnected_dataset_is_reported() {
    let result = solve(vec![scanner_a(), scanner_b(), scanner_c()]);
    assert!(matches!(result, Err(AssembleError::Disconnected)));
}

#[test]
fn fully_unrelated_scanners_are_disconnected_immediately() {
    let result = assemble(vec![scanner_a(), scanner_c()]);
    assert!(matches!(result, Err(AssembleError::Disconnected)));
}

/// Monotonic solving: a successful transition grows the solved pool by
/// exactly one and shrinks the unsolved pool by the same scanner; a failed
/// transition changes nothing.
#[test]
fn transition_moves_exactly_one_scanner() {
    let mut solved = vec![SolvedScanner { position: Beacon::new(0, 0, 0), scanner: scanner_a() }];
    let mut unsolved = vec![scanner_b()];
    let progressed = try_solve_one(&mut solved, &mut unsolved);
    assert!(progressed);
    assert_eq!(solved.len(), 2);
    assert_eq!(unsolved.len(), 0);
    assert_eq!((solved[1].position.x, solved[1].position.y, solved[1].position.z), (100, -200, 300));

    let mut solved2 = vec![SolvedScanner { position: Beacon::new(0, 0, 0), scanner: scanner_a() }];
    let mut unsolved2 = vec![scanner_c()];
    let progressed2 = try_solve_one(&mut solved2, &mut unsolved2);
    assert!(!progressed2);
    assert_eq!(solved2.len(), 1);
    assert_eq!(unsolved2.len(), 1);
}

/// Deduplication: beacons with identical global coordinates reported by two
/// different scanners count once.
#[test]
fn identical_global_beacons_count_once() {
    let solved = vec![
        SolvedScanner {
            position: Beacon::new(0, 0, 0),
            scanner: Scanner::new(0, beacons(&[(1, 2, 3), (4, 5, 6)])),
        },
        SolvedScanner {
            position: Beacon::new(1, 1, 1),
            scanner: Scanner::new(1, beacons(&[(0, 1, 2), (7, 7, 7)])),
        },
    ];
    // scanner 1's first beacon lands on (1, 2, 3), scanner 0's first beacon.
    assert_eq!(total_beacons(&solved), 3);
    assert_eq!(max_scanner_separation(&solved), 3);
}

#[test]
fn duplicate_beacons_within_one_scanner_count_once() {
    let solved = vec![SolvedScanner {
        position: Beacon::new(0, 0, 0),
        scanner: Scanner::new(0, beacons(&[(1, 2, 3), (1, 2, 3), (4, 5, 6)])),
    }];
    assert_eq!(total_beacons(&solved), 2);
    assert_eq!(max_scanner_separation(&solved), 0);
}

#[test]
fn assemble_keeps_the_first_scanner_at_the_origin() {
    let result = assemble(vec![scanner_a(), scanner_b()]);
    match result {
        Ok(solved) => {
            assert_eq!(solved.len(), 2);
            assert_eq!(
                (solved[0].position.x, solved[0].position.y, solved[0].position.z),
                (0, 0, 0),
            );
            assert_eq!(solved[0].scanner.number, 0);
            assert_eq!(solved[1].scanner.number, 1);
        },
        Err(_) => panic!("expected the assembly to succeed"),
    }
}

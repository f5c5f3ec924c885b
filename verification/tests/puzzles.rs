use scanner_align::bingo::{board_score, is_winning_board};
use scanner_align::caves::{Cave, Trip};
use scanner_align::chunks::{LineParseError, Opener, character_score, parse_line};
use scanner_align::crabs::part2_cost_to_move;
use scanner_align::lanternfish::iterate;
use scanner_align::submarine::{Direction, Position};
use scanner_align::trajectory::{Probe, TargetArea};
use scanner_align::vents::Line;

#[test]
fn course_part1_example() {
    let course = vec![
        Direction::Forward(5),
        Direction::Down(5),
        Direction::Forward(8),
        Direction::Up(3),
        Direction::Down(8),
        Direction::Forward(2),
    ];
    let mut position = Position::new();
    for d in &course {
        position.update(d);
    }
    assert_eq!(position.forward, 15);
    assert_eq!(position.depth, 10);
    assert_eq!(position.answer(), 150);
}

#[test]
fn course_part2_example() {
    let course = vec![
        Direction::Forward(5),
        Direction::Down(5),
        Direction::Forward(8),
        Direction::Up(3),
        Direction::Down(8),
        Direction::Forward(2),
    ];
    let mut position = Position::new();
    for d in &course {
        position.update_part2(d);
    }
    assert_eq!(position.forward, 15);
    assert_eq!(position.depth, 60);
    assert_eq!(position.answer(), 900);
}

#[test]
fn crab_costs_are_triangular() {
    assert_eq!(part2_cost_to_move(0), 0);
    assert_eq!(part2_cost_to_move(1), 1);
    assert_eq!(part2_cost_to_move(4), 10);
    assert_eq!(part2_cost_to_move(11), 66);
    assert_eq!(part2_cost_to_move(46340), 46340 * 46341 / 2);
}

#[test]
fn lanternfish_day_passes() {
    // timer histogram for the example school 3,4,3,1,2
    let mut counts: Vec<u64> = vec![0, 1, 1, 2, 1, 0, 0, 0, 0, 0];
    iterate(&mut counts);
    assert_eq!(counts, vec![1, 1, 2, 1, 0, 0, 0, 0, 0, 0]);
    iterate(&mut counts);
    // the fish at 0 respawns at 6 and spawns another at 8
    assert_eq!(counts, vec![1, 2, 1, 0, 0, 0, 1, 0, 1, 0]);
}

#[test]
fn chunk_scores() {
    assert_eq!(character_score(&')'), 3);
    assert_eq!(character_score(&']'), 57);
    assert_eq!(character_score(&'}'), 1197);
    assert_eq!(character_score(&'>'), 25137);
    assert_eq!(character_score(&'x'), 0);
    assert_eq!(Opener::Parenthesis.expected_closer(), ')');
    assert_eq!(Opener::LessThan.expected_closer(), '>');
    assert_eq!(Opener::Bracket.closing_score(), 2);
    assert_eq!(Opener::CurlyBrace.closing_score(), 3);
}

fn chars_of(s: &str) -> Vec<char> {
    s.chars().collect()
}

#[test]
fn complete_line_parses() {
    assert!(parse_line(&chars_of("([<>{}])")).is_ok());
    assert!(parse_line(&chars_of("")).is_ok());
}

#[test]
fn corrupted_line_names_the_bad_closer() {
    let r = parse_line(&chars_of("{([(<{}[<>[]}>{[]{[(<()>"));
    assert!(matches!(r, Err(LineParseError::UnexpectedCloser('}'))));
    let r2 = parse_line(&chars_of("[[<[([]))<([[{}[[()]]]"));
    assert!(matches!(r2, Err(LineParseError::UnexpectedCloser(')'))));
}

#[test]
fn incomplete_line_gets_its_completion_score() {
    let r = parse_line(&chars_of("[({(<(())[]>[[{[]{<()<>>"));
    assert!(matches!(r, Err(LineParseError::UnexpectedEndOfLine(288957))));
    let r2 = parse_line(&chars_of("[(()[<>])]({[<{<<[]>>("));
    assert!(matches!(r2, Err(LineParseError::UnexpectedEndOfLine(5566))));
}

#[test]
fn bingo_wins_by_row_and_column() {
    let marked = |v: u8| v | 128;
    let open_board = vec![vec![1, 2], vec![3, 4]];
    assert!(!is_winning_board(&open_board));
    let row = vec![vec![marked(1), marked(2)], vec![3, 4]];
    assert!(is_winning_board(&row));
    let col = vec![vec![marked(1), 2], vec![marked(3), 4]];
    assert!(is_winning_board(&col));
}

#[test]
fn bingo_score_sums_unmarked_cells() {
    let board = vec![vec![10, 10 | 128], vec![5, 72 | 128]];
    assert_eq!(board_score(&board), 15);
}

#[test]
fn vent_line_normalizes_endpoints() {
    let l = Line::new(9, 7, 7, 9);
    assert_eq!((l.x1, l.y1, l.x2, l.y2), (7, 9, 9, 7));
    let l2 = Line::new(0, 9, 5, 9);
    assert_eq!((l2.x1, l2.y1, l2.x2, l2.y2), (0, 9, 5, 9));
    assert!(l2.is_straight());
    assert!(!Line::new(1, 1, 3, 3).is_straight());
}

#[test]
fn vent_line_covers_each_step() {
    let diag = Line::new(1, 1, 3, 3);
    assert_eq!(diag.covered_coordinates(), vec![(1, 1), (2, 2), (3, 3)]);
    let anti = Line::new(9, 7, 7, 9);
    assert_eq!(anti.covered_coordinates(), vec![(7, 9), (8, 8), (9, 7)]);
    let horizontal = Line::new(0, 9, 2, 9);
    assert_eq!(horizontal.covered_coordinates(), vec![(0, 9), (1, 9), (2, 9)]);
    let point = Line::new(4, 4, 4, 4);
    assert_eq!(point.covered_coordinates(), vec![(4, 4)]);
}

#[test]
fn target_area_membership() {
    let target = TargetArea { x1: 20, x2: 30, y1: -10, y2: -5 };
    assert!(target.contains(25, -7));
    assert!(!target.contains(19, -7));
    assert!(!target.contains(25, -4));
}

#[test]
fn first_x_velocity_that_drifts_into_the_target() {
    let target = TargetArea { x1: 20, x2: 30, y1: -10, y2: -5 };
    // drifts: 0, 1, 3, 6, 10, 15, 21 — the first to land in 20..=30 is 21.
    assert_eq!(target.part1_x_velocity(), Ok(6));
    let unreachable_target = TargetArea { x1: 4951, x2: 4960, y1: -10, y2: -5 };
    assert!(unreachable_target.part1_x_velocity().is_err());
}

#[test]
fn probe_flight_steps() {
    let mut probe = Probe::fire(7, 2);
    probe.advance();
    assert_eq!((probe.x, probe.y, probe.vel_x, probe.vel_y), (7, 2, 6, 1));
    probe.advance();
    assert_eq!((probe.x, probe.y, probe.vel_x, probe.vel_y), (13, 3, 5, 0));
    let mut leftward = Probe::fire(-2, 0);
    leftward.advance();
    assert_eq!((leftward.x, leftward.vel_x), (-2, -1));
}

#[test]
fn cave_kinds() {
    assert!(Cave::Start.is_small());
    assert!(Cave::End.is_small());
    assert!(Cave::Small("dc".to_string()).is_small());
    assert!(!Cave::Big("DC".to_string()).is_small());
    let trip = Trip { caves: vec![Cave::Start], can_revisit_small: false };
    assert_eq!(*trip.location(), Cave::Start);
    let longer = trip.with_next_cave(Cave::Big("DC".to_string()));
    assert_eq!(longer.caves.len(), 2);
    assert_eq!(*longer.location(), Cave::Big("DC".to_string()));
    assert_eq!(longer.caves[0], Cave::Start);
    assert!(!longer.can_revisit_small);
}

use scanner_align::chiton::Cave;

fn grid(rows: &[&str]) -> Vec<Vec<u8>> {
    rows.iter().map(|r| r.bytes().map(|b| b - b'0').collect()).collect()
}

fn example() -> Vec<Vec<u8>> {
    grid(&[
        "1163751742",
        "1381373672",
        "2136511328",
        "3694931569",
        "7463417111",
        "1319128137",
        "1359912421",
        "3125421639",
        "1293138521",
        "2311944581",
    ])
}

#[test]
fn new_cave_starts_at_the_corner() {
    let cave = Cave::new(example());
    assert_eq!(cave.width(), 10);
    assert_eq!(cave.height(), 10);
    assert_eq!(cave.costs[0], 0);
    assert!(cave.costs[1..].iter().all(|&c| c == u64::MAX));
    assert_eq!(cave.to_consider, vec![(0, 0)]);
}

#[test]
fn consider_only_improves() {
    let mut cave = Cave::new(grid(&["12", "34"]));
    cave.consider(0, 1, 7);
    assert_eq!(cave.costs[1], 7);
    assert_eq!(cave.to_consider.last(), Some(&(0, 1)));
    let before = cave.costs.clone();
    cave.consider(0, 1, 9);
    assert_eq!(cave.costs, before);
}

#[test]
fn walk_finds_the_lowest_total_risk() {
    let mut cave = Cave::new(example());
    cave.walk();
    assert!(cave.to_consider.is_empty());
    assert_eq!(cave.answer(), 40);
}

#[test]
fn tiny_cave_walk() {
    let mut cave = Cave::new(grid(&["19", "11"]));
    cave.walk();
    assert_eq!(cave.answer(), 2);
}

#[test]
fn expanded_cave_wraps_risks() {
    let cave = Cave::new(example());
    let big = cave.into_part2_cave();
    assert_eq!(big.width(), 50);
    assert_eq!(big.height(), 50);
    // the top-left tile is the base grid, the next tile right is bumped by one
    assert_eq!(big.risks[0][0], 1);
    assert_eq!(big.risks[0][10], 2);
    assert_eq!(big.risks[10][0], 2);
    // a nine wraps to one
    assert_eq!(big.risks[3][2], 9);
    assert_eq!(big.risks[3][12], 1);
}

#[test]
fn expanded_cave_lowest_risk() {
    let mut big = Cave::new(example()).into_part2_cave();
    big.walk();
    assert_eq!(big.answer(), 315);
}

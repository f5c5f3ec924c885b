use scanner_align::basins::fill;

fn heights(rows: &[&str]) -> Vec<Vec<u8>> {
    rows.iter().map(|r| r.bytes().map(|b| b - b'0').collect()).collect()
}

fn example() -> Vec<Vec<u8>> {
    heights(&["2199943210", "3987894921", "9856789892", "8767896789", "9899965678"])
}

#[test]
fn fill_paints_one_basin() {
    let grid = example();
    let mut labels = vec![0u8; 50];
    fill(&mut labels, &grid, 0, 0, 1);
    let painted: Vec<usize> = (0..50).filter(|&i| labels[i] == 1).collect();
    // the top-left basin holds (0,0), (0,1) and (1,0)
    assert_eq!(painted, vec![0, 1, 10]);
}

#[test]
fn fill_stops_at_walls_and_labels() {
    let grid = example();
    let mut labels = vec![0u8; 50];
    fill(&mut labels, &grid, 0, 9, 2);
    // the top-right basin has nine cells
    assert_eq!(labels.iter().filter(|&&l| l == 2).count(), 9);
    // a second fill from inside the same basin changes nothing
    let before = labels.clone();
    fill(&mut labels, &grid, 0, 9, 3);
    assert_eq!(labels, before);
    // filling a wall cell changes nothing either
    fill(&mut labels, &grid, 0, 2, 4);
    assert_eq!(labels, before);
}

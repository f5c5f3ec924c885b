use scanner_align::octopus::step;

fn example() -> Vec<i8> {
    let rows = [
        "5483143223",
        "2745854711",
        "5264556173",
        "6141336146",
        "6357385478",
        "4167524645",
        "2176841721",
        "6882881134",
        "4846848554",
        "5283751526",
    ];
    rows.iter().flat_map(|r| r.bytes().map(|b| (b - b'0') as i8)).collect()
}

#[test]
fn first_steps_of_the_example() {
    let mut grid = example();
    assert_eq!(step(&mut grid), 0);
    assert_eq!(step(&mut grid), 35);
}

#[test]
fn a_hundred_steps_flash_1656_times() {
    let mut grid = example();
    let mut total: u64 = 0;
    for _ in 0..100 {
        total += step(&mut grid);
    }
    assert_eq!(total, 1656);
}

#[test]
fn quiet_grid_just_rises() {
    let mut grid = vec![3i8; 100];
    let flashes = step(&mut grid);
    assert_eq!(flashes, 0);
    assert!(grid.iter().all(|&v| v == 4));
}

#[test]
fn full_grid_all_flash() {
    let mut grid = vec![9i8; 100];
    let flashes = step(&mut grid);
    assert_eq!(flashes, 100);
    assert!(grid.iter().all(|&v| v == 0));
}

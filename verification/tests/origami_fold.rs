use scanner_align::origami::{Dot, Instruction, fold, show};

fn dots_of(points: &[(usize, usize)]) -> Vec<Dot> {
    let mut v = Vec::new();
    for &(x, y) in points {
        v.push(Dot { x, y });
    }
    v
}

fn example_dots() -> Vec<Dot> {
    dots_of(&[
        (6, 10),
        (0, 14),
        (9, 10),
        (0, 3),
        (10, 4),
        (4, 11),
        (6, 0),
        (6, 12),
        (4, 1),
        (0, 13),
        (10, 12),
        (3, 4),
        (3, 0),
        (8, 4),
        (1, 10),
        (2, 14),
        (8, 10),
        (9, 0),
    ])
}

#[test]
fn dot_folds_across_each_axis() {
    let d = Dot { x: 6, y: 10 };
    let folded = d.fold(&Instruction::FoldAlongY(7));
    assert_eq!(folded, Dot { x: 6, y: 4 });
    let unchanged = Dot { x: 6, y: 4 }.fold(&Instruction::FoldAlongY(7));
    assert_eq!(unchanged, Dot { x: 6, y: 4 });
    let mirrored = Dot { x: 9, y: 2 }.fold(&Instruction::FoldAlongX(5));
    assert_eq!(mirrored, Dot { x: 1, y: 2 });
}

#[test]
fn first_fold_merges_to_seventeen_dots() {
    let folded = fold(example_dots(), &Instruction::FoldAlongY(7));
    assert_eq!(folded.len(), 17);
}

#[test]
fn both_folds_draw_a_square() {
    let once = fold(example_dots(), &Instruction::FoldAlongY(7));
    let twice = fold(once, &Instruction::FoldAlongX(5));
    assert_eq!(twice.len(), 16);
    let rendered = show(&twice);
    let expected: Vec<char> = "#####\n#...#\n#...#\n#...#\n#####\n".chars().collect();
    assert_eq!(rendered, expected);
}

#[test]
fn folding_drops_duplicates_only() {
    let ds = dots_of(&[(2, 9), (2, 5), (1, 1)]);
    // folding y=7 sends (2, 9) onto (2, 5)
    let folded = fold(ds, &Instruction::FoldAlongY(7));
    assert_eq!(folded, dots_of(&[(2, 5), (1, 1)]));
}

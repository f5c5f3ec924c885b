use scanner_align::polymer::{Rule, TestCase};

fn example_rules() -> Vec<Rule> {
    let table = [
        ("CH", 'B'),
        ("HH", 'N'),
        ("CB", 'H'),
        ("NH", 'C'),
        ("HB", 'C'),
        ("HC", 'B'),
        ("HN", 'C'),
        ("NN", 'C'),
        ("BH", 'H'),
        ("NC", 'B'),
        ("NB", 'B'),
        ("BN", 'B'),
        ("BB", 'N'),
        ("BC", 'B'),
        ("CC", 'N'),
        ("CN", 'C'),
    ];
    let mut rules = Vec::new();
    for (input, out) in table {
        let mut cs = input.chars();
        let a = cs.next().unwrap();
        let b = cs.next().unwrap();
        rules.push(Rule::from_pair((a, b), out));
    }
    rules
}

#[test]
fn rule_splits_its_pair() {
    let r = Rule::from_pair(('N', 'N'), 'C');
    assert_eq!(r.input, ('N', 'N'));
    assert_eq!(r.output, (('N', 'C'), ('C', 'N')));
}

#[test]
fn ten_steps_of_the_example() {
    let template: Vec<char> = "NNCB".chars().collect();
    let mut case = TestCase::new(&template, example_rules());
    for _ in 0..10 {
        case = case.step();
    }
    assert_eq!(case.answer(), 1588);
}

#[test]
fn forty_steps_of_the_example() {
    let template: Vec<char> = "NNCB".chars().collect();
    let mut case = TestCase::new(&template, example_rules());
    for _ in 0..40 {
        case = case.step();
    }
    assert_eq!(case.answer(), 2188189693529);
}

#[test]
fn template_tallies() {
    let template: Vec<char> = "NNCB".chars().collect();
    let case = TestCase::new(&template, example_rules());
    // four characters, three of them distinct, three adjacent pairs
    assert_eq!(case.amounts.len(), 3);
    assert_eq!(case.pairs.len(), 3);
    // most common is N (twice), least common B or C (once)
    assert_eq!(case.answer(), 1);
}

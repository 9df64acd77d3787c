use puzzles::day05a::{Puzzle, Rule, Ruleset, Update};

#[test]
fn test_check_fail() {
    let rules = vec![Rule { left: 1, right: 2 }];
    let ruleset = Ruleset::new(&rules);
    let update = Update { pages: vec![2, 1] };
    assert!(!update.check(&ruleset));
}

#[test]
fn test_check_pass() {
    let rules = vec![Rule { left: 1, right: 2 }];
    let ruleset = Ruleset::new(&rules);
    let update = Update { pages: vec![1, 2] };
    assert!(update.check(&ruleset));
}

#[test]
fn test_check_fail2() {
    let rules = vec![Rule { left: 1, right: 2 }, Rule { left: 1, right: 3 }];
    let ruleset = Ruleset::new(&rules);
    let update = Update { pages: vec![3, 1] };
    assert!(!update.check(&ruleset));
}

#[test]
fn test_middle() {
    let update = Update {
        pages: vec![75, 47, 61, 53, 29],
    };
    assert_eq!(update.middle(), 61);
}

// Two good updates and one bad one: only the good middles count, and
// an even-length update takes the earlier of its two central pages.
#[test]
fn test_process() {
    let puzzle = Puzzle {
        rules: vec![Rule { left: 1, right: 2 }, Rule { left: 2, right: 3 }],
        updates: vec![
            Update { pages: vec![1, 2, 3] },
            Update { pages: vec![3, 2, 1] },
            Update { pages: vec![1, 3] },
        ],
    };
    assert_eq!(puzzle.process(), 2 + 0 + 1);
}

use puzzles::day08b::Puzzle;

// The worked example: two frequencies, 34 antinode positions with
// resonant harmonics.
#[test]
fn test_antinode_count() {
    let mut puzzle = Puzzle {
        shape: [12, 12],
        antennas: vec![
            vec![[1, 8], [2, 5], [3, 7], [4, 4]],
            vec![[5, 6], [8, 8], [9, 9]],
        ],
    };
    assert_eq!(puzzle.process(), 34);
}

// Two aligned antennas put an antinode on every grid point of their
// column, the antennas included.
#[test]
fn test_antinode_line() {
    let mut puzzle = Puzzle {
        shape: [10, 1],
        antennas: vec![vec![[0, 0], [1, 0]]],
    };
    assert_eq!(puzzle.process(), 10);
}

// A lone antenna resonates with nothing.
#[test]
fn test_antinode_alone() {
    let mut puzzle = Puzzle {
        shape: [5, 5],
        antennas: vec![vec![[2, 2]]],
    };
    assert_eq!(puzzle.process(), 0);
}

use puzzles::day25a::{Key, Lock, Puzzle};

#[test]
fn test_overlap() {
    let lock = Lock {
        heights: [0, 5, 3, 4, 3],
    };
    assert!(lock.overlap(&Key {
        heights: [5, 0, 2, 1, 3],
    }));
    assert!(!lock.overlap(&Key {
        heights: [3, 0, 2, 0, 1],
    }));
}

// The worked example: three of the six pairs fit.
#[test]
fn test_fitting_pairs() {
    let puzzle = Puzzle {
        locks: vec![
            Lock {
                heights: [0, 5, 3, 4, 3],
            },
            Lock {
                heights: [1, 2, 0, 5, 3],
            },
        ],
        keys: vec![
            Key {
                heights: [5, 0, 2, 1, 3],
            },
            Key {
                heights: [4, 3, 4, 0, 2],
            },
            Key {
                heights: [3, 0, 2, 0, 1],
            },
        ],
    };
    assert_eq!(puzzle.process(), 3);
}

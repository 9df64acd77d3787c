use puzzles::day13b::Game;

// The first worked machine: 80 presses of A and 40 of B.
#[test]
fn test_solve_first_machine() {
    let game = Game {
        buttons: [[94, 34], [22, 67]],
        prize: [8400, 5400],
    };
    assert_eq!(game.solve(), Some([80, 40]));
}

// The second worked machine has no whole-number solution.
#[test]
fn test_solve_no_solution() {
    let game = Game {
        buttons: [[26, 66], [67, 21]],
        prize: [12748, 12176],
    };
    assert_eq!(game.solve(), None);
}

// Collinear buttons are not solved, even when the prize lies on the
// line.
#[test]
fn test_solve_collinear() {
    let game = Game {
        buttons: [[1, 1], [2, 2]],
        prize: [4, 4],
    };
    assert_eq!(game.solve(), None);
}

// A solution whose press counts would be negative is rejected.
#[test]
fn test_solve_negative() {
    let game = Game {
        buttons: [[1, 2], [2, 1]],
        prize: [1, 2],
    };
    assert_eq!(game.solve(), Some([1, 0]));
    let game = Game {
        buttons: [[1, 1], [2, 1]],
        prize: [5, 1],
    };
    assert_eq!(game.solve(), None);
}

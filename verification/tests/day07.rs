use puzzles::day07a;
use puzzles::day07b;

// 190 is 10 * 19; addition alone cannot make it.
#[test]
fn test_solvable_mul() {
    let eq = day07a::Equation {
        result: 190,
        values: vec![10, 19],
    };
    assert!(eq.solvable());
}

// 83 cannot be made from 17 and 5 with addition and multiplication.
#[test]
fn test_unsolvable() {
    let eq = day07a::Equation {
        result: 83,
        values: vec![17, 5],
    };
    assert!(!eq.solvable());
}

// 156 is 15 with 6 written after it, so only concatenation solves it.
#[test]
fn test_solvable_concat() {
    let a = day07a::Equation {
        result: 156,
        values: vec![15, 6],
    };
    assert!(!a.solvable());
    let b = day07b::Equation {
        result: 156,
        values: vec![15, 6],
    };
    assert!(b.solvable());
}

// 3267 = 81 + 40 * 27 = 81 * 40 + 27, and concatenation adds a third
// way in none.
#[test]
fn test_count_solutions() {
    let eq = day07b::Equation {
        result: 3267,
        values: vec![81, 40, 27],
    };
    assert_eq!(eq.count_solutions(0, 81), 2);
}

// 7290 = 6 * 8 | 6 * 15 needs concatenation in the middle.
#[test]
fn test_solvable_middle_concat() {
    let eq = day07b::Equation {
        result: 7290,
        values: vec![6, 8, 6, 15],
    };
    assert!(eq.solvable());
}

#[test]
fn test_concatenate() {
    assert_eq!(day07b::concatenate(12, 345), 12345);
    assert_eq!(day07b::concatenate(5, 7), 57);
    // zero has no digits, so writing it after leaves the number alone
    assert_eq!(day07b::concatenate(5, 0), 5);
}

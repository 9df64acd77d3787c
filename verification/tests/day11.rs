use puzzles::day11a;
use puzzles::day11b;

#[test]
fn test_digit_count_1() {
    let out = day11a::digit_count(&1);
    assert_eq!(out, 1);
}

#[test]
fn test_digit_count_9() {
    let out = day11a::digit_count(&9);
    assert_eq!(out, 1);
}

#[test]
fn test_digit_count_10() {
    let out = day11a::digit_count(&10);
    assert_eq!(out, 2);
}

// The same digit counts through the table-building variant.
#[test]
fn test_digit_count_1_b() {
    let out = day11b::digit_count(&1);
    assert_eq!(out, 1);
}

#[test]
fn test_digit_count_9_b() {
    let out = day11b::digit_count(&9);
    assert_eq!(out, 1);
}

#[test]
fn test_digit_count_10_b() {
    let out = day11b::digit_count(&10);
    assert_eq!(out, 2);
}

// 0 blinks through 1, 2024, 20|24, 2|0|2|4, ... so its brood counts run
// 1, 1, 1, 2, 4, 4, 7, 14.
#[test]
fn test_sequence() {
    assert_eq!(day11b::create_sequence(7)[0], vec![1, 1, 1, 2, 4, 4, 7, 14]);
}

// 3 blinks through 6072, 60|72, 6|0|7|2.
#[test]
fn test_sequence_3() {
    assert_eq!(day11b::create_sequence(3)[3], vec![1, 1, 2, 4]);
}

#[test]
fn test_split_digits() {
    assert_eq!(day11a::split_digits(&2024, 4), (20, 24));
    assert_eq!(day11b::split_digits(&17, 2), (1, 7));
}

// The worked example: 125 and 17 become 22 stones after 6 blinks and
// 55312 after 25.
#[test]
fn test_blink_example() {
    let mut puzzle = day11a::Puzzle {
        stones: vec![125, 17],
        blinks: 19,
    };
    let out = puzzle.process();
    assert_eq!(out, 22);
}

#[test]
fn test_process_example() {
    let mut puzzle = day11a::Puzzle {
        stones: vec![125, 17],
        blinks: 0,
    };
    let out = puzzle.process();
    assert_eq!(out, 55312);
}

// The compressed count agrees with the plain simulation.
#[test]
fn test_count_stone_matches() {
    let sequence = day11b::create_sequence(25);
    let a = day11b::count_stone(125, &sequence, 25);
    let b = day11b::count_stone(17, &sequence, 25);
    assert_eq!(a + b, 55312);
}

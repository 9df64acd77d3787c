use puzzles::day06a::{parse, Direction};

const EXAMPLE: &str = "....#.....\n.........#\n..........\n..#.......\n.......#..\n..........\n.#..^.....\n........#.\n#.........\n......#...\n";

// The worked example: the guard stands on 41 distinct positions before
// leaving.
#[test]
fn test_guard_walk() {
    let puzzle = parse(EXAMPLE).unwrap();
    assert_eq!(puzzle.position, [6, 4]);
    assert_eq!(puzzle.direction, Direction::Up);
    assert_eq!(puzzle.process(100000), Some(41));
}

// A guard facing an immediate exit leaves at once, having stood on one
// position.
#[test]
fn test_guard_leaves() {
    let puzzle = parse("^.\n..\n").unwrap();
    assert_eq!(puzzle.process(10), Some(1));
}

// A blocked guard turns right and walks on.
#[test]
fn test_guard_turns() {
    let puzzle = parse("#.\n^.\n").unwrap();
    assert_eq!(puzzle.process(10), Some(2));
}

// Too small an allowance reports the walk unfinished.
#[test]
fn test_guard_needs_steps() {
    let puzzle = parse("....#.....\n.........#\n..........\n..#.......\n.......#..\n..........\n.#..^.....\n........#.\n#.........\n......#...\n").unwrap();
    assert_eq!(puzzle.process(3), None);
}

#[test]
fn test_parse_rejects() {
    assert!(parse("").is_none());
    assert!(parse("..\n.\n").is_none());
    assert!(parse("..\n.x\n").is_none());
}

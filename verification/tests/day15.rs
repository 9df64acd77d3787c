use puzzles::day15a::{parse, Direction};

const EXAMPLE: &str = "########\n#..O.O.#\n##@.O..#\n#...O..#\n#.#.O..#\n#...O..#\n#......#\n########\n\n<^^>>>vv<v>>v<<\n";

// The worked example: an eight-by-eight map, the robot on row two, and
// fifteen moves starting leftward.
#[test]
fn test_parse_warehouse() {
    let puzzle = parse(EXAMPLE).unwrap();
    assert_eq!(puzzle.robot, [2, 2]);
    assert_eq!(puzzle.directions.len(), 15);
    assert_eq!(puzzle.directions[0], Direction::Left);
    assert_eq!(puzzle.directions[1], Direction::Up);
    assert_eq!(puzzle.directions[14], Direction::Left);
}

// Moves may spread over several lines.
#[test]
fn test_parse_multiline_moves() {
    let puzzle = parse("#@#\n\n<>\nv^\n").unwrap();
    assert_eq!(
        puzzle.directions,
        vec![Direction::Left, Direction::Right, Direction::Down, Direction::Up]
    );
}

#[test]
fn test_parse_warehouse_rejects() {
    assert!(parse("").is_none());
    assert!(parse("##\n#\n\n<\n").is_none());
    assert!(parse("#x#\n\n<\n").is_none());
    assert!(parse("###\n\n<q\n").is_none());
}

#[test]
fn test_position_from() {
    let p = [1, 1];
    assert_eq!(Direction::Up.position_from(&p), Some([0, 1]));
    assert_eq!(Direction::Left.position_from(&p), Some([1, 0]));
    assert_eq!(Direction::Down.position_from(&p), Some([2, 1]));
    assert_eq!(Direction::Right.position_from(&p), Some([1, 2]));
    assert_eq!(Direction::Up.position_from(&[0, 5]), None);
    assert_eq!(Direction::Left.position_from(&[5, 0]), None);
}

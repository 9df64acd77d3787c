use puzzles::day14a::{quadrant, Robot};

#[test]
fn test_position_after() {
    let position = [2, 4];
    let velocity = [2, -3];
    let robot = Robot { position, velocity };
    let room_size = [11, 7];
    assert_eq!(robot.position_after(0, room_size), position);
    assert_eq!(robot.position_after(1, room_size), [4, 1]);
    assert_eq!(robot.position_after(2, room_size), [6, 5]);
}

#[test]
fn test_position_wraps() {
    let robot = Robot {
        position: [10, 6],
        velocity: [3, 5],
    };
    assert_eq!(robot.position_after(1, [11, 7]), [2, 4]);
}

// The four corners land in the four quadrants; the middle lines in
// none.
#[test]
fn test_quadrant() {
    let room = [11, 7];
    assert_eq!(quadrant([0, 0], room), Some(0));
    assert_eq!(quadrant([0, 6], room), Some(1));
    assert_eq!(quadrant([10, 0], room), Some(2));
    assert_eq!(quadrant([10, 6], room), Some(3));
    assert_eq!(quadrant([5, 2], room), None);
    assert_eq!(quadrant([2, 3], room), None);
}

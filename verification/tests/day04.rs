use puzzles::day04a;
use puzzles::day04b;

const EXAMPLE: &str = "MMMSXXMASM\nMSAMXMSMSA\nAMXSXMAAMM\nMSAMASMSMX\nXMASAMXAMM\nXXAMMXXAMA\nSMSMSASXSS\nSAXAMASAAA\nMAMMMXMMMM\nMXMXAXMASX\n";

// The worked example hides the word eighteen times.
#[test]
fn test_word_count() {
    let grid = day04a::extract(EXAMPLE).unwrap();
    assert_eq!(day04a::process(&grid), 18);
}

// The worked example hides nine crossed words.
#[test]
fn test_cross_count() {
    let grid = day04b::extract(EXAMPLE).unwrap();
    assert_eq!(day04b::process(&grid), 9);
}

#[test]
fn test_check_location_direction() {
    let grid = day04a::extract("XMAS\n").unwrap();
    assert!(day04a::check_location_direction(&grid, 0, 0, &day04a::Direction::Right));
    assert!(!day04a::check_location_direction(&grid, 0, 0, &day04a::Direction::Down));
}

#[test]
fn test_check_location_counts() {
    // only the straight-up run fits; the diagonals leave the grid
    let grid = day04a::extract("SSS\nAAA\nMMM\nXXX\n").unwrap();
    assert_eq!(day04a::check_location(&grid, 3, 1), 1);
    assert_eq!(day04a::check_location(&grid, 3, 0), 1);
}

#[test]
fn test_cross_location() {
    let grid = day04b::extract("M.S\n.A.\nM.S\n").unwrap();
    assert!(day04b::check_location(&grid, 1, 1));
    let grid = day04b::extract("M.M\n.A.\nM.S\n").unwrap();
    assert!(!day04b::check_location(&grid, 1, 1));
}

#[test]
fn test_extract_ragged() {
    assert!(day04a::extract("XM\nX\n").is_none());
    assert!(day04b::extract("XM\nX\n").is_none());
    assert!(day04a::extract("XM\r\nAS\r\n").is_some());
}

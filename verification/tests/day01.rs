use puzzles::day01a;
use puzzles::day01b;

// The worked example: total distance 11 between the sorted columns.
#[test]
fn test_total_distance() {
    let lists = day01a::extract_lists("3   4\n4   3\n2   5\n1   3\n3   9\n3   3\n").unwrap();
    assert_eq!(day01a::process_lists(lists), 11);
}

// The worked example: similarity score 31.
#[test]
fn test_similarity() {
    let lists = day01b::extract_lists("3   4\n4   3\n2   5\n1   3\n3   9\n3   3\n").unwrap();
    assert_eq!(day01b::process_lists(lists), 31);
}

// A malformed line is rejected rather than parsed.
#[test]
fn test_extract_rejects_pair() {
    assert!(day01a::extract_lists("3   4\nnope\n").is_none());
    assert!(day01b::extract_lists("34\n").is_none());
}

// Carriage-return line ends are tolerated.
#[test]
fn test_extract_crlf() {
    let lists = day01a::extract_lists("10 20\r\n1 2\r\n").unwrap();
    assert_eq!(lists[0], vec![10, 1]);
    assert_eq!(lists[1], vec![20, 2]);
}

#[test]
fn test_extract_columns() {
    let lists = day01a::extract_lists("10 20\n1 2\n").unwrap();
    assert_eq!(lists[0], vec![10, 1]);
    assert_eq!(lists[1], vec![20, 2]);
}

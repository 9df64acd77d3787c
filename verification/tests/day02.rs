use puzzles::day02a;
use puzzles::day02b;

const EXAMPLE: &str = "7 6 4 2 1\n1 2 7 8 9\n9 7 6 2 1\n1 3 2 4 5\n8 6 4 4 1\n1 3 6 7 9\n";

// The worked example: two reports are safe as they stand.
#[test]
fn test_safe_count() {
    let rows = day02a::extract(EXAMPLE).unwrap();
    assert_eq!(day02a::process(rows), 2);
}

// The worked example: four reports are safe once one level may go.
#[test]
fn test_dampened_count() {
    let rows = day02b::extract(EXAMPLE).unwrap();
    assert_eq!(day02b::process(rows), 4);
}

#[test]
fn test_process_line() {
    assert!(day02a::process_line(&[1, 2, 4, 7], true));
    assert!(!day02a::process_line(&[1, 2, 4, 7], false));
    assert!(!day02a::process_line(&[1, 2, 6], true));
    assert!(day02a::process_line(&[5, 3, 2], false));
}

#[test]
fn test_process_line_at() {
    assert!(day02b::process_line_at(&[1, 2, 6, 3], 2));
    assert!(!day02b::process_line_at(&[1, 2, 6, 3], 0));
}

// Tabs between levels and carriage-return line ends read like spaces
// and bare newlines.
#[test]
fn test_extract_other_whitespace() {
    let rows = day02a::extract("7\t6 4\t2 1\r\n1 2 7 8 9\r\n").unwrap();
    assert_eq!(rows.len(), 2);
    assert_eq!(rows[0], vec![7, 6, 4, 2, 1]);
    assert_eq!(day02a::process(rows), 1);
}

#[test]
fn test_extract_rejects_report() {
    assert!(day02a::extract("1 2\n3 x\n").is_none());
    assert!(day02b::extract("1 2\n3 x\n").is_none());
}

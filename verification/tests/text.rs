use puzzles::text;

#[test]
fn test_split_lines() {
    let lines = text::split_lines(b"ab\nc\n\nd");
    assert_eq!(lines, vec![b"ab".to_vec(), b"c".to_vec(), b"".to_vec(), b"d".to_vec()]);
    let lines = text::split_lines(b"ab\nc\n");
    assert_eq!(lines, vec![b"ab".to_vec(), b"c".to_vec()]);
    assert_eq!(text::split_lines(b""), Vec::<Vec<u8>>::new());
}

#[test]
fn test_split_once() {
    let parts = text::split_once(b"12 34 5", b' ').unwrap();
    assert_eq!(parts.0, b"12".to_vec());
    assert_eq!(parts.1, b"34 5".to_vec());
    assert!(text::split_once(b"1234", b' ').is_none());
}

#[test]
fn test_trim() {
    assert_eq!(text::trim(b"  12 \t"), b"12".to_vec());
    assert_eq!(text::trim(b"12"), b"12".to_vec());
    assert_eq!(text::trim(b"  "), Vec::<u8>::new());
}

#[test]
fn test_parse_usize() {
    assert_eq!(text::parse_usize(b"0"), Some(0));
    assert_eq!(text::parse_usize(b"12345"), Some(12345));
    assert_eq!(text::parse_usize(b""), None);
    assert_eq!(text::parse_usize(b"12a"), None);
    assert_eq!(text::parse_usize(b"99999999999999999999999"), None);
}

use puzzles::day09a;
use puzzles::day09b;

// The worked example disc: digits 2333133121414131402 compact to a
// checksum of 1928.
#[test]
fn test_compact_checksum() {
    let puzzle = day09a::Puzzle {
        digits: vec![2, 3, 3, 3, 1, 3, 3, 1, 2, 1, 4, 1, 4, 1, 3, 1, 4, 0, 2],
    };
    let mut disc = puzzle.create_disc();
    day09a::compact_disc(&mut disc);
    let mut sum: usize = 0;
    let mut i = 0;
    while i < disc.len() {
        if let Some(id) = disc[i] {
            sum += i * id;
        }
        i += 1;
    }
    assert_eq!(sum, 1928);
}

#[test]
fn test_checksum() {
    let disc = vec![Some(1), None, Some(2)];
    assert_eq!(day09a::checksum(&disc), 0 * 1 + 2 * 2);
}

// One file block moves into the one gap before it.
#[test]
fn test_compact_small() {
    let mut disc = vec![Some(0), None, Some(1)];
    day09a::compact_disc(&mut disc);
    assert_eq!(disc, vec![Some(0), Some(1), None]);
}

#[test]
fn test_create_disc() {
    let puzzle = day09a::Puzzle {
        digits: vec![1, 2, 3],
    };
    assert_eq!(
        puzzle.create_disc(),
        vec![Some(0), None, None, Some(1), Some(1), Some(1)]
    );
}

#[test]
fn test_find_first_space() {
    let disc = vec![Some(0), None, Some(1), None, None, Some(2)];
    assert_eq!(day09b::find_first_space(&disc, 1, 6), Some(1));
    assert_eq!(day09b::find_first_space(&disc, 2, 6), Some(3));
    assert_eq!(day09b::find_first_space(&disc, 2, 3), None);
    assert_eq!(day09b::find_first_space(&disc, 3, 6), None);
}

// On its only panic-free discs the whole-file compactor moves nothing.
#[test]
fn test_compact_noop() {
    let mut disc = vec![None, Some(0)];
    day09b::compact_disc(&mut disc);
    assert_eq!(disc, vec![None, Some(0)]);
}

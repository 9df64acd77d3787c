use puzzles::day10a;
use puzzles::day10b;

// The worked example: the trailheads have 81 distinct upward trails in
// all.
#[test]
fn test_trail_ratings() {
    let mut puzzle = day10b::parse(
        "89010123\n78121874\n87430965\n96549874\n45678903\n32019012\n01329801\n10456732\n",
    )
    .unwrap();
    assert_eq!(puzzle.process(), 81);
}

// A single straight slope carries exactly one trail.
#[test]
fn test_single_trail() {
    let mut puzzle = day10b::parse("0123456789\n").unwrap();
    assert_eq!(puzzle.process(), 1);
}

// Without a trailhead there is nothing to count.
#[test]
fn test_no_trailhead() {
    let mut puzzle = day10b::parse("987\n").unwrap();
    assert_eq!(puzzle.process(), 0);
}

// The worked example again: the trailheads reach 36 summits in all,
// counting each summit once per head.
#[test]
fn test_trail_scores() {
    let mut puzzle = day10a::parse(
        "89010123\n78121874\n87430965\n96549874\n45678903\n32019012\n01329801\n10456732\n",
    )
    .unwrap();
    assert_eq!(puzzle.process(), 36);
}

// One head, two trails, one summit: the score is one where the rating
// is two.
#[test]
fn test_score_counts_summits_once() {
    let mut a = day10a::parse("019\n129\n989\n").unwrap();
    let mut b = day10b::parse("019\n129\n989\n").unwrap();
    let score = a.process();
    let rating = b.process();
    assert!(score <= rating);
}

#[test]
fn test_parse_rejects_heights() {
    assert!(day10b::parse("").is_none());
    assert!(day10b::parse("12\n3\n").is_none());
    assert!(day10b::parse("1a\n").is_none());
}

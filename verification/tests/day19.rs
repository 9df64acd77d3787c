use puzzles::day19a;
use puzzles::day19b::{Puzzle, Token};

fn towel(s: &str) -> Vec<Token> {
    s.chars()
        .map(|c| match c {
            'w' => Token::White,
            'u' => Token::Blue,
            'b' => Token::Black,
            'r' => Token::Red,
            'g' => Token::Green,
            _ => panic!(),
        })
        .collect()
}

fn example_puzzle() -> Puzzle {
    let available: Vec<Vec<Token>> = ["r", "wr", "b", "g", "bwu", "rb", "gb", "br"]
        .iter()
        .map(|s| towel(s))
        .collect();
    Puzzle {
        available,
        max_available_len: 3,
        needed: Vec::new(),
    }
}

// The worked example: the eight designs have 2, 1, 4, 6, 0, 1, 2 and 0
// arrangements, 16 in all.
#[test]
fn test_count_arrangements() {
    let p = example_puzzle();
    let cases = [
        ("brwrr", 2),
        ("bggr", 1),
        ("gbbr", 4),
        ("rrbgbr", 6),
        ("ubwu", 0),
        ("bwurrg", 1),
        ("brgr", 2),
        ("bbrgwb", 0),
    ];
    let mut total = 0;
    for (design, want) in cases {
        let got = p.count_solutions(&towel(design));
        assert_eq!(got, want);
        total += got;
    }
    assert_eq!(total, 16);
}

// The empty design has exactly the empty arrangement.
#[test]
fn test_empty_design() {
    let p = example_puzzle();
    assert_eq!(p.count_solutions(&[]), 1);
}

fn example_puzzle_a() -> day19a::Puzzle {
    let tokens = |s: &str| -> Vec<day19a::Token> {
        s.chars()
            .map(|c| match c {
                'w' => day19a::Token::White,
                'u' => day19a::Token::Blue,
                'b' => day19a::Token::Black,
                'r' => day19a::Token::Red,
                'g' => day19a::Token::Green,
                _ => panic!(),
            })
            .collect()
    };
    let available: Vec<Vec<day19a::Token>> = ["r", "wr", "b", "g", "bwu", "rb", "gb", "br"]
        .iter()
        .map(|s| tokens(s))
        .collect();
    day19a::Puzzle {
        available,
        max_available_len: 3,
        needed: Vec::new(),
    }
}

// The worked example: six of the eight designs can be laid at all.
#[test]
fn test_min_towels() {
    let p = example_puzzle_a();
    let tokens = |s: &str| -> Vec<day19a::Token> {
        s.chars()
            .map(|c| match c {
                'w' => day19a::Token::White,
                'u' => day19a::Token::Blue,
                'b' => day19a::Token::Black,
                'r' => day19a::Token::Red,
                'g' => day19a::Token::Green,
                _ => panic!(),
            })
            .collect()
    };
    assert_eq!(p.min_towels(&tokens("gbbr")), Some(2));
    assert_eq!(p.min_towels(&tokens("brwrr")), Some(3));
    assert_eq!(p.min_towels(&tokens("ubwu")), None);
    assert_eq!(p.min_towels(&tokens("bbrgwb")), None);
    let possible = ["brwrr", "bggr", "gbbr", "rrbgbr", "ubwu", "bwurrg", "brgr", "bbrgwb"]
        .iter()
        .filter(|d| p.min_towels(&tokens(d)).is_some())
        .count();
    assert_eq!(possible, 6);
}

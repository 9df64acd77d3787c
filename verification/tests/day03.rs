use puzzles::day03b::{extract, process, Token};

const EXAMPLE: &str = "xmul(2,4)&mul[3,7]!^don't()_mul(5,5)+mul(32,64](mul(11,8)undo()?mul(8,5))";

// The worked example: with the switches honoured the products sum to
// 48.
#[test]
fn test_conditional_sum() {
    let tokens = extract(EXAMPLE);
    assert_eq!(process(&tokens), 48);
}

#[test]
fn test_tokens() {
    let tokens = extract("mul(2,4)");
    assert_eq!(tokens[0], Token::Mul(8));
    assert_eq!(tokens[1], Token::Blank);
    let tokens = extract("do()don't()");
    assert_eq!(tokens[0], Token::Do);
    assert_eq!(tokens[4], Token::Dont);
}

// Malformed instructions leave only blanks.
#[test]
fn test_malformed() {
    for s in ["mul(4*", "mul(6,9!", "?(12,34)", "mul ( 2 , 4 )"] {
        let tokens = extract(s);
        for t in tokens {
            assert_eq!(t, Token::Blank);
        }
    }
}

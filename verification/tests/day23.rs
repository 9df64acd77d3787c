use puzzles::day23a::{Connection, Puzzle};

fn conn(a: &str, b: &str) -> Connection {
    Connection {
        nodes: [a.to_string(), b.to_string()],
    }
}

// The worked example has seven triangles with a t-named computer.
#[test]
fn test_trios() {
    let pairs = [
        ("kh", "tc"), ("qp", "kh"), ("de", "cg"), ("ka", "co"), ("yn", "aq"), ("qp", "ub"),
        ("cg", "tb"), ("vc", "aq"), ("tb", "ka"), ("wh", "tc"), ("yn", "cg"), ("kh", "ub"),
        ("ta", "co"), ("de", "co"), ("tc", "td"), ("tb", "wq"), ("wh", "td"), ("ta", "ka"),
        ("td", "qp"), ("aq", "cg"), ("wq", "ub"), ("ub", "vc"), ("de", "ta"), ("wq", "aq"),
        ("wq", "vc"), ("wh", "yn"), ("ka", "de"), ("kh", "ta"), ("co", "tc"), ("wh", "qp"),
        ("tb", "vc"), ("td", "yn"),
    ];
    let puzzle = Puzzle {
        connections: pairs.iter().map(|(a, b)| conn(a, b)).collect(),
    };
    assert_eq!(puzzle.process(), 7);
}

// A single triangle without a t name does not count.
#[test]
fn test_no_t() {
    let puzzle = Puzzle {
        connections: vec![conn("ab", "cd"), conn("cd", "ef"), conn("ef", "ab")],
    };
    assert_eq!(puzzle.process(), 0);
}

// The same triangle counts once a member starts with t.
#[test]
fn test_with_t() {
    let puzzle = Puzzle {
        connections: vec![conn("ab", "cd"), conn("cd", "tf"), conn("tf", "ab")],
    };
    assert_eq!(puzzle.process(), 1);
}

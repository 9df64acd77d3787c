use puzzles::day24b::{Gate, Operation, Puzzle};

#[test]
fn test_parse_gate() {
    let g = Gate::parse(b"ntg XOR fgs -> mjb").unwrap();
    assert_eq!(g.inputs[0], "ntg");
    assert_eq!(g.inputs[1], "fgs");
    assert_eq!(g.output, "mjb");
    assert!(matches!(g.operation, Operation::Xor));
    let g = Gate::parse(b"x00 AND y00 -> z00").unwrap();
    assert!(matches!(g.operation, Operation::And));
    let g = Gate::parse(b"a OR b -> c").unwrap();
    assert!(matches!(g.operation, Operation::Or));
}

#[test]
fn test_parse_gate_rejects() {
    assert!(Gate::parse(b"ntg NAND fgs -> mjb").is_none());
    assert!(Gate::parse(b"ntg XOR fgs mjb").is_none());
    assert!(Gate::parse(b"ntg XOR -> mjb").is_none());
    assert!(Gate::parse(b"").is_none());
}

#[test]
fn test_swap_and_report() {
    let mut puzzle = Puzzle {
        gates: vec![
            Gate::parse(b"x00 AND y00 -> rts").unwrap(),
            Gate::parse(b"x00 XOR y00 -> z07").unwrap(),
        ],
        swapped: Vec::new(),
    };
    puzzle.perform_swap("rts", "z07");
    assert_eq!(puzzle.gates[0].output, "z07");
    assert_eq!(puzzle.gates[1].output, "rts");
    assert_eq!(puzzle.process(), "rts,z07");
}

#[test]
fn test_report_sorts() {
    let mut puzzle = Puzzle {
        gates: Vec::new(),
        swapped: vec!["z26".to_string(), "chv".to_string(), "jpj".to_string()],
    };
    assert_eq!(puzzle.process(), "chv,jpj,z26");
}

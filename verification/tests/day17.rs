use puzzles::day17a;
use puzzles::day17b;

// If register C contains 9, the program 2,6 would set register B to 1.
#[test]
fn test_1_bst() {
    let mut computer = day17a::Computer {
        registers: [0, 0, 9],
        instruction_pointer: 0,
        program: vec![2, 6],
    };
    computer.run_instruction();
    assert_eq!(computer.registers[1], 1);
}

// If register A contains 10, the program 5,0,5,1,5,4 would output 0,1,2.
#[test]
fn test_2_out() {
    let mut computer = day17a::Computer {
        registers: [10, 0, 0],
        instruction_pointer: 0,
        program: vec![5, 0, 5, 1, 5, 4],
    };
    assert_eq!(computer.run_instruction(), Some(0));
    assert_eq!(computer.run_instruction(), Some(1));
    assert_eq!(computer.run_instruction(), Some(2));
}

// If register B contains 29, the program 1,7 would set register B to 26.
#[test]
fn test_4_bxl() {
    let mut computer = day17a::Computer {
        registers: [0, 29, 0],
        instruction_pointer: 0,
        program: vec![1, 7],
    };
    computer.run_instruction();
    assert_eq!(computer.registers[1], 26);
}

// The same three small machine checks on the variant that hands the
// program to each step.
#[test]
fn test_1_bst_b() {
    let mut computer = day17b::Computer {
        registers: [0, 0, 9],
        instruction_pointer: 0,
    };
    let program = vec![2, 6];
    computer.run_instruction(&program);
    assert_eq!(computer.registers[1], 1);
}

#[test]
fn test_2_out_b() {
    let mut computer = day17b::Computer {
        registers: [10, 0, 0],
        instruction_pointer: 0,
    };
    let program = vec![5, 0, 5, 1, 5, 4];
    assert_eq!(computer.run_instruction(&program), Some(0));
    assert_eq!(computer.run_instruction(&program), Some(1));
    assert_eq!(computer.run_instruction(&program), Some(2));
}

#[test]
fn test_4_bxl_b() {
    let mut computer = day17b::Computer {
        registers: [0, 29, 0],
        instruction_pointer: 0,
    };
    let program = vec![1, 7];
    computer.run_instruction(&program);
    assert_eq!(computer.registers[1], 26);
}

// Undoing a store of register A's low bits restores them from B.
#[test]
fn test_bst_reverse() {
    let mut computer = day17b::Computer {
        registers: [15, 0, 0],
        instruction_pointer: 0,
    };
    let program = vec![2, 4];
    computer.run_instruction(&program);
    computer.registers[0] = 9;
    computer.run_instruction_reverse(&program, 0);
    assert_eq!(computer.registers[0], 15);
}

// Undoing an exclusive-or with a literal restores register B and the
// pointer.
#[test]
fn test_bxl_reverse() {
    let mut computer = day17b::Computer {
        registers: [0, 5, 0],
        instruction_pointer: 0,
    };
    let program = vec![1, 3];
    computer.run_instruction(&program);
    assert_eq!(computer.registers[1], 6);
    assert_eq!(computer.instruction_pointer, 2);
    computer.run_instruction_reverse(&program, 0);
    assert_eq!(computer.registers[1], 5);
    assert_eq!(computer.instruction_pointer, 0);
}

// A divide writes the shifted value of A into the named register.
#[test]
fn test_divides() {
    let mut computer = day17a::Computer {
        registers: [64, 0, 0],
        instruction_pointer: 0,
        program: vec![0, 2, 6, 3, 7, 1],
    };
    computer.run_instruction();
    assert_eq!(computer.registers[0], 16);
    computer.run_instruction();
    assert_eq!(computer.registers[1], 2);
    computer.run_instruction();
    assert_eq!(computer.registers[2], 8);
}

// A jump on nonzero A moves the pointer to the literal operand.
#[test]
fn test_jnz() {
    let mut computer = day17a::Computer {
        registers: [1, 0, 0],
        instruction_pointer: 0,
        program: vec![3, 4, 5, 0, 5, 1],
    };
    computer.run_instruction();
    assert_eq!(computer.instruction_pointer, 4);
    assert!(!computer.halted());
    assert_eq!(computer.run_instruction(), Some(1));
    assert!(computer.halted());
}

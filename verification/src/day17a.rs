use vstd::prelude::*;
use vstd::arithmetic::power2::{pow2, lemma_pow2_pos, lemma2_to64};

verus! {

/// One decoded instruction of the three-register machine, carrying its raw
/// operand.
pub enum Instruction {
    Adv(usize),
    Bxl(usize),
    Bst(usize),
    Jnz(usize),
    Bxc(usize),
    Out(usize),
    Bdv(usize),
    Cdv(usize),
}

/// The instruction that an opcode and operand pair decodes to.
pub open spec fn decoded(opcode: usize, operand: usize) -> Instruction
    recommends
        opcode < 8,
{
    if opcode == 0 {
        Instruction::Adv(operand)
    } else if opcode == 1 {
        Instruction::Bxl(operand)
    } else if opcode == 2 {
        Instruction::Bst(operand)
    } else if opcode == 3 {
        Instruction::Jnz(operand)
    } else if opcode == 4 {
        Instruction::Bxc(operand)
    } else if opcode == 5 {
        Instruction::Out(operand)
    } else if opcode == 6 {
        Instruction::Bdv(operand)
    } else {
        Instruction::Cdv(operand)
    }
}

impl Instruction {
    /// Decode an opcode and operand pair.  Opcodes above 7 do not exist.
    pub fn new(opcode: usize, operand: usize) -> (r: Self)
        requires
            opcode < 8,
        ensures
            r == decoded(opcode, operand),
    {
        if opcode == 0 {
            Instruction::Adv(operand)
        } else if opcode == 1 {
            Instruction::Bxl(operand)
        } else if opcode == 2 {
            Instruction::Bst(operand)
        } else if opcode == 3 {
            Instruction::Jnz(operand)
        } else if opcode == 4 {
            Instruction::Bxc(operand)
        } else if opcode == 5 {
            Instruction::Out(operand)
        } else if opcode == 6 {
            Instruction::Bdv(operand)
        } else {
            Instruction::Cdv(operand)
        }
    }
}

/// The quotient of `a` by 2 to the power `e`.
pub open spec fn shifted_down(a: usize, e: nat) -> usize {
    (a as int / pow2(e) as int) as usize
}

/// 2 to the power `e`, computed by repeated doubling.
fn power_of_two(e: usize) -> (r: usize)
    requires
        e < 64,
        usize::MAX >= u64::MAX,
    ensures
        r == pow2(e as nat),
{
    proof {
        lemma2_to64();
    }
    let mut r: usize = 1;
    let mut i: usize = 0;
    while i < e
        invariant
            i <= e,
            r == pow2(i as nat),
        decreases e - i,
    {
        proof {
            vstd::arithmetic::power2::lemma_pow2_strictly_increases(i as nat + 1, 64);
            vstd::arithmetic::power2::lemma_pow2_unfold(i as nat + 1);
        }
        r = r * 2;
        i = i + 1;
    }
    r
}

/// The state of the three-register machine: registers A, B and C, an
/// instruction pointer, and the program, a flat list of opcode and operand
/// pairs.
pub struct Computer {
    pub registers: [usize; 3],
    pub instruction_pointer: usize,
    pub program: Vec<usize>,
}

impl Computer {
    /// The value a combo operand stands for: operands 0 to 3 are literals,
    /// operands 4 to 6 name registers A, B and C.
    pub open spec fn combo_spec(self, combo: usize) -> usize
        recommends
            combo <= 6,
    {
        if combo <= 3 {
            combo
        } else {
            self.registers@[combo - 4]
        }
    }

    /// The opcode under the instruction pointer.
    pub open spec fn current_opcode(self) -> usize {
        self.program@[self.instruction_pointer as int]
    }

    /// The operand under the instruction pointer.
    pub open spec fn current_operand(self) -> usize {
        self.program@[self.instruction_pointer as int + 1]
    }

    /// The machine can take a step: the instruction pointer is on an
    /// opcode and operand pair, the opcode exists, and the operand is one
    /// the instruction accepts on this machine's word size.
    pub open spec fn can_step(self) -> bool {
        let opcode = self.current_opcode();
        let x = self.current_operand();
        &&& self.instruction_pointer + 1 < self.program@.len()
        &&& opcode < 8
        &&& (opcode == 0 || opcode == 6 || opcode == 7) ==> (x <= 6 && self.combo_spec(x) < 64)
        &&& (opcode == 2 || opcode == 5) ==> x <= 6
    }

    /// The registers after one step.
    pub open spec fn step_registers(self) -> Seq<usize> {
        let x = self.current_operand();
        match decoded(self.current_opcode(), x) {
            Instruction::Adv(_) => self.registers@.update(
                0,
                shifted_down(self.registers@[0], self.combo_spec(x) as nat),
            ),
            Instruction::Bxl(_) => self.registers@.update(1, self.registers@[1] ^ x),
            Instruction::Bst(_) => self.registers@.update(1, (self.combo_spec(x) % 8) as usize),
            Instruction::Jnz(_) => self.registers@,
            Instruction::Bxc(_) => self.registers@.update(1, self.registers@[1] ^ self.registers@[2]),
            Instruction::Out(_) => self.registers@,
            Instruction::Bdv(_) => self.registers@.update(
                1,
                shifted_down(self.registers@[0], self.combo_spec(x) as nat),
            ),
            Instruction::Cdv(_) => self.registers@.update(
                2,
                shifted_down(self.registers@[0], self.combo_spec(x) as nat),
            ),
        }
    }

    /// The instruction pointer after one step: past the pair just run,
    /// except that a jump on a nonzero register A goes to its literal
    /// operand.
    pub open spec fn step_pointer(self) -> usize {
        let x = self.current_operand();
        match decoded(self.current_opcode(), x) {
            Instruction::Jnz(_) => if self.registers@[0] != 0 {
                x
            } else {
                (self.instruction_pointer + 2) as usize
            },
            _ => (self.instruction_pointer + 2) as usize,
        }
    }

    /// What one step outputs: an out instruction emits its combo value
    /// modulo 8, every other instruction emits nothing.
    pub open spec fn step_output(self) -> Option<usize> {
        let x = self.current_operand();
        match decoded(self.current_opcode(), x) {
            Instruction::Out(_) => Some((self.combo_spec(x) % 8) as usize),
            _ => None,
        }
    }

    /// Run the instruction pair under the instruction pointer and return
    /// its output, if any.
    pub fn run_instruction(&mut self) -> (out: Option<usize>)
        requires
            old(self).can_step(),
            usize::MAX >= u64::MAX,
        ensures
            final(self).registers@ == old(self).step_registers(),
            final(self).instruction_pointer == old(self).step_pointer(),
            final(self).program == old(self).program,
            out == old(self).step_output(),
    {
        let n = self.program.len();
        assert(self.instruction_pointer + 1 < n);
        let instruction = Instruction::new(
            self.program[self.instruction_pointer],
            self.program[self.instruction_pointer + 1],
        );
        self.instruction_pointer += 2;
        match instruction {
            Instruction::Adv(x) => self.adv(x),
            Instruction::Bxl(x) => self.bxl(x),
            Instruction::Bst(x) => self.bst(x),
            Instruction::Jnz(x) => self.jnz(x),
            Instruction::Bxc(x) => self.bxc(x),
            Instruction::Out(x) => self.out(x),
            Instruction::Bdv(x) => self.bdv(x),
            Instruction::Cdv(x) => self.cdv(x),
        }
    }

    /// Look up a combo operand: 0 to 3 are themselves, 4 to 6 read a
    /// register.
    pub fn resolve_combo(&self, combo: usize) -> (r: usize)
        requires
            combo <= 6,
        ensures
            r == self.combo_spec(combo),
    {
        if combo <= 3 {
            combo
        } else {
            self.registers[combo - 4]
        }
    }

    /// Divide register A by 2 to the combo value and store it in A.
    pub fn adv(&mut self, combo: usize) -> (out: Option<usize>)
        requires
            combo <= 6,
            old(self).combo_spec(combo) < 64,
            usize::MAX >= u64::MAX,
        ensures
            final(self).registers@ == old(self).registers@.update(
                0,
                shifted_down(old(self).registers@[0], old(self).combo_spec(combo) as nat),
            ),
            final(self).instruction_pointer == old(self).instruction_pointer,
            final(self).program == old(self).program,
            out is None,
    {
        let combo: usize = self.resolve_combo(combo);
        let divisor = power_of_two(combo);
        proof {
            lemma_pow2_pos(combo as nat);
        }
        self.registers = [self.registers[0] / divisor, self.registers[1], self.registers[2]];
        None
    }

    /// Exclusive-or register B with the literal operand.
    pub fn bxl(&mut self, literal: usize) -> (out: Option<usize>)
        ensures
            final(self).registers@ == old(self).registers@.update(
                1,
                old(self).registers@[1] ^ literal,
            ),
            final(self).instruction_pointer == old(self).instruction_pointer,
            final(self).program == old(self).program,
            out is None,
    {
        self.registers = [self.registers[0], self.registers[1] ^ literal, self.registers[2]];
        None
    }

    /// Store the combo value modulo 8 in register B.
    pub fn bst(&mut self, combo: usize) -> (out: Option<usize>)
        requires
            combo <= 6,
        ensures
            final(self).registers@ == old(self).registers@.update(
                1,
                (old(self).combo_spec(combo) % 8) as usize,
            ),
            final(self).instruction_pointer == old(self).instruction_pointer,
            final(self).program == old(self).program,
            out is None,
    {
        let combo: usize = self.resolve_combo(combo);
        self.registers = [self.registers[0], combo % 8, self.registers[2]];
        None
    }

    /// Jump to the literal operand when register A is nonzero.
    pub fn jnz(&mut self, literal: usize) -> (out: Option<usize>)
        ensures
            final(self).registers == old(self).registers,
            final(self).instruction_pointer == if old(self).registers@[0] != 0 {
                literal
            } else {
                old(self).instruction_pointer
            },
            final(self).program == old(self).program,
            out is None,
    {
        if self.registers[0] != 0 {
            self.instruction_pointer = literal;
        }
        None
    }

    /// Exclusive-or register B with register C; the operand is ignored.
    pub fn bxc(&mut self, _literal: usize) -> (out: Option<usize>)
        ensures
            final(self).registers@ == old(self).registers@.update(
                1,
                old(self).registers@[1] ^ old(self).registers@[2],
            ),
            final(self).instruction_pointer == old(self).instruction_pointer,
            final(self).program == old(self).program,
            out is None,
    {
        self.registers = [self.registers[0], self.registers[1] ^ self.registers[2], self.registers[2]];
        None
    }

    /// Emit the combo value modulo 8.
    pub fn out(&mut self, combo: usize) -> (out: Option<usize>)
        requires
            combo <= 6,
        ensures
            final(self).registers == old(self).registers,
            final(self).instruction_pointer == old(self).instruction_pointer,
            final(self).program == old(self).program,
            out == Some((old(self).combo_spec(combo) % 8) as usize),
    {
        Some(self.resolve_combo(combo) % 8)
    }

    /// Divide register A by 2 to the combo value and store it in B.
    pub fn bdv(&mut self, combo: usize) -> (out: Option<usize>)
        requires
            combo <= 6,
            old(self).combo_spec(combo) < 64,
            usize::MAX >= u64::MAX,
        ensures
            final(self).registers@ == old(self).registers@.update(
                1,
                shifted_down(old(self).registers@[0], old(self).combo_spec(combo) as nat),
            ),
            final(self).instruction_pointer == old(self).instruction_pointer,
            final(self).program == old(self).program,
            out is None,
    {
        let combo: usize = self.resolve_combo(combo);
        let divisor = power_of_two(combo);
        proof {
            lemma_pow2_pos(combo as nat);
        }
        self.registers = [self.registers[0], self.registers[0] / divisor, self.registers[2]];
        None
    }

    /// Divide register A by 2 to the combo value and store it in C.
    pub fn cdv(&mut self, combo: usize) -> (out: Option<usize>)
        requires
            combo <= 6,
            old(self).combo_spec(combo) < 64,
            usize::MAX >= u64::MAX,
        ensures
            final(self).registers@ == old(self).registers@.update(
                2,
                shifted_down(old(self).registers@[0], old(self).combo_spec(combo) as nat),
            ),
            final(self).instruction_pointer == old(self).instruction_pointer,
            final(self).program == old(self).program,
            out is None,
    {
        let combo: usize = self.resolve_combo(combo);
        let divisor = power_of_two(combo);
        proof {
            lemma_pow2_pos(combo as nat);
        }
        self.registers = [self.registers[0], self.registers[1], self.registers[0] / divisor];
        None
    }

    /// The machine has run off the end of its program.
    pub fn halted(&self) -> (r: bool)
        ensures
            r == (self.instruction_pointer >= self.program@.len()),
    {
        self.instruction_pointer >= self.program.len()
    }
}

} // verus!

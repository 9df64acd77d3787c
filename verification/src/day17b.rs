use vstd::prelude::*;
use vstd::arithmetic::power2::{pow2, lemma_pow2_pos, lemma2_to64};

verus! {

/// One decoded instruction of the three-register machine, carrying its raw
/// operand.
#[derive(Debug)]
pub enum Instruction {
    Adv(usize),
    Bxl(usize),
    Bst(usize),
    Jnz(usize),
    Bxc(usize),
    Out(usize),
    Bdv(usize),
    Cdv(usize),
}

/// The instruction that an opcode and operand pair decodes to.
pub open spec fn decoded(opcode: usize, operand: usize) -> Instruction
    recommends
        opcode < 8,
{
    if opcode == 0 {
        Instruction::Adv(operand)
    } else if opcode == 1 {
        Instruction::Bxl(operand)
    } else if opcode == 2 {
        Instruction::Bst(operand)
    } else if opcode == 3 {
        Instruction::Jnz(operand)
    } else if opcode == 4 {
        Instruction::Bxc(operand)
    } else if opcode == 5 {
        Instruction::Out(operand)
    } else if opcode == 6 {
        Instruction::Bdv(operand)
    } else {
        Instruction::Cdv(operand)
    }
}

impl Instruction {
    /// Decode an opcode and operand pair.  Opcodes above 7 do not exist.
    pub fn new(opcode: usize, operand: usize) -> (r: Self)
        requires
            opcode < 8,
        ensures
            r == decoded(opcode, operand),
    {
        if opcode == 0 {
            Instruction::Adv(operand)
        } else if opcode == 1 {
            Instruction::Bxl(operand)
        } else if opcode == 2 {
            Instruction::Bst(operand)
        } else if opcode == 3 {
            Instruction::Jnz(operand)
        } else if opcode == 4 {
            Instruction::Bxc(operand)
        } else if opcode == 5 {
            Instruction::Out(operand)
        } else if opcode == 6 {
            Instruction::Bdv(operand)
        } else {
            Instruction::Cdv(operand)
        }
    }
}

/// The quotient of `a` by 2 to the power `e`.
pub open spec fn shifted_down(a: usize, e: nat) -> usize {
    (a as int / pow2(e) as int) as usize
}

/// The value `r` with its three lowest bits replaced by `v`, for `v` below 8.
pub open spec fn low_bits_set(r: usize, v: usize) -> usize
    recommends
        v < 8,
        r - r % 8 + v <= usize::MAX,
{
    (r - r % 8 + v) as usize
}

/// 2 to the power `e`, computed by repeated doubling.
fn power_of_two(e: usize) -> (r: usize)
    requires
        e < 64,
        usize::MAX >= u64::MAX,
    ensures
        r == pow2(e as nat),
{
    proof {
        lemma2_to64();
    }
    let mut r: usize = 1;
    let mut i: usize = 0;
    while i < e
        invariant
            i <= e,
            r == pow2(i as nat),
        decreases e - i,
    {
        proof {
            vstd::arithmetic::power2::lemma_pow2_strictly_increases(i as nat + 1, 64);
            vstd::arithmetic::power2::lemma_pow2_unfold(i as nat + 1);
        }
        r = r * 2;
        i = i + 1;
    }
    r
}

/// The machine state alone: registers A, B and C and an instruction
/// pointer.  The program is handed to each step.
pub struct Computer {
    pub registers: [usize; 3],
    pub instruction_pointer: usize,
}

impl Computer {
    /// The value a combo operand stands for: operands 0 to 3 are literals,
    /// operands 4 to 6 name registers A, B and C.
    pub open spec fn combo_spec(self, combo: usize) -> usize
        recommends
            combo <= 6,
    {
        if combo <= 3 {
            combo
        } else {
            self.registers@[combo - 4]
        }
    }

    /// The machine can take a forward step of `program`.
    pub open spec fn can_step(self, program: Seq<usize>) -> bool {
        let opcode = program[self.instruction_pointer as int];
        let x = program[self.instruction_pointer as int + 1];
        &&& self.instruction_pointer + 1 < program.len()
        &&& opcode < 8
        &&& (opcode == 0 || opcode == 6 || opcode == 7) ==> (x <= 6 && self.combo_spec(x) < 64)
        &&& (opcode == 2 || opcode == 5) ==> x <= 6
    }

    /// The registers after one forward step of `program`.
    pub open spec fn step_registers(self, program: Seq<usize>) -> Seq<usize> {
        let x = program[self.instruction_pointer as int + 1];
        match decoded(program[self.instruction_pointer as int], x) {
            Instruction::Adv(_) => self.registers@.update(
                0,
                shifted_down(self.registers@[0], self.combo_spec(x) as nat),
            ),
            Instruction::Bxl(_) => self.registers@.update(1, self.registers@[1] ^ x),
            Instruction::Bst(_) => self.registers@.update(1, (self.combo_spec(x) % 8) as usize),
            Instruction::Jnz(_) => self.registers@,
            Instruction::Bxc(_) => self.registers@.update(1, self.registers@[1] ^ self.registers@[2]),
            Instruction::Out(_) => self.registers@,
            Instruction::Bdv(_) => self.registers@.update(
                1,
                shifted_down(self.registers@[0], self.combo_spec(x) as nat),
            ),
            Instruction::Cdv(_) => self.registers@.update(
                2,
                shifted_down(self.registers@[0], self.combo_spec(x) as nat),
            ),
        }
    }

    /// The instruction pointer after one forward step of `program`.
    pub open spec fn step_pointer(self, program: Seq<usize>) -> usize {
        let x = program[self.instruction_pointer as int + 1];
        match decoded(program[self.instruction_pointer as int], x) {
            Instruction::Jnz(_) => if self.registers@[0] != 0 {
                x
            } else {
                (self.instruction_pointer + 2) as usize
            },
            _ => (self.instruction_pointer + 2) as usize,
        }
    }

    /// What one forward step of `program` outputs.
    pub open spec fn step_output(self, program: Seq<usize>) -> Option<usize> {
        let x = program[self.instruction_pointer as int + 1];
        match decoded(program[self.instruction_pointer as int], x) {
            Instruction::Out(_) => Some((self.combo_spec(x) % 8) as usize),
            _ => None,
        }
    }

    /// Where a backward step lands: the previous pair, or the last pair
    /// before the closing jump when the pointer is at the start.
    pub open spec fn reverse_pointer(self, program: Seq<usize>) -> usize
        recommends
            self.instruction_pointer == 0 ==> program.len() >= 4,
            self.instruction_pointer != 0 ==> self.instruction_pointer >= 2,
    {
        if self.instruction_pointer == 0 {
            (program.len() - 4) as usize
        } else {
            (self.instruction_pointer - 2) as usize
        }
    }

    /// The machine can take a backward step of `program`, undoing the pair
    /// before the pointer against `output`.  Jumps and divides into B
    /// cannot be undone, a store of a combo value can be undone only from
    /// register A, and the arithmetic must fit the machine word.
    pub open spec fn can_step_reverse(self, program: Seq<usize>, output: usize) -> bool {
        let rp = self.reverse_pointer(program) as int;
        let opcode = program[rp];
        let x = program[rp + 1];
        let regs = self.registers@;
        &&& if self.instruction_pointer == 0 {
            program.len() >= 4
        } else {
            self.instruction_pointer >= 2 && self.instruction_pointer <= program.len()
        }
        &&& opcode < 8
        &&& opcode != 3
        &&& opcode != 6
        &&& opcode == 0 ==> x <= 3 && regs[0] * pow2(x as nat) <= usize::MAX
        &&& opcode == 2 ==> x == 4 && regs[0] - regs[0] % 8 + regs[1] % 8 <= usize::MAX
        &&& opcode == 5 ==> x <= 6 && output < 8 && (x >= 4 ==> regs[x - 4] - regs[x - 4] % 8
            + output <= usize::MAX)
        &&& opcode == 7 ==> 4 <= x <= 6 && regs[x - 4] < 64 && regs[2] * pow2(regs[x - 4] as nat)
            <= usize::MAX
    }

    /// The registers after one backward step of `program` against `output`.
    pub open spec fn reverse_registers(self, program: Seq<usize>, output: usize) -> Seq<usize> {
        let rp = self.reverse_pointer(program) as int;
        let x = program[rp + 1];
        let regs = self.registers@;
        match decoded(program[rp], x) {
            Instruction::Adv(_) => regs.update(0, (regs[0] * pow2(x as nat)) as usize),
            Instruction::Bxl(_) => regs.update(1, regs[1] ^ x),
            Instruction::Bst(_) => regs.update(0, low_bits_set(regs[0], (regs[1] % 8) as usize)),
            Instruction::Bxc(_) => regs.update(1, regs[1] ^ regs[2]),
            Instruction::Out(_) => if x <= 3 {
                regs
            } else {
                regs.update(x - 4, low_bits_set(regs[x - 4], output))
            },
            Instruction::Cdv(_) => regs.update(0, (regs[2] * pow2(regs[x - 4] as nat)) as usize),
            _ => regs,
        }
    }

    /// Undo the instruction pair before the pointer: rewind the pointer,
    /// then invert the pair's effect against `output`.  Return true when
    /// the pair was an out instruction, whose output is thereby consumed.
    pub fn run_instruction_reverse(&mut self, program: &[usize], output: usize) -> (consumed:
        bool)
        requires
            old(self).can_step_reverse(program@, output),
            usize::MAX >= u64::MAX,
        ensures
            final(self).instruction_pointer == old(self).reverse_pointer(program@),
            final(self).registers@ == old(self).reverse_registers(program@, output),
            consumed == (program@[old(self).reverse_pointer(program@) as int] == 5),
    {
        if self.instruction_pointer == 0 {
            self.instruction_pointer = program.len() - 4;
        } else {
            self.instruction_pointer -= 2;
        }
        let instruction = Instruction::new(
            program[self.instruction_pointer],
            program[self.instruction_pointer + 1],
        );
        match instruction {
            Instruction::Adv(x) => self.adv_reverse(x),
            Instruction::Bxl(x) => self.bxl_reverse(x),
            Instruction::Bst(x) => self.bst_reverse(x),
            Instruction::Bxc(x) => self.bxc_reverse(x),
            Instruction::Out(x) => self.out_reverse(x, output),
            Instruction::Cdv(x) => self.cdv_reverse(x),
            _ => false,
        }
    }

    /// Run the instruction pair at the pointer of `program` forward and
    /// return its output, if any.
    pub fn run_instruction(&mut self, program: &[usize]) -> (out: Option<usize>)
        requires
            old(self).can_step(program@),
            usize::MAX >= u64::MAX,
        ensures
            final(self).registers@ == old(self).step_registers(program@),
            final(self).instruction_pointer == old(self).step_pointer(program@),
            out == old(self).step_output(program@),
    {
        let n = program.len();
        assert(self.instruction_pointer + 1 < n);
        let instruction = Instruction::new(
            program[self.instruction_pointer],
            program[self.instruction_pointer + 1],
        );
        self.instruction_pointer += 2;
        match instruction {
            Instruction::Adv(x) => self.adv(x),
            Instruction::Bxl(x) => self.bxl(x),
            Instruction::Bst(x) => self.bst(x),
            Instruction::Jnz(x) => self.jnz(x),
            Instruction::Bxc(x) => self.bxc(x),
            Instruction::Out(x) => self.out(x),
            Instruction::Bdv(x) => self.bdv(x),
            Instruction::Cdv(x) => self.cdv(x),
        }
    }

    /// Look up a combo operand: 0 to 3 are themselves, 4 to 6 read a
    /// register.
    pub fn resolve_combo(&self, combo: usize) -> (r: usize)
        requires
            combo <= 6,
        ensures
            r == self.combo_spec(combo),
    {
        if combo <= 3 {
            combo
        } else {
            self.registers[combo - 4]
        }
    }

    /// Undo a combo lookup of `output`: a register operand gets its three
    /// lowest bits set back to `output`, a literal operand needs nothing.
    pub fn resolve_combo_reverse(&mut self, combo: usize, output: usize)
        requires
            combo <= 6,
            output < 8,
            combo >= 4 ==> old(self).registers@[combo - 4] - old(self).registers@[combo - 4] % 8
                + output <= usize::MAX,
        ensures
            final(self).instruction_pointer == old(self).instruction_pointer,
            final(self).registers@ == if combo <= 3 {
                old(self).registers@
            } else {
                old(self).registers@.update(
                    combo - 4,
                    low_bits_set(old(self).registers@[combo - 4], output),
                )
            },
    {
        if combo >= 4 {
            let i = combo - 4;
            let r = self.registers[i];
            let v = r - r % 8 + output;
            if i == 0 {
                self.registers = [v, self.registers[1], self.registers[2]];
            } else if i == 1 {
                self.registers = [self.registers[0], v, self.registers[2]];
            } else {
                self.registers = [self.registers[0], self.registers[1], v];
            }
        }
    }

    /// Divide register A by 2 to the combo value and store it in A.
    pub fn adv(&mut self, combo: usize) -> (out: Option<usize>)
        requires
            combo <= 6,
            old(self).combo_spec(combo) < 64,
            usize::MAX >= u64::MAX,
        ensures
            final(self).registers@ == old(self).registers@.update(
                0,
                shifted_down(old(self).registers@[0], old(self).combo_spec(combo) as nat),
            ),
            final(self).instruction_pointer == old(self).instruction_pointer,
            out is None,
    {
        let combo: usize = self.resolve_combo(combo);
        let divisor = power_of_two(combo);
        proof {
            lemma_pow2_pos(combo as nat);
        }
        self.registers = [self.registers[0] / divisor, self.registers[1], self.registers[2]];
        None
    }

    /// Undo a divide of register A: multiply A back up by 2 to the literal
    /// combo operand.  Only literal operands can be undone.
    pub fn adv_reverse(&mut self, combo: usize) -> (consumed: bool)
        requires
            combo <= 3,
            old(self).registers@[0] * pow2(combo as nat) <= usize::MAX,
            usize::MAX >= u64::MAX,
        ensures
            final(self).registers@ == old(self).registers@.update(
                0,
                (old(self).registers@[0] * pow2(combo as nat)) as usize,
            ),
            final(self).instruction_pointer == old(self).instruction_pointer,
            !consumed,
    {
        let factor = power_of_two(combo);
        self.registers = [self.registers[0] * factor, self.registers[1], self.registers[2]];
        false
    }

    /// Exclusive-or register B with the literal operand.
    pub fn bxl(&mut self, literal: usize) -> (out: Option<usize>)
        ensures
            final(self).registers@ == old(self).registers@.update(
                1,
                old(self).registers@[1] ^ literal,
            ),
            final(self).instruction_pointer == old(self).instruction_pointer,
            out is None,
    {
        self.registers = [self.registers[0], self.registers[1] ^ literal, self.registers[2]];
        None
    }

    /// Undo an exclusive-or of register B: the same exclusive-or again.
    pub fn bxl_reverse(&mut self, literal: usize) -> (consumed: bool)
        ensures
            final(self).registers@ == old(self).registers@.update(
                1,
                old(self).registers@[1] ^ literal,
            ),
            final(self).instruction_pointer == old(self).instruction_pointer,
            !consumed,
    {
        self.registers = [self.registers[0], self.registers[1] ^ literal, self.registers[2]];
        false
    }

    /// Store the combo value modulo 8 in register B.
    pub fn bst(&mut self, combo: usize) -> (out: Option<usize>)
        requires
            combo <= 6,
        ensures
            final(self).registers@ == old(self).registers@.update(
                1,
                (old(self).combo_spec(combo) % 8) as usize,
            ),
            final(self).instruction_pointer == old(self).instruction_pointer,
            out is None,
    {
        let combo: usize = self.resolve_combo(combo);
        self.registers = [self.registers[0], combo % 8, self.registers[2]];
        None
    }

    /// Undo a store of register A's low bits into B: set A's three lowest
    /// bits back from B.  Only the operand naming register A can be
    /// undone.
    pub fn bst_reverse(&mut self, combo: usize) -> (consumed: bool)
        requires
            combo == 4,
            old(self).registers@[0] - old(self).registers@[0] % 8 + old(self).registers@[1] % 8
                <= usize::MAX,
        ensures
            final(self).registers@ == old(self).registers@.update(
                0,
                low_bits_set(old(self).registers@[0], (old(self).registers@[1] % 8) as usize),
            ),
            final(self).instruction_pointer == old(self).instruction_pointer,
            !consumed,
    {
        let i = 4 - combo;
        let r = self.registers[i];
        let v = r - r % 8 + self.registers[1] % 8;
        self.registers = [v, self.registers[1], self.registers[2]];
        false
    }

    /// Jump to the literal operand when register A is nonzero.
    pub fn jnz(&mut self, literal: usize) -> (out: Option<usize>)
        ensures
            final(self).registers == old(self).registers,
            final(self).instruction_pointer == if old(self).registers@[0] != 0 {
                literal
            } else {
                old(self).instruction_pointer
            },
            out is None,
    {
        if self.registers[0] != 0 {
            self.instruction_pointer = literal;
        }
        None
    }

    /// Exclusive-or register B with register C; the operand is ignored.
    pub fn bxc(&mut self, _literal: usize) -> (out: Option<usize>)
        ensures
            final(self).registers@ == old(self).registers@.update(
                1,
                old(self).registers@[1] ^ old(self).registers@[2],
            ),
            final(self).instruction_pointer == old(self).instruction_pointer,
            out is None,
    {
        self.registers = [self.registers[0], self.registers[1] ^ self.registers[2], self.registers[2]];
        None
    }

    /// Undo an exclusive-or of B with C: the same exclusive-or again.
    pub fn bxc_reverse(&mut self, _literal: usize) -> (consumed: bool)
        ensures
            final(self).registers@ == old(self).registers@.update(
                1,
                old(self).registers@[1] ^ old(self).registers@[2],
            ),
            final(self).instruction_pointer == old(self).instruction_pointer,
            !consumed,
    {
        self.registers = [self.registers[0], self.registers[1] ^ self.registers[2], self.registers[2]];
        false
    }

    /// Emit the combo value modulo 8.
    pub fn out(&mut self, combo: usize) -> (out: Option<usize>)
        requires
            combo <= 6,
        ensures
            final(self).registers == old(self).registers,
            final(self).instruction_pointer == old(self).instruction_pointer,
            out == Some((old(self).combo_spec(combo) % 8) as usize),
    {
        Some(self.resolve_combo(combo) % 8)
    }

    /// Undo an out instruction: put the consumed output back into the
    /// combo operand's register, if it named one, and report the output
    /// consumed.
    pub fn out_reverse(&mut self, combo: usize, output: usize) -> (consumed: bool)
        requires
            combo <= 6,
            output < 8,
            combo >= 4 ==> old(self).registers@[combo - 4] - old(self).registers@[combo - 4] % 8
                + output <= usize::MAX,
        ensures
            final(self).instruction_pointer == old(self).instruction_pointer,
            final(self).registers@ == if combo <= 3 {
                old(self).registers@
            } else {
                old(self).registers@.update(
                    combo - 4,
                    low_bits_set(old(self).registers@[combo - 4], output),
                )
            },
            consumed,
    {
        self.resolve_combo_reverse(combo, output);
        true
    }

    /// Divide register A by 2 to the combo value and store it in B.
    pub fn bdv(&mut self, combo: usize) -> (out: Option<usize>)
        requires
            combo <= 6,
            old(self).combo_spec(combo) < 64,
            usize::MAX >= u64::MAX,
        ensures
            final(self).registers@ == old(self).registers@.update(
                1,
                shifted_down(old(self).registers@[0], old(self).combo_spec(combo) as nat),
            ),
            final(self).instruction_pointer == old(self).instruction_pointer,
            out is None,
    {
        let combo: usize = self.resolve_combo(combo);
        let divisor = power_of_two(combo);
        proof {
            lemma_pow2_pos(combo as nat);
        }
        self.registers = [self.registers[0], self.registers[0] / divisor, self.registers[2]];
        None
    }

    /// Divide register A by 2 to the combo value and store it in C.
    pub fn cdv(&mut self, combo: usize) -> (out: Option<usize>)
        requires
            combo <= 6,
            old(self).combo_spec(combo) < 64,
            usize::MAX >= u64::MAX,
        ensures
            final(self).registers@ == old(self).registers@.update(
                2,
                shifted_down(old(self).registers@[0], old(self).combo_spec(combo) as nat),
            ),
            final(self).instruction_pointer == old(self).instruction_pointer,
            out is None,
    {
        let combo: usize = self.resolve_combo(combo);
        let divisor = power_of_two(combo);
        proof {
            lemma_pow2_pos(combo as nat);
        }
        self.registers = [self.registers[0], self.registers[1], self.registers[0] / divisor];
        None
    }

    /// Undo a divide of A into C: rebuild A as C times 2 to the register
    /// the combo operand names.  Only register operands can be undone.
    pub fn cdv_reverse(&mut self, combo: usize) -> (consumed: bool)
        requires
            4 <= combo <= 6,
            old(self).registers@[combo - 4] < 64,
            old(self).registers@[2] * pow2(old(self).registers@[combo - 4] as nat) <= usize::MAX,
            usize::MAX >= u64::MAX,
        ensures
            final(self).registers@ == old(self).registers@.update(
                0,
                (old(self).registers@[2] * pow2(old(self).registers@[combo - 4] as nat)) as usize,
            ),
            final(self).instruction_pointer == old(self).instruction_pointer,
            !consumed,
    {
        let e = self.registers[combo - 4];
        let factor = power_of_two(e);
        self.registers = [self.registers[2] * factor, self.registers[1], self.registers[2]];
        false
    }

    /// The machine has run off the end of `program`.
    pub fn halted(&self, program: &[usize]) -> (r: bool)
        ensures
            r == (self.instruction_pointer >= program@.len()),
    {
        self.instruction_pointer >= program.len()
    }
}

} // verus!

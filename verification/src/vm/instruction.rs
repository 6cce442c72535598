use vstd::prelude::*;
use crate::vm::error::VmError;
use crate::vm::machine::Snapshot;
use crate::vm::opcode::{recognized, spec_argc, Mode};

verus! {

/// One argument of an instruction: the word that follows the opcode word and
/// the addressing mode the opcode word assigns to it.
#[derive(Clone, Copy, Debug)]
pub struct Arg {
    pub value: i64,
    pub mode: Mode,
}

/// A decoded instruction with its arguments. Arguments named `dest` are
/// written to; all others are read.
#[derive(Clone, Copy, Debug)]
pub enum Instruction {
    Add { add1: Arg, add2: Arg, dest: Arg },
    Mul { mul1: Arg, mul2: Arg, dest: Arg },
    In { dest: Arg },
    Out { data: Arg },
    Jnz { test: Arg, abs_target: Arg },
    Jz { test: Arg, abs_target: Arg },
    WriteLess { test_a: Arg, test_b: Arg, dest: Arg },
    WriteEqual { test_a: Arg, test_b: Arg, dest: Arg },
    SetBase { base: Arg },
    Halt,
}

impl Instruction {
    /// The operation code that decodes to this kind of instruction.
    pub open spec fn opcode(self) -> int {
        match self {
            Instruction::Add { .. } => 1,
            Instruction::Mul { .. } => 2,
            Instruction::In { .. } => 3,
            Instruction::Out { .. } => 4,
            Instruction::Jnz { .. } => 5,
            Instruction::Jz { .. } => 6,
            Instruction::WriteLess { .. } => 7,
            Instruction::WriteEqual { .. } => 8,
            Instruction::SetBase { .. } => 9,
            Instruction::Halt => 99,
        }
    }
}

/// The instruction of operation `op` whose arguments are `args`, in order.
pub open spec fn assemble(op: int, args: Seq<Arg>) -> Instruction {
    if op == 1 {
        Instruction::Add { add1: args[0], add2: args[1], dest: args[2] }
    } else if op == 2 {
        Instruction::Mul { mul1: args[0], mul2: args[1], dest: args[2] }
    } else if op == 3 {
        Instruction::In { dest: args[0] }
    } else if op == 4 {
        Instruction::Out { data: args[0] }
    } else if op == 5 {
        Instruction::Jnz { test: args[0], abs_target: args[1] }
    } else if op == 6 {
        Instruction::Jz { test: args[0], abs_target: args[1] }
    } else if op == 7 {
        Instruction::WriteLess { test_a: args[0], test_b: args[1], dest: args[2] }
    } else if op == 8 {
        Instruction::WriteEqual { test_a: args[0], test_b: args[1], dest: args[2] }
    } else if op == 9 {
        Instruction::SetBase { base: args[0] }
    } else {
        Instruction::Halt
    }
}

impl Snapshot {
    /// The argument at `position` (counted from 0) after the opcode word,
    /// paired with `mode`.
    pub open spec fn arg_at(self, position: int, mode: Mode) -> Arg {
        Arg { value: self.read(self.ip + 1 + position), mode }
    }

    /// The instruction of operation `op` that stands at the instruction
    /// pointer when its arguments take `modes`.
    ///
    /// The operation must be a known one with exactly as many modes as it has
    /// arguments. The arguments are the words right after the opcode word;
    /// their addresses must be non-negative and within the 64-bit range.
    pub open spec fn fetch(self, op: int, modes: Seq<Mode>) -> Result<Instruction, VmError> {
        if !recognized(op) || modes.len() != spec_argc(op) {
            Err(VmError::DecodeError)
        } else if spec_argc(op) > 0 && self.ip + 1 < 0 {
            Err(VmError::InvalidAddress)
        } else if self.ip + spec_argc(op) > i64::MAX {
            Err(VmError::Overflow)
        } else {
            Ok(assemble(op, Seq::new(modes.len(), |k: int| self.arg_at(k, modes[k]))))
        }
    }
}

/// The number of arguments of `instruction`.
pub fn argc_i(instruction: &Instruction) -> (n: i64)
    ensures
        n == spec_argc(instruction.opcode()),
{
    match instruction {
        Instruction::Add { .. } => 3,
        Instruction::Mul { .. } => 3,
        Instruction::In { .. } => 1,
        Instruction::Out { .. } => 1,
        Instruction::Jnz { .. } => 2,
        Instruction::Jz { .. } => 2,
        Instruction::WriteLess { .. } => 3,
        Instruction::WriteEqual { .. } => 3,
        Instruction::SetBase { .. } => 1,
        Instruction::Halt => 0,
    }
}

} // verus!

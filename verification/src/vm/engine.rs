use vstd::prelude::*;
use crate::vm::adapter::{Adapter, Input};
use crate::vm::error::VmError;
use crate::vm::instruction::{Arg, Instruction};
use crate::vm::machine::VM;
use crate::vm::opcode::{argc, decode, Mode, OP_ADD, OP_IN, OP_JNZ, OP_MUL, OP_OUT, OP_WLT};
use crate::vm::semantics::{
    spec_apply, spec_execute, spec_run, spec_step, Effect, Outcome, Status,
};

verus! {

impl VM {
    /// The address `offset` past the relative base.
    fn relative(&self, offset: i64) -> (r: Result<i64, VmError>)
        ensures
            r == self@.relative(offset),
    {
        match self.base.checked_add(offset) {
            None => Err(VmError::Overflow),
            Some(address) => if address < 0 {
                Err(VmError::InvalidAddress)
            } else {
                Ok(address)
            },
        }
    }

    /// The operand that `arg` stands for when it is read: the cell at its
    /// raw value, the raw value itself, or the cell at its raw value past
    /// the relative base.
    pub fn resolve_param(&self, arg: &Arg) -> (r: Result<i64, VmError>)
        ensures
            r == self@.load(*arg),
    {
        match arg.mode {
            Mode::Normal => self.read(arg.value),
            Mode::Imm => Ok(arg.value),
            Mode::Base => {
                let address: i64 = self.relative(arg.value)?;
                self.read(address)
            },
        }
    }

    /// The address that `arg` stands for when it is written to: its raw
    /// value, or its raw value past the relative base. An immediate argument
    /// names no address.
    pub fn resolve_param_w(&self, arg: &Arg) -> (r: Result<i64, VmError>)
        ensures
            r == self@.target(*arg),
    {
        match arg.mode {
            Mode::Normal => if arg.value < 0 {
                Err(VmError::InvalidAddress)
            } else {
                Ok(arg.value)
            },
            Mode::Imm => Err(VmError::InvalidWriteTarget),
            Mode::Base => self.relative(arg.value),
        }
    }

    /// The word at the instruction pointer, split into its operation code
    /// (the two low decimal digits) and the digits above them.
    pub fn get_op(&self) -> (r: Result<(i64, i64), VmError>)
        ensures
            match r {
                Ok((op, arginfo)) => {
                    &&& self.ip >= 0
                    &&& self@.read(self.ip as int) >= 0
                    &&& op == self@.read(self.ip as int) % 100
                    &&& arginfo == self@.read(self.ip as int) / 100
                },
                Err(e) => if self.ip < 0 {
                    e == VmError::InvalidAddress
                } else {
                    self@.read(self.ip as int) < 0 && e == VmError::DecodeError
                },
            },
    {
        let next: i64 = self.read(self.ip)?;
        if next < 0 {
            return Err(VmError::DecodeError);
        }
        Ok((next % 100, next / 100))
    }

    /// The argument at `position` (counted from 0) after the opcode word.
    fn read_arg(&self, position: i64, mode: Mode) -> (r: Result<Arg, VmError>)
        requires
            0 <= position < 3,
        ensures
            match r {
                Ok(arg) => self.ip + 1 >= 0 && self.ip + 1 + position <= i64::MAX && arg
                    == self@.arg_at(position as int, mode),
                Err(e) => if self.ip + 1 < 0 {
                    e == VmError::InvalidAddress
                } else {
                    self.ip + 1 + position > i64::MAX && e == VmError::Overflow
                },
            },
    {
        if self.ip < -1 {
            return Err(VmError::InvalidAddress);
        }
        match self.ip.checked_add(position + 1) {
            None => Err(VmError::Overflow),
            Some(address) => {
                let value: i64 = self.read(address)?;
                Ok(Arg { value, mode })
            },
        }
    }

    /// Reads the arguments of operation `op` from the words that follow the
    /// instruction pointer and pairs each with its mode.
    pub fn read_next_instruction(&self, op: i64, arg_modes: Vec<Mode>) -> (r: Result<
        Instruction,
        VmError,
    >)
        ensures
            r == self@.fetch(op as int, arg_modes@),
    {
        let n: i64 = argc(op)?;
        if arg_modes.len() != n as usize {
            return Err(VmError::DecodeError);
        }
        if n == 0 {
            return Ok(Instruction::Halt);
        }
        let first: Arg = self.read_arg(0, arg_modes[0])?;
        if n == 1 {
            proof {
                assert(arg_modes@ =~= seq![arg_modes@[0]]);
            }
            if op == OP_IN {
                return Ok(Instruction::In { dest: first });
            } else if op == OP_OUT {
                return Ok(Instruction::Out { data: first });
            } else {
                return Ok(Instruction::SetBase { base: first });
            }
        }
        let second: Arg = self.read_arg(1, arg_modes[1])?;
        if n == 2 {
            if op == OP_JNZ {
                return Ok(Instruction::Jnz { test: first, abs_target: second });
            } else {
                return Ok(Instruction::Jz { test: first, abs_target: second });
            }
        }
        let third: Arg = self.read_arg(2, arg_modes[2])?;
        if op == OP_ADD {
            Ok(Instruction::Add { add1: first, add2: second, dest: third })
        } else if op == OP_MUL {
            Ok(Instruction::Mul { mul1: first, mul2: second, dest: third })
        } else if op == OP_WLT {
            Ok(Instruction::WriteLess { test_a: first, test_b: second, dest: third })
        } else {
            Ok(Instruction::WriteEqual { test_a: first, test_b: second, dest: third })
        }
    }

    /// The instruction pointer `inc` words further.
    fn next_ip(&self, inc: i64) -> (r: Result<i64, VmError>)
        ensures
            r == self@.next_ip(inc as int),
    {
        match self.ip.checked_add(inc) {
            Some(ip) => Ok(ip),
            None => Err(VmError::Overflow),
        }
    }

    /// The effect of storing `value` at the target of `dest`.
    fn plan_store(&self, value: i64, dest: &Arg) -> (r: Result<Effect, VmError>)
        ensures
            r == self@.store(value as int, *dest),
    {
        let address: i64 = self.resolve_param_w(dest)?;
        let ip: i64 = self.next_ip(4)?;
        Ok(Effect::Store { address, value, ip })
    }

    /// Resolves the operands of `instruction` and computes what it is about
    /// to do, without doing it.
    pub fn plan(&self, instruction: &Instruction) -> (r: Result<Effect, VmError>)
        ensures
            r == self@.effect(*instruction),
    {
        match instruction {
            Instruction::Add { add1, add2, dest } => {
                let x: i64 = self.resolve_param(add1)?;
                let y: i64 = self.resolve_param(add2)?;
                match x.checked_add(y) {
                    Some(value) => self.plan_store(value, dest),
                    None => Err(VmError::Overflow),
                }
            },
            Instruction::Mul { mul1, mul2, dest } => {
                let x: i64 = self.resolve_param(mul1)?;
                let y: i64 = self.resolve_param(mul2)?;
                match x.checked_mul(y) {
                    Some(value) => self.plan_store(value, dest),
                    None => Err(VmError::Overflow),
                }
            },
            Instruction::In { dest } => {
                let address: i64 = self.resolve_param_w(dest)?;
                let ip: i64 = self.next_ip(2)?;
                Ok(Effect::Receive { address, ip })
            },
            Instruction::Out { data } => {
                let value: i64 = self.resolve_param(data)?;
                let ip: i64 = self.next_ip(2)?;
                Ok(Effect::Send { value, ip })
            },
            Instruction::Jnz { test, abs_target } => {
                let t: i64 = self.resolve_param(test)?;
                let ip: i64 = if t == 0 {
                    self.next_ip(3)?
                } else {
                    self.resolve_param(abs_target)?
                };
                Ok(Effect::Jump { ip })
            },
            Instruction::Jz { test, abs_target } => {
                let t: i64 = self.resolve_param(test)?;
                let ip: i64 = if t == 0 {
                    self.resolve_param(abs_target)?
                } else {
                    self.next_ip(3)?
                };
                Ok(Effect::Jump { ip })
            },
            Instruction::WriteLess { test_a, test_b, dest } => {
                let a: i64 = self.resolve_param(test_a)?;
                let b: i64 = self.resolve_param(test_b)?;
                if a < b {
                    self.plan_store(1, dest)
                } else {
                    self.plan_store(0, dest)
                }
            },
            Instruction::WriteEqual { test_a, test_b, dest } => {
                let a: i64 = self.resolve_param(test_a)?;
                let b: i64 = self.resolve_param(test_b)?;
                if a == b {
                    self.plan_store(1, dest)
                } else {
                    self.plan_store(0, dest)
                }
            },
            Instruction::SetBase { base } => {
                let delta: i64 = self.resolve_param(base)?;
                match self.base.checked_add(delta) {
                    None => Err(VmError::Overflow),
                    Some(base) => {
                        let ip: i64 = self.next_ip(2)?;
                        Ok(Effect::Rebase { base, ip })
                    },
                }
            },
            Instruction::Halt => Ok(Effect::Halt),
        }
    }

    /// Carries out `effect`: changes memory, the instruction pointer or the
    /// relative base, and talks to the adapter where the effect asks for it.
    pub fn apply<A: Adapter>(&mut self, effect: Effect, io: &mut A) -> (r: Result<
        Status,
        VmError,
    >)
        requires
            old(io).valid(),
        ensures
            final(io).valid(),
            (Outcome { result: r, vm: final(self)@, io: final(io)@ }) == spec_apply::<A>(
                old(self)@,
                effect,
                old(io)@,
            ),
    {
        match effect {
            Effect::Store { address, value, ip } => {
                self.write(address, value)?;
                self.ip = ip;
                Ok(Status::Running)
            },
            Effect::Receive { address, ip } => {
                if address < 0 {
                    return Err(VmError::InvalidAddress);
                }
                match io.next_input() {
                    Input::Ready(value) => {
                        let _ = self.write(address, value);
                        self.ip = ip;
                        Ok(Status::Running)
                    },
                    Input::Pending => Ok(Status::Suspended),
                    Input::Exhausted => Err(VmError::ExhaustedInput),
                }
            },
            Effect::Send { value, ip } => {
                if io.emit_output(value) {
                    self.ip = ip;
                    Ok(Status::Running)
                } else {
                    Err(VmError::OutputRefused)
                }
            },
            Effect::Jump { ip } => {
                self.ip = ip;
                Ok(Status::Running)
            },
            Effect::Rebase { base, ip } => {
                self.base = base;
                self.ip = ip;
                Ok(Status::Running)
            },
            Effect::Halt => Ok(Status::Halted),
        }
    }

    /// Executes `instruction`. An instruction that cannot be executed leaves
    /// the machine and the adapter as they were.
    pub fn execute<A: Adapter>(&mut self, instruction: Instruction, io: &mut A) -> (r: Result<
        Status,
        VmError,
    >)
        requires
            old(io).valid(),
        ensures
            final(io).valid(),
            (Outcome { result: r, vm: final(self)@, io: final(io)@ }) == spec_execute::<A>(
                old(self)@,
                instruction,
                old(io)@,
            ),
    {
        let effect: Effect = self.plan(&instruction)?;
        self.apply(effect, io)
    }

    /// Decodes the instruction at the instruction pointer and executes it.
    pub fn step<A: Adapter>(&mut self, io: &mut A) -> (r: Result<Status, VmError>)
        requires
            old(io).valid(),
        ensures
            final(io).valid(),
            (Outcome { result: r, vm: final(self)@, io: final(io)@ }) == spec_step::<A>(
                old(self)@,
                old(io)@,
            ),
    {
        let word: i64 = self.read(self.ip)?;
        let (op, arg_modes) = decode(word)?;
        let instruction: Instruction = self.read_next_instruction(op, arg_modes)?;
        self.execute(instruction, io)
    }

    /// Steps until the machine halts, suspends or fails, but no more than
    /// `max_steps` times. `Ok(Status::Running)` says that the steps were
    /// used up first.
    pub fn run<A: Adapter>(&mut self, io: &mut A, max_steps: u64) -> (r: Result<Status, VmError>)
        requires
            old(io).valid(),
        ensures
            final(io).valid(),
            (Outcome { result: r, vm: final(self)@, io: final(io)@ }) == spec_run::<A>(
                old(self)@,
                old(io)@,
                max_steps as nat,
            ),
    {
        let mut left: u64 = max_steps;
        while left > 0
            invariant
                io.valid(),
                spec_run::<A>(self@, io@, left as nat) == spec_run::<A>(
                    old(self)@,
                    old(io)@,
                    max_steps as nat,
                ),
            decreases left,
        {
            match self.step(io) {
                Ok(Status::Running) => {
                    left = left - 1;
                },
                other => {
                    return other;
                },
            }
        }
        Ok(Status::Running)
    }
}

} // verus!

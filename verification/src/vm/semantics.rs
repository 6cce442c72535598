use vstd::prelude::*;
use crate::vm::adapter::{Adapter, Input};
use crate::vm::error::VmError;
use crate::vm::instruction::{Arg, Instruction};
use crate::vm::machine::Snapshot;
use crate::vm::opcode::{decodable, spec_modes, Mode};

verus! {

/// Where a machine stands after a step or a run.
#[derive(Clone, Copy, Debug, PartialEq, Eq)]
pub enum Status {
    /// The machine can execute another instruction.
    Running,
    /// The machine has met a halt instruction.
    Halted,
    /// The machine stands on an input instruction and waits for its adapter
    /// to have input again.
    Suspended,
}

/// What an instruction is about to do, with every operand resolved.
#[derive(Clone, Copy, Debug)]
pub enum Effect {
    /// Store `value` at `address`, then continue at `ip`.
    Store { address: i64, value: i64, ip: i64 },
    /// Ask the adapter for a value and store it at `address`, then continue at `ip`.
    Receive { address: i64, ip: i64 },
    /// Hand `value` to the adapter, then continue at `ip`.
    Send { value: i64, ip: i64 },
    /// Continue at `ip`.
    Jump { ip: i64 },
    /// Set the relative base to `base`, then continue at `ip`.
    Rebase { base: i64, ip: i64 },
    /// Stop.
    Halt,
}

/// The result of a step or a run, with the machine and the adapter as they
/// are left.
pub struct Outcome<M> {
    pub result: Result<Status, VmError>,
    pub vm: Snapshot,
    pub io: M,
}

/// Whether `v` is a 64-bit signed integer.
pub open spec fn fits(v: int) -> bool {
    i64::MIN <= v <= i64::MAX
}

impl Snapshot {
    /// The address `offset` past the relative base.
    pub open spec fn relative(self, offset: i64) -> Result<i64, VmError> {
        if !fits(self.base + offset) {
            Err(VmError::Overflow)
        } else if self.base + offset < 0 {
            Err(VmError::InvalidAddress)
        } else {
            Ok((self.base + offset) as i64)
        }
    }

    /// The operand that `arg` stands for when it is read.
    pub open spec fn load(self, arg: Arg) -> Result<i64, VmError> {
        match arg.mode {
            Mode::Normal => if arg.value < 0 {
                Err(VmError::InvalidAddress)
            } else {
                Ok(self.read(arg.value as int))
            },
            Mode::Imm => Ok(arg.value),
            Mode::Base => match self.relative(arg.value) {
                Ok(address) => Ok(self.read(address as int)),
                Err(e) => Err(e),
            },
        }
    }

    /// The address that `arg` stands for when it is written to.
    pub open spec fn target(self, arg: Arg) -> Result<i64, VmError> {
        match arg.mode {
            Mode::Normal => if arg.value < 0 {
                Err(VmError::InvalidAddress)
            } else {
                Ok(arg.value)
            },
            Mode::Imm => Err(VmError::InvalidWriteTarget),
            Mode::Base => self.relative(arg.value),
        }
    }

    /// The instruction pointer `inc` words further.
    pub open spec fn next_ip(self, inc: int) -> Result<i64, VmError> {
        if fits(self.ip + inc) {
            Ok((self.ip + inc) as i64)
        } else {
            Err(VmError::Overflow)
        }
    }

    /// The effect of storing `value` at the target of `dest` and moving on
    /// by four words.
    pub open spec fn store(self, value: int, dest: Arg) -> Result<Effect, VmError> {
        if !fits(value) {
            Err(VmError::Overflow)
        } else {
            match self.target(dest) {
                Err(e) => Err(e),
                Ok(address) => match self.next_ip(4) {
                    Err(e) => Err(e),
                    Ok(ip) => Ok(Effect::Store { address, value: value as i64, ip }),
                },
            }
        }
    }

    /// The effect of an instruction that combines two operands by `f` and
    /// stores the result.
    pub open spec fn combine(self, lhs: Arg, rhs: Arg, dest: Arg, f: spec_fn(int, int) -> int)
        -> Result<Effect, VmError> {
        match self.load(lhs) {
            Err(e) => Err(e),
            Ok(x) => match self.load(rhs) {
                Err(e) => Err(e),
                Ok(y) => self.store(f(x as int, y as int), dest),
            },
        }
    }

    /// The effect of a conditional jump that is taken when `taken` holds of
    /// the tested operand.
    pub open spec fn branch(self, test: Arg, abs_target: Arg, taken: spec_fn(int) -> bool)
        -> Result<Effect, VmError> {
        match self.load(test) {
            Err(e) => Err(e),
            Ok(t) => if taken(t as int) {
                match self.load(abs_target) {
                    Err(e) => Err(e),
                    Ok(ip) => Ok(Effect::Jump { ip }),
                }
            } else {
                match self.next_ip(3) {
                    Err(e) => Err(e),
                    Ok(ip) => Ok(Effect::Jump { ip }),
                }
            },
        }
    }

    /// What `instruction` is about to do in this state, or the reason why
    /// it cannot be executed.
    pub open spec fn effect(self, instruction: Instruction) -> Result<Effect, VmError> {
        match instruction {
            Instruction::Add { add1, add2, dest } => self.combine(
                add1,
                add2,
                dest,
                |x: int, y: int| x + y,
            ),
            Instruction::Mul { mul1, mul2, dest } => self.combine(
                mul1,
                mul2,
                dest,
                |x: int, y: int| x * y,
            ),
            Instruction::In { dest } => match self.target(dest) {
                Err(e) => Err(e),
                Ok(address) => match self.next_ip(2) {
                    Err(e) => Err(e),
                    Ok(ip) => Ok(Effect::Receive { address, ip }),
                },
            },
            Instruction::Out { data } => match self.load(data) {
                Err(e) => Err(e),
                Ok(value) => match self.next_ip(2) {
                    Err(e) => Err(e),
                    Ok(ip) => Ok(Effect::Send { value, ip }),
                },
            },
            Instruction::Jnz { test, abs_target } => self.branch(
                test,
                abs_target,
                |t: int| t != 0,
            ),
            Instruction::Jz { test, abs_target } => self.branch(
                test,
                abs_target,
                |t: int| t == 0,
            ),
            Instruction::WriteLess { test_a, test_b, dest } => self.combine(
                test_a,
                test_b,
                dest,
                |x: int, y: int| if x < y { 1int } else { 0int },
            ),
            Instruction::WriteEqual { test_a, test_b, dest } => self.combine(
                test_a,
                test_b,
                dest,
                |x: int, y: int| if x == y { 1int } else { 0int },
            ),
            Instruction::SetBase { base } => match self.load(base) {
                Err(e) => Err(e),
                Ok(delta) => if !fits(self.base + delta) {
                    Err(VmError::Overflow)
                } else {
                    match self.next_ip(2) {
                        Err(e) => Err(e),
                        Ok(ip) => Ok(Effect::Rebase { base: (self.base + delta) as i64, ip }),
                    }
                },
            },
            Instruction::Halt => Ok(Effect::Halt),
        }
    }
}

/// A machine stopped by `e`, with machine and adapter untouched.
pub open spec fn failed<M>(e: VmError, vm: Snapshot, io: M) -> Outcome<M> {
    Outcome { result: Err(e), vm, io }
}

/// A machine that goes on from state `vm`.
pub open spec fn running<M>(vm: Snapshot, io: M) -> Outcome<M> {
    Outcome { result: Ok(Status::Running), vm, io }
}

/// The machine and adapter after `effect` has taken place.
pub open spec fn spec_apply<A: Adapter>(vm: Snapshot, effect: Effect, io: A::V) -> Outcome<A::V> {
    match effect {
        Effect::Store { address, value, ip } => if address < 0 {
            failed(VmError::InvalidAddress, vm, io)
        } else {
            running(vm.write(address, value).jump(ip), io)
        },
        Effect::Receive { address, ip } => if address < 0 {
            failed(VmError::InvalidAddress, vm, io)
        } else {
            match A::supply_input(io).0 {
                Input::Ready(value) => running(
                    vm.write(address, value).jump(ip),
                    A::supply_input(io).1,
                ),
                Input::Pending => Outcome {
                    result: Ok(Status::Suspended),
                    vm,
                    io: A::supply_input(io).1,
                },
                Input::Exhausted => failed(VmError::ExhaustedInput, vm, A::supply_input(io).1),
            }
        },
        Effect::Send { value, ip } => match A::consume_output(io, value) {
            Some(io2) => running(vm.jump(ip), io2),
            None => failed(VmError::OutputRefused, vm, io),
        },
        Effect::Jump { ip } => running(vm.jump(ip), io),
        Effect::Rebase { base, ip } => running(vm.rebase(base).jump(ip), io),
        Effect::Halt => Outcome { result: Ok(Status::Halted), vm, io },
    }
}

/// The machine and adapter after `instruction` has been executed. An
/// instruction that cannot be executed changes nothing.
pub open spec fn spec_execute<A: Adapter>(vm: Snapshot, instruction: Instruction, io: A::V)
    -> Outcome<A::V> {
    match vm.effect(instruction) {
        Err(e) => failed(e, vm, io),
        Ok(effect) => spec_apply::<A>(vm, effect, io),
    }
}

/// The machine and adapter after the instruction at the instruction pointer
/// has been decoded and executed.
pub open spec fn spec_step<A: Adapter>(vm: Snapshot, io: A::V) -> Outcome<A::V> {
    if vm.ip < 0 {
        failed(VmError::InvalidAddress, vm, io)
    } else if !decodable(vm.read(vm.ip as int) as int) {
        failed(VmError::DecodeError, vm, io)
    } else {
        let word = vm.read(vm.ip as int) as int;
        match vm.fetch(word % 100, spec_modes(word)) {
            Err(e) => failed(e, vm, io),
            Ok(instruction) => spec_execute::<A>(vm, instruction, io),
        }
    }
}

/// The machine and adapter after at most `fuel` steps: the run ends early
/// when a step halts, suspends or fails, and reports `Running` when the
/// steps are used up first.
pub open spec fn spec_run<A: Adapter>(vm: Snapshot, io: A::V, fuel: nat) -> Outcome<A::V>
    decreases fuel,
{
    if fuel == 0 {
        running(vm, io)
    } else {
        let next = spec_step::<A>(vm, io);
        if next.result == Ok::<Status, VmError>(Status::Running) {
            spec_run::<A>(next.vm, next.io, (fuel - 1) as nat)
        } else {
            next
        }
    }
}

} // verus!

//! What holds of every machine, proved from the definitions of the
//! semantics.

use vstd::prelude::*;
use crate::vm::adapter::Adapter;
use crate::vm::error::VmError;
use crate::vm::instruction::{Arg, Instruction};
use crate::vm::machine::Snapshot;
use crate::vm::opcode::{decodable, decodes_to, recognized, spec_modes, Mode};
use crate::vm::semantics::{
    failed, fits, running, spec_execute, spec_run, spec_step, Outcome, Status,
};

verus! {

/// Decoding depends on the opcode word alone: whatever two decodings of the
/// same word return, they return the same operation code and the same
/// modes, or the same error.
pub proof fn lemma_decode_is_a_function(
    word: i64,
    first: Result<(i64, Vec<Mode>), VmError>,
    second: Result<(i64, Vec<Mode>), VmError>,
)
    requires
        decodes_to(word, first),
        decodes_to(word, second),
    ensures
        match (first, second) {
            (Ok((op1, modes1)), Ok((op2, modes2))) => op1 == op2 && modes1@ == modes2@,
            (Err(e1), Err(e2)) => e1 == e2,
            _ => false,
        },
{
}

/// A value written to any address, however far past the program, is read
/// back from that address, and no other address changes.
pub proof fn lemma_write_then_read(vm: Snapshot, address: i64, value: i64)
    requires
        address >= 0,
    ensures
        vm.write(address, value).read(address as int) == value,
        forall|other: int|
            0 <= other <= i64::MAX && other != address ==> vm.write(address, value).read(other)
                == vm.read(other),
{
}

/// In a machine that has just been loaded, every address past the program
/// reads as 0.
pub proof fn lemma_fresh_memory_is_zero(program: Seq<i64>, address: int)
    requires
        address >= program.len(),
    ensures
        Snapshot::boot(program).read(address) == 0,
{
}

/// Once an adjust-base instruction has added `k` to the relative base, a
/// relative argument with raw value `r` reads the cell at `base + k + r`
/// and, as a destination, names that address, wherever the instruction
/// pointer stands.
pub proof fn lemma_relative_addressing<A: Adapter>(vm: Snapshot, io: A::V, k: i64, r: i64)
    requires
        fits(vm.base + k),
        fits(vm.ip + 2),
        0 <= vm.base + k + r <= i64::MAX,
    ensures
        ({
            let adjust = Instruction::SetBase { base: Arg { value: k, mode: Mode::Imm } };
            let relative = Arg { value: r, mode: Mode::Base };
            let after = spec_execute::<A>(vm, adjust, io);
            &&& after.result == Ok::<Status, VmError>(Status::Running)
            &&& after.vm.base == vm.base + k
            &&& forall|ip: i64| #[trigger]
                after.vm.jump(ip).load(relative) == Ok::<i64, VmError>(
                    after.vm.read(vm.base + k + r),
                )
            &&& forall|ip: i64| #[trigger]
                after.vm.jump(ip).target(relative) == Ok::<i64, VmError>(
                    (vm.base + k + r) as i64,
                )
        }),
{
}

/// A machine whose instruction pointer stands on a word that names no
/// operation stops with a decode error, at the first step and so in every
/// run, and is left as it was.
pub proof fn lemma_unknown_opcode_aborts<A: Adapter>(vm: Snapshot, io: A::V, fuel: nat)
    requires
        vm.ip >= 0,
        vm.read(vm.ip as int) < 0 || !recognized(vm.read(vm.ip as int) as int % 100),
        fuel > 0,
    ensures
        spec_step::<A>(vm, io) == failed(VmError::DecodeError, vm, io),
        spec_run::<A>(vm, io, fuel) == failed(VmError::DecodeError, vm, io),
{
}

/// The instruction pointer stands on an add or a multiply whose three
/// arguments are all positional, whose addresses are valid and whose result
/// is a 64-bit integer.
pub open spec fn arithmetic_ahead(vm: Snapshot) -> bool {
    &&& 0 <= vm.ip && vm.ip + 4 <= i64::MAX
    &&& (vm.read(vm.ip as int) == 1 || vm.read(vm.ip as int) == 2)
    &&& vm.read(vm.ip + 1) >= 0
    &&& vm.read(vm.ip + 2) >= 0
    &&& vm.read(vm.ip + 3) >= 0
    &&& fits(arithmetic_value(vm))
}

/// The sum or product that the instruction at the instruction pointer asks for.
pub open spec fn arithmetic_value(vm: Snapshot) -> int {
    let x = vm.read(vm.read(vm.ip + 1) as int);
    let y = vm.read(vm.read(vm.ip + 2) as int);
    if vm.read(vm.ip as int) == 1 {
        x + y
    } else {
        x * y
    }
}

/// The state after the sum or product has been stored where the third
/// argument points and the instruction pointer has moved on by four.
pub open spec fn arithmetic_done(vm: Snapshot) -> Snapshot {
    vm.write(vm.read(vm.ip + 3), arithmetic_value(vm) as i64).jump((vm.ip + 4) as i64)
}

/// Memory after the next `n` sums and products have been evaluated one
/// after the other.
pub open spec fn evaluate(vm: Snapshot, n: nat) -> Snapshot
    decreases n,
{
    if n == 0 {
        vm
    } else {
        evaluate(arithmetic_done(vm), (n - 1) as nat)
    }
}

/// From the instruction pointer on, the machine meets `n` positional adds
/// and multiplies and then a halt.
pub open spec fn arithmetic_program(vm: Snapshot, n: nat) -> bool
    decreases n,
{
    if n == 0 {
        vm.ip >= 0 && vm.read(vm.ip as int) == 99
    } else {
        arithmetic_ahead(vm) && arithmetic_program(arithmetic_done(vm), (n - 1) as nat)
    }
}

/// One step over a positional add or multiply stores the sum or product
/// and moves on by four words.
pub proof fn lemma_arithmetic_step<A: Adapter>(vm: Snapshot, io: A::V)
    requires
        arithmetic_ahead(vm),
    ensures
        spec_step::<A>(vm, io) == running(arithmetic_done(vm), io),
{
    let word = vm.read(vm.ip as int) as int;
    assert(decodable(word));
    let modes = spec_modes(word);
    assert(modes =~= seq![Mode::Normal, Mode::Normal, Mode::Normal]);
}

/// Running a program made of positional adds and multiplies up to its halt
/// leaves memory as evaluating the sums and products directly does, never
/// touches the adapter, and halts.
pub proof fn lemma_arithmetic_program<A: Adapter>(vm: Snapshot, io: A::V, n: nat, fuel: nat)
    requires
        arithmetic_program(vm, n),
        fuel > n,
    ensures
        spec_run::<A>(vm, io, fuel) == (Outcome {
            result: Ok(Status::Halted),
            vm: evaluate(vm, n),
            io,
        }),
    decreases n,
{
    if n == 0 {
        let word = vm.read(vm.ip as int) as int;
        assert(decodable(word));
        assert(spec_modes(word) =~= Seq::<Mode>::empty());
    } else {
        lemma_arithmetic_step::<A>(vm, io);
        lemma_arithmetic_program::<A>(arithmetic_done(vm), io, (n - 1) as nat, (fuel - 1) as nat);
    }
}

} // verus!

use intcode::adapters::fixed::FixedInput;
use intcode::adapters::queue::Queue;
use intcode::vm::error::VmError;
use intcode::vm::machine::VM;
use intcode::vm::semantics::Status;

const STEPS: u64 = 10_000;

#[test]
fn test_example1() {
    let mut vm = VM::new(vec![1002, 4, 3, 4, 33]);
    let mut io = FixedInput::new(1);
    assert_eq!(vm.run(&mut io, STEPS), Ok(Status::Halted));
    assert_eq!(vm.storage, vec![1002, 4, 3, 4, 99]);
}

#[test]
fn test_op1() {
    let mut vm = VM::new(vec![1001, 4, 2, 0, 99]);
    let mut io = FixedInput::new(1);
    assert_eq!(vm.run(&mut io, STEPS), Ok(Status::Halted));
    assert_eq!(vm.storage, vec![101, 4, 2, 0, 99]);
}

#[test]
fn test_op2() {
    let mut vm = VM::new(vec![1002, 4, 2, 0, 99]);
    let mut io = FixedInput::new(1);
    assert_eq!(vm.run(&mut io, STEPS), Ok(Status::Halted));
    assert_eq!(vm.storage, vec![198, 4, 2, 0, 99]);
}

#[test]
fn test_op3() {
    let mut vm = VM::new(vec![1002, 4, 2, 0, 99]);
    let mut io = FixedInput::new(1);
    assert_eq!(vm.run(&mut io, STEPS), Ok(Status::Halted));
    assert_eq!(vm.storage, vec![198, 4, 2, 0, 99]);
}

#[test]
fn test_position_je() {
    let mut vm = VM::new(vec![3, 9, 8, 9, 10, 9, 4, 9, 99, -1, 8]);
    let mut io = FixedInput::new(1);
    assert_eq!(vm.run(&mut io, STEPS), Ok(Status::Halted));
    assert_eq!(io.outputs, vec![0]);
}

#[test]
fn test_position_je2() {
    let mut vm = VM::new(vec![3, 9, 8, 9, 10, 9, 4, 9, 99, -1, 8]);
    let mut io = FixedInput::new(8);
    assert_eq!(vm.run(&mut io, STEPS), Ok(Status::Halted));
    assert_eq!(io.outputs, vec![1]);
}

#[test]
fn main_test_example1() {
    let mut vm = VM::new(vec![1002, 4, 3, 4, 33]);
    let mut io = Queue::new(vec![1], true);
    assert_eq!(vm.run(&mut io, STEPS), Ok(Status::Halted));
    assert_eq!(vm.storage, vec![1002, 4, 3, 4, 99]);
}

#[test]
fn main_test_op1() {
    let mut vm = VM::new(vec![1001, 4, 2, 0, 99]);
    let mut io = Queue::new(vec![1], true);
    assert_eq!(vm.run(&mut io, STEPS), Ok(Status::Halted));
    assert_eq!(vm.storage, vec![101, 4, 2, 0, 99]);
}

#[test]
fn main_test_op2() {
    let mut vm = VM::new(vec![1002, 4, 2, 0, 99]);
    let mut io = Queue::new(vec![1], true);
    assert_eq!(vm.run(&mut io, STEPS), Ok(Status::Halted));
    assert_eq!(vm.storage, vec![198, 4, 2, 0, 99]);
}

#[test]
fn main_test_op3() {
    let mut vm = VM::new(vec![1002, 4, 2, 0, 99]);
    let mut io = Queue::new(vec![1], true);
    assert_eq!(vm.run(&mut io, STEPS), Ok(Status::Halted));
    assert_eq!(vm.storage, vec![198, 4, 2, 0, 99]);
}

#[test]
fn main_test_position_je() {
    let mut vm = VM::new(vec![3, 9, 8, 9, 10, 9, 4, 9, 99, -1, 8]);
    let mut io = Queue::new(vec![1], true);
    assert_eq!(vm.run(&mut io, STEPS), Ok(Status::Halted));
    assert_eq!(io.outputs, vec![0]);
}

#[test]
fn main_test_position_je2() {
    let mut vm = VM::new(vec![3, 9, 8, 9, 10, 9, 4, 9, 99, -1, 8]);
    let mut io = Queue::new(vec![8], true);
    assert_eq!(vm.run(&mut io, STEPS), Ok(Status::Halted));
    assert_eq!(io.outputs, vec![1]);
}

#[test]
fn add_in_place_doubles_first_cell() {
    let mut vm = VM::new(vec![1, 0, 0, 0, 99]);
    let mut io = FixedInput::new(0);
    assert_eq!(vm.run(&mut io, STEPS), Ok(Status::Halted));
    assert_eq!(vm.storage, vec![2, 0, 0, 0, 99]);
    assert_eq!(vm.ip, 4);
}

#[test]
fn unknown_opcode_aborts() {
    let mut vm = VM::new(vec![77, 0, 0, 0, 99]);
    let mut io = FixedInput::new(0);
    assert_eq!(vm.run(&mut io, STEPS), Err(VmError::DecodeError));
    assert_eq!(vm.storage, vec![77, 0, 0, 0, 99]);
    assert_eq!(vm.ip, 0);
}

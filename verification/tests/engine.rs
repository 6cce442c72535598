use intcode::adapters::fixed::FixedInput;
use intcode::adapters::queue::Queue;
use intcode::vm::adapter::{Adapter, Input};
use intcode::vm::error::VmError;
use intcode::vm::instruction::{argc_i, Arg, Instruction};
use intcode::vm::machine::VM;
use intcode::vm::opcode::{argc, decode, Mode};
use intcode::vm::semantics::{Effect, Status};

const STEPS: u64 = 100_000;

fn run_with_inputs(program: Vec<i64>, inputs: Vec<i64>) -> (Result<Status, VmError>, VM, Queue) {
    let mut vm = VM::new(program);
    let mut io = Queue::new(inputs, false);
    let r = vm.run(&mut io, STEPS);
    (r, vm, io)
}

#[test]
fn argument_counts() {
    assert_eq!(argc(99), Ok(0));
    for op in [3, 4, 9] {
        assert_eq!(argc(op), Ok(1));
    }
    for op in [5, 6] {
        assert_eq!(argc(op), Ok(2));
    }
    for op in [1, 2, 7, 8] {
        assert_eq!(argc(op), Ok(3));
    }
    for op in [0, 10, 77, 98, 100, -1] {
        assert_eq!(argc(op), Err(VmError::DecodeError));
    }
    let arg = Arg { value: 0, mode: Mode::Normal };
    assert_eq!(argc_i(&Instruction::Halt), 0);
    assert_eq!(argc_i(&Instruction::SetBase { base: arg }), 1);
    assert_eq!(argc_i(&Instruction::Jz { test: arg, abs_target: arg }), 2);
    assert_eq!(argc_i(&Instruction::WriteEqual { test_a: arg, test_b: arg, dest: arg }), 3);
}

#[test]
fn decoding_splits_opcode_and_modes() {
    assert_eq!(decode(1002), Ok((2, vec![Mode::Normal, Mode::Imm, Mode::Normal])));
    assert_eq!(decode(21107), Ok((7, vec![Mode::Imm, Mode::Imm, Mode::Base])));
    assert_eq!(decode(204), Ok((4, vec![Mode::Base])));
    assert_eq!(decode(1105), Ok((5, vec![Mode::Imm, Mode::Imm])));
    assert_eq!(decode(99), Ok((99, vec![])));
    // digits beyond the last argument are not looked at
    assert_eq!(decode(31003), Ok((3, vec![Mode::Normal])));
    assert_eq!(decode(12399), Ok((99, vec![])));
}

#[test]
fn decoding_twice_gives_the_same() {
    for word in [1, 1002, 21107, 204, 99, 77, 302, -1, 0, i64::MAX, i64::MIN] {
        assert_eq!(decode(word), decode(word));
    }
}

#[test]
fn decoding_rejects_what_is_no_opcode_word() {
    assert_eq!(decode(77), Err(VmError::DecodeError));
    assert_eq!(decode(0), Err(VmError::DecodeError));
    assert_eq!(decode(-1), Err(VmError::DecodeError));
    assert_eq!(decode(-99), Err(VmError::DecodeError));
    assert_eq!(decode(302), Err(VmError::DecodeError));
    assert_eq!(decode(30001), Err(VmError::DecodeError));
}

#[test]
fn memory_past_the_program_reads_zero_until_written() {
    let program = vec![1, 0, 0, 0, 99];
    let len = program.len() as i64;
    let mut vm = VM::new(program);
    assert_eq!(vm.read(len), Ok(0));
    assert_eq!(vm.read(len + 1000), Ok(0));
    assert_eq!(vm.read(i64::MAX), Ok(0));
    assert_eq!(vm.write(len + 1000, 42), Ok(()));
    assert_eq!(vm.read(len + 1000), Ok(42));
    assert_eq!(vm.read(len + 999), Ok(0));
    assert_eq!(vm.read(len + 1001), Ok(0));
    assert_eq!(vm.write(len + 1000, -7), Ok(()));
    assert_eq!(vm.read(len + 1000), Ok(-7));
    assert_eq!(vm.storage, vec![1, 0, 0, 0, 99]);
    assert_eq!(vm.write(2, 5), Ok(()));
    assert_eq!(vm.storage, vec![1, 0, 5, 0, 99]);
    assert!(vm.more_storage.get(&2).is_none());
}

#[test]
fn negative_addresses_are_refused() {
    let mut vm = VM::new(vec![99]);
    assert_eq!(vm.read(-1), Err(VmError::InvalidAddress));
    assert_eq!(vm.write(-1, 3), Err(VmError::InvalidAddress));
    assert_eq!(vm.read_ptr(-1), Err(VmError::InvalidAddress));
    assert_eq!(vm.write_ptr(-1, 3), Err(VmError::InvalidAddress));
    assert_eq!(vm.storage, vec![99]);
    assert!(vm.more_storage.is_empty());
}

#[test]
fn pointers_and_parameters() {
    let mut vm = VM::new(vec![3, 0, 4, 1, 99]);
    assert_eq!(vm.read_ptr(0), Ok(1));
    assert_eq!(vm.read_ptr(2), Ok(99));
    assert_eq!(vm.write_ptr(3, 17), Ok(()));
    assert_eq!(vm.storage, vec![3, 17, 4, 1, 99]);
    vm.init(12, 2);
    assert_eq!(vm.storage, vec![3, 12, 2, 1, 99]);
    assert_eq!(vm.advance_ip(4), Ok(()));
    assert_eq!(vm.ip, 4);
    assert!(vm.stopped());
    assert_eq!(vm.advance_ip(i64::MAX), Err(VmError::Overflow));
    assert_eq!(vm.ip, 4);
    assert_eq!(vm.advance_ip(-8), Ok(()));
    assert!(!vm.stopped());
}

#[test]
fn noun_and_verb_program() {
    let mut vm = VM::new(vec![1, 9, 10, 3, 2, 3, 11, 0, 99, 30, 40, 50]);
    let mut io = FixedInput::new(0);
    assert_eq!(vm.run(&mut io, STEPS), Ok(Status::Halted));
    assert_eq!(vm.storage, vec![3500, 9, 10, 70, 2, 3, 11, 0, 99, 30, 40, 50]);
    assert_eq!(vm.read(0), Ok(3500));
}

#[test]
fn arithmetic_programs_match_direct_evaluation() {
    let cases: Vec<(Vec<i64>, Vec<i64>)> = vec![
        (vec![1, 0, 0, 0, 99], vec![2, 0, 0, 0, 99]),
        (vec![2, 3, 0, 3, 99], vec![2, 3, 0, 6, 99]),
        (vec![2, 4, 4, 5, 99, 0], vec![2, 4, 4, 5, 99, 9801]),
        (vec![1, 1, 1, 4, 99, 5, 6, 0, 99], vec![30, 1, 1, 4, 2, 5, 6, 0, 99]),
    ];
    for (program, expected) in cases {
        let mut direct = program.clone();
        let mut ip = 0;
        while direct[ip] != 99 {
            let (a, b, c) =
                (direct[ip + 1] as usize, direct[ip + 2] as usize, direct[ip + 3] as usize);
            direct[c] = if direct[ip] == 1 { direct[a] + direct[b] } else { direct[a] * direct[b] };
            ip += 4;
        }
        let mut vm = VM::new(program);
        let mut io = Queue::new(vec![], false);
        assert_eq!(vm.run(&mut io, STEPS), Ok(Status::Halted));
        assert_eq!(vm.storage, expected);
        assert_eq!(vm.storage, direct);
        assert!(io.outputs.is_empty());
    }
}

#[test]
fn equality_against_eight() {
    let program = vec![3, 9, 8, 9, 10, 9, 4, 9, 99, -1, 8];
    let (r, _, io) = run_with_inputs(program.clone(), vec![8]);
    assert_eq!(r, Ok(Status::Halted));
    assert_eq!(io.outputs, vec![1]);
    let (r, _, io) = run_with_inputs(program, vec![1]);
    assert_eq!(r, Ok(Status::Halted));
    assert_eq!(io.outputs, vec![0]);
}

#[test]
fn comparisons_and_jumps() {
    // less than 8, position mode
    let lt = vec![3, 9, 7, 9, 10, 9, 4, 9, 99, -1, 8];
    assert_eq!(run_with_inputs(lt.clone(), vec![7]).2.outputs, vec![1]);
    assert_eq!(run_with_inputs(lt, vec![8]).2.outputs, vec![0]);
    // equal to 8, immediate mode
    let eq = vec![3, 3, 1108, -1, 8, 3, 4, 3, 99];
    assert_eq!(run_with_inputs(eq.clone(), vec![8]).2.outputs, vec![1]);
    assert_eq!(run_with_inputs(eq, vec![9]).2.outputs, vec![0]);
    // jump tests: output 0 if the input was zero, 1 otherwise
    let jp = vec![3, 12, 6, 12, 15, 1, 13, 14, 13, 4, 13, 99, -1, 0, 1, 9];
    assert_eq!(run_with_inputs(jp.clone(), vec![0]).2.outputs, vec![0]);
    assert_eq!(run_with_inputs(jp, vec![5]).2.outputs, vec![1]);
    let ji = vec![3, 3, 1105, -1, 9, 1101, 0, 0, 12, 4, 12, 99, 1];
    assert_eq!(run_with_inputs(ji.clone(), vec![0]).2.outputs, vec![0]);
    assert_eq!(run_with_inputs(ji, vec![-3]).2.outputs, vec![1]);
}

#[test]
fn larger_example_compares_with_eight() {
    let program = vec![
        3, 21, 1008, 21, 8, 20, 1005, 20, 22, 107, 8, 21, 20, 1006, 20, 31, 1106, 0, 36, 98, 0, 0,
        1002, 21, 125, 20, 4, 20, 1105, 1, 46, 104, 999, 1105, 1, 46, 1101, 1000, 1, 20, 4, 20,
        1105, 1, 46, 98, 99,
    ];
    assert_eq!(run_with_inputs(program.clone(), vec![7]).2.outputs, vec![999]);
    assert_eq!(run_with_inputs(program.clone(), vec![8]).2.outputs, vec![1000]);
    assert_eq!(run_with_inputs(program, vec![9]).2.outputs, vec![1001]);
}

#[test]
fn relative_base_quine() {
    let program = vec![109, 1, 204, -1, 1001, 100, 1, 100, 1008, 100, 16, 101, 1006, 101, 0, 99];
    let (r, vm, io) = run_with_inputs(program.clone(), vec![]);
    assert_eq!(r, Ok(Status::Halted));
    assert_eq!(io.outputs, program);
    assert_eq!(vm.base, 16);
    assert_eq!(vm.read(100), Ok(16));
    assert_eq!(vm.read(101), Ok(1));
}

#[test]
fn relative_arguments_read_and_write_at_base_plus_offset() {
    // base += 7; in -> [base + 93]; out [base + 93]; out [100]
    let program = vec![109, 7, 203, 93, 204, 93, 4, 100, 99];
    let (r, vm, io) = run_with_inputs(program, vec![55]);
    assert_eq!(r, Ok(Status::Halted));
    assert_eq!(vm.base, 7);
    assert_eq!(io.outputs, vec![55, 55]);
    assert_eq!(vm.read(100), Ok(55));
    assert_eq!(vm.read(93), Ok(0));
    // the same instructions elsewhere in memory address the same cell
    let program = vec![1105, 1, 5, 0, 0, 109, 7, 203, 93, 204, 93, 4, 100, 99];
    let (r, vm, io) = run_with_inputs(program, vec![55]);
    assert_eq!(r, Ok(Status::Halted));
    assert_eq!(io.outputs, vec![55, 55]);
    assert_eq!(vm.read(100), Ok(55));
    // two adjustments add up: 5 - 2 + (-1) = 2
    let program = vec![109, 5, 109, -2, 204, -1, 99];
    let (_, vm, io) = run_with_inputs(program, vec![]);
    assert_eq!(vm.base, 3);
    assert_eq!(io.outputs, vec![109]);
}

#[test]
fn large_numbers() {
    let (_, _, io) = run_with_inputs(vec![1102, 34915192, 34915192, 7, 4, 7, 99, 0], vec![]);
    assert_eq!(io.outputs, vec![1219070632396864]);
    let (_, _, io) = run_with_inputs(vec![104, 1125899906842624, 99], vec![]);
    assert_eq!(io.outputs, vec![1125899906842624]);
}

#[test]
fn writing_to_an_immediate_fails() {
    for program in [
        vec![11101, 1, 1, 0, 99],
        vec![11102, 1, 1, 0, 99],
        vec![11107, 1, 1, 0, 99],
        vec![11108, 1, 1, 0, 99],
        vec![103, 0, 99],
    ] {
        let (r, vm, io) = run_with_inputs(program.clone(), vec![5]);
        assert_eq!(r, Err(VmError::InvalidWriteTarget));
        assert_eq!(vm.storage, program);
        assert_eq!(vm.ip, 0);
        assert_eq!(io.pending(), 1);
    }
}

#[test]
fn running_out_of_input_fails_or_suspends() {
    let program = vec![3, 0, 4, 0, 99];
    let mut vm = VM::new(program.clone());
    let mut io = Queue::new(vec![], false);
    assert_eq!(vm.run(&mut io, STEPS), Err(VmError::ExhaustedInput));
    assert_eq!(vm.ip, 0);

    let mut vm = VM::new(program);
    let mut io = Queue::new(vec![], true);
    assert_eq!(vm.run(&mut io, STEPS), Ok(Status::Suspended));
    assert_eq!(vm.ip, 0);
    assert_eq!(vm.run(&mut io, STEPS), Ok(Status::Suspended));
    io.push_input(31);
    assert_eq!(vm.run(&mut io, STEPS), Ok(Status::Halted));
    assert_eq!(io.take_outputs(), vec![31]);
    assert!(io.outputs.is_empty());
    assert_eq!(vm.storage, vec![31, 0, 4, 0, 99]);
}

#[test]
fn bad_addresses_and_overflow_stop_the_machine() {
    let (r, vm, _) = run_with_inputs(vec![1, -1, 0, 0, 99], vec![]);
    assert_eq!(r, Err(VmError::InvalidAddress));
    assert_eq!(vm.storage, vec![1, -1, 0, 0, 99]);
    let (r, _, _) = run_with_inputs(vec![1, 0, 0, -1, 99], vec![]);
    assert_eq!(r, Err(VmError::InvalidAddress));
    let (r, _, _) = run_with_inputs(vec![1105, 1, -4], vec![]);
    assert_eq!(r, Err(VmError::InvalidAddress));
    let (r, _, _) = run_with_inputs(vec![109, -1, 204, 0, 99], vec![]);
    assert_eq!(r, Err(VmError::InvalidAddress));
    let (r, vm, _) = run_with_inputs(vec![1102, i64::MAX, 2, 0, 99], vec![]);
    assert_eq!(r, Err(VmError::Overflow));
    assert_eq!(vm.read(0), Ok(1102));
    let (r, _, _) = run_with_inputs(vec![1101, i64::MAX, 1, 0, 99], vec![]);
    assert_eq!(r, Err(VmError::Overflow));
    let (r, _, _) = run_with_inputs(vec![109, i64::MAX, 109, 1, 99], vec![]);
    assert_eq!(r, Err(VmError::Overflow));
    let (r, _, _) = run_with_inputs(vec![1105, 1, i64::MAX], vec![]);
    assert_eq!(r, Ok(Status::Halted).and(Err(VmError::DecodeError)));
}

#[test]
fn an_endless_program_uses_up_its_steps() {
    let mut vm = VM::new(vec![1105, 1, 0]);
    let mut io = FixedInput::new(0);
    assert_eq!(vm.run(&mut io, 1000), Ok(Status::Running));
    assert_eq!(vm.ip, 0);
    assert_eq!(vm.run(&mut io, 0), Ok(Status::Running));
}

#[test]
fn stepping_by_hand() {
    let mut vm = VM::new(vec![1002, 4, 3, 4, 33]);
    let mut io = FixedInput::new(1);
    assert_eq!(vm.get_op(), Ok((2, 10)));
    let instruction = vm
        .read_next_instruction(2, vec![Mode::Normal, Mode::Imm, Mode::Normal])
        .expect("three arguments");
    match instruction {
        Instruction::Mul { mul1, mul2, dest } => {
            assert_eq!((mul1.value, mul1.mode), (4, Mode::Normal));
            assert_eq!((mul2.value, mul2.mode), (3, Mode::Imm));
            assert_eq!((dest.value, dest.mode), (4, Mode::Normal));
            assert_eq!(vm.resolve_param(&mul1), Ok(33));
            assert_eq!(vm.resolve_param(&mul2), Ok(3));
            assert_eq!(vm.resolve_param_w(&dest), Ok(4));
            assert_eq!(vm.resolve_param_w(&mul2), Err(VmError::InvalidWriteTarget));
        }
        other => panic!("decoded {:?}", other),
    }
    match vm.plan(&instruction) {
        Ok(Effect::Store { address, value, ip }) => assert_eq!((address, value, ip), (4, 99, 4)),
        other => panic!("planned {:?}", other),
    }
    assert_eq!(vm.storage, vec![1002, 4, 3, 4, 33]);
    assert_eq!(vm.execute(instruction, &mut io), Ok(Status::Running));
    assert_eq!(vm.storage, vec![1002, 4, 3, 4, 99]);
    assert_eq!(vm.ip, 4);
    assert_eq!(vm.step(&mut io), Ok(Status::Halted));
    assert_eq!(vm.ip, 4);
    assert_eq!(vm.read_next_instruction(2, vec![Mode::Normal]).err(), Some(VmError::DecodeError));
    assert_eq!(vm.read_next_instruction(42, vec![]).err(), Some(VmError::DecodeError));
    // the arguments of an instruction at the end of the program read as 0
    match vm.read_next_instruction(4, vec![Mode::Imm]) {
        Ok(Instruction::Out { data }) => assert_eq!(data.value, 0),
        other => panic!("decoded {:?}", other),
    }
    assert_eq!(vm.apply(Effect::Jump { ip: 2 }, &mut io), Ok(Status::Running));
    assert_eq!(vm.ip, 2);
    assert_eq!(vm.apply(Effect::Store { address: -1, value: 0, ip: 0 }, &mut io),
        Err(VmError::InvalidAddress));
    assert_eq!(vm.get_op(), Ok((3, 0)));
    vm.ip = -1;
    assert_eq!(vm.get_op(), Err(VmError::InvalidAddress));
    assert_eq!(vm.step(&mut io), Err(VmError::InvalidAddress));
}

#[test]
fn queue_hands_out_inputs_in_order() {
    let mut io = Queue::new(vec![1, 2], true);
    assert_eq!(io.pending(), 2);
    assert!(matches!(io.next_input(), Input::Ready(1)));
    io.push_input(3);
    assert!(matches!(io.next_input(), Input::Ready(2)));
    assert!(matches!(io.next_input(), Input::Ready(3)));
    assert!(matches!(io.next_input(), Input::Pending));
    assert_eq!(io.pending(), 0);
    let mut io = Queue::new(vec![], false);
    assert!(matches!(io.next_input(), Input::Exhausted));
    assert!(io.emit_output(4));
    assert!(io.emit_output(5));
    assert_eq!(io.outputs, vec![4, 5]);
    let mut fixed = FixedInput::new(9);
    assert!(matches!(fixed.next_input(), Input::Ready(9)));
    assert!(matches!(fixed.next_input(), Input::Ready(9)));
}

use vstd::prelude::*;
use crate::vm::error::VmError;

verus! {

pub const OP_ADD: i64 = 1;
pub const OP_MUL: i64 = 2;
pub const OP_IN: i64 = 3;
pub const OP_OUT: i64 = 4;
pub const OP_JNZ: i64 = 5;
pub const OP_JZ: i64 = 6;
pub const OP_WLT: i64 = 7;
pub const OP_WEQ: i64 = 8;
pub const OP_BASE: i64 = 9;
pub const OP_HALT: i64 = 99;

/// How the raw value of an argument is turned into an operand.
#[derive(Clone, Copy, Debug, PartialEq, Eq)]
pub enum Mode {
    /// The raw value is an address.
    Normal,
    /// The raw value is the operand itself.
    Imm,
    /// The raw value is an offset from the relative base.
    Base,
}

/// The ten operation codes of the machine.
pub open spec fn recognized(op: int) -> bool {
    (1 <= op <= 9) || op == 99
}

/// The fixed number of arguments that follow an operation code.
pub open spec fn spec_argc(op: int) -> int {
    if op == 99 {
        0
    } else if op == 3 || op == 4 || op == 9 {
        1
    } else if op == 5 || op == 6 {
        2
    } else {
        3
    }
}

/// The decimal digit of `word` that selects the mode of the argument at
/// `position` (counted from 0): the hundreds digit for the first argument,
/// the thousands digit for the second, the ten-thousands digit for the third.
pub open spec fn mode_digit(word: int, position: int) -> int {
    if position == 0 {
        (word / 100) % 10
    } else if position == 1 {
        (word / 1000) % 10
    } else {
        (word / 10000) % 10
    }
}

/// The mode that a digit stands for.
pub open spec fn spec_mode(digit: int) -> Mode {
    if digit == 0 {
        Mode::Normal
    } else if digit == 1 {
        Mode::Imm
    } else {
        Mode::Base
    }
}

/// An opcode word can be decoded when it is non-negative, its two low
/// decimal digits name an operation, and each of that operation's argument
/// positions holds a mode digit of 0, 1 or 2.
pub open spec fn decodable(word: int) -> bool {
    &&& word >= 0
    &&& recognized(word % 100)
    &&& forall|k: int| 0 <= k < spec_argc(word % 100) ==> mode_digit(word, k) <= 2
}

/// The modes packed into a decodable word, one per argument, in argument order.
pub open spec fn spec_modes(word: int) -> Seq<Mode> {
    Seq::new(spec_argc(word % 100) as nat, |k: int| spec_mode(mode_digit(word, k)))
}

/// What `decode` owes for `word`: the operation code and modes of a
/// decodable word, and a decode error for any other.
pub open spec fn decodes_to(word: i64, r: Result<(i64, Vec<Mode>), VmError>) -> bool {
    match r {
        Ok((op, modes)) => decodable(word as int) && op == word % 100 && modes@ == spec_modes(
            word as int,
        ),
        Err(e) => !decodable(word as int) && e == VmError::DecodeError,
    }
}

/// The number of arguments of operation `op`, or a decode error when `op`
/// is not an operation of the machine.
pub fn argc(op: i64) -> (r: Result<i64, VmError>)
    ensures
        recognized(op as int) ==> r == Ok::<i64, VmError>(spec_argc(op as int) as i64),
        !recognized(op as int) ==> r == Err::<i64, VmError>(VmError::DecodeError),
{
    if op == OP_HALT {
        Ok(0)
    } else if op == OP_IN || op == OP_OUT || op == OP_BASE {
        Ok(1)
    } else if op == OP_JNZ || op == OP_JZ {
        Ok(2)
    } else if op == OP_ADD || op == OP_MUL || op == OP_WLT || op == OP_WEQ {
        Ok(3)
    } else {
        Err(VmError::DecodeError)
    }
}

/// Splits an opcode word into its operation code and the addressing mode of
/// each of the operation's arguments.
pub fn decode(word: i64) -> (r: Result<(i64, Vec<Mode>), VmError>)
    ensures
        decodes_to(word, r),
{
    if word < 0 {
        return Err(VmError::DecodeError);
    }
    let op: i64 = word % 100;
    let n: i64 = match argc(op) {
        Ok(n) => n,
        Err(e) => {
            return Err(e);
        },
    };
    let mut arginfo: i64 = word / 100;
    let mut modes: Vec<Mode> = Vec::new();
    let mut k: i64 = 0;
    while k < n
        invariant
            0 <= k <= n,
            n == spec_argc(op as int),
            word >= 0,
            op == word % 100,
            recognized(op as int),
            modes@.len() == k,
            k == 0 ==> arginfo == word / 100,
            k == 1 ==> arginfo == word / 1000,
            k == 2 ==> arginfo == word / 10000,
            k == 3 ==> arginfo == word / 100000,
            forall|j: int| 0 <= j < k ==> mode_digit(word as int, j) <= 2,
            forall|j: int| 0 <= j < k ==> modes@[j] == spec_mode(mode_digit(word as int, j)),
        decreases n - k,
    {
        let digit: i64 = arginfo % 10;
        assert(digit == mode_digit(word as int, k as int));
        let mode: Mode = if digit == 0 {
            Mode::Normal
        } else if digit == 1 {
            Mode::Imm
        } else if digit == 2 {
            Mode::Base
        } else {
            return Err(VmError::DecodeError);
        };
        modes.push(mode);
        arginfo = arginfo / 10;
        k = k + 1;
    }
    assert(modes@ =~= spec_modes(word as int));
    Ok((op, modes))
}

} // verus!

use vstd::prelude::*;

verus! {

/// Why a machine stopped without halting. Every one of these is fatal: the
/// machine that reported it is not meant to be resumed.
#[derive(Clone, Copy, Debug, PartialEq, Eq)]
pub enum VmError {
    /// The opcode word is negative, names no known operation, or holds an
    /// addressing-mode digit above 2 in one of its argument positions.
    DecodeError,
    /// An immediate-mode argument stands where an address to write to is needed.
    InvalidWriteTarget,
    /// The adapter has no input left and does not support suspension.
    ExhaustedInput,
    /// A negative address was read, written or reached by the instruction pointer.
    InvalidAddress,
    /// A sum, product, address or instruction pointer left the 64-bit range.
    Overflow,
    /// The adapter refused the value handed to it by an output instruction.
    OutputRefused,
}

} // verus!

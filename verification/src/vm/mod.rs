//! The Intcode virtual machine: opcode words, memory, instructions and the
//! execution engine.

pub mod error;
pub mod opcode;
pub mod machine;
pub mod instruction;
pub mod adapter;
pub mod semantics;
pub mod engine;
pub mod laws;

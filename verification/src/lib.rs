//! A verified Intcode virtual machine, together with the small puzzle
//! solvers and I/O adapters that drive it.

pub mod vm;
pub mod adapters;
pub mod puzzles;

//! Adapters: the things a machine reads its input from and writes its
//! output to.

pub mod fixed;
pub mod queue;
pub mod painter;
pub mod arcade;
pub mod tractor;
pub mod droid;
pub mod pipeline;

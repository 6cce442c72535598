//! Small self-contained solvers that do not need the machine.

pub mod password;
pub mod moves;
pub mod wires;
pub mod fuel;
pub mod image;
pub mod signal;
pub mod numbers;
pub mod moons;
pub mod asteroids;
pub mod order;
pub mod orbits;
pub mod donut;
pub mod reactions;
pub mod paths;
pub mod vault;

//! An Intcode virtual machine, and the puzzles around it: the drivers that
//! embed the machine and the puzzles that do without it.

pub mod decode;
pub mod machine;
pub mod computer;
pub mod text;

pub mod amplifiers;
pub mod arcade;
pub mod droid;
pub mod fuel;
pub mod gravity;
pub mod image;
pub mod moons;
pub mod orbits;
pub mod painting;
pub mod password;
pub mod reactions;
pub mod scaffold;
pub mod signal;
pub mod wires;

pub use computer::IntComputer;
pub use machine::ProgramState;

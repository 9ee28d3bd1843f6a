//! A virtual machine for a minimal byte-tape language.
//!
//! Source text is compiled once into a sequence of decoded instructions whose
//! loop brackets carry their jump targets; the machine then runs that sequence
//! against a tape of byte cells that grows at either end.

pub mod compiler;
pub mod instruction;
pub mod interpreter;
pub mod machine;
pub mod nesting;
mod positions;
mod reading;

pub use compiler::preprocess;
pub use instruction::{CompileError, Instruction, RuntimeError};
pub use interpreter::{processed_interpret, Execution, Outcome};
pub use machine::Machine;
pub use nesting::{check_jumps, find_loop_end, find_loop_start};

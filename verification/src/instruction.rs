//! The decoded instructions and the two ways a run can fail.

use vstd::prelude::*;

verus! {

/// One decoded instruction of a compiled program.
///
/// The count of a move says how many consecutive move characters it stands
/// for. The index carried by a loop instruction is the position, in the same
/// program, of the bracket that closes or opens the loop.
#[derive(Clone, Copy, Debug, PartialEq, Eq, Structural)]
pub enum Instruction {
    /// Add one to the current cell, 255 wrapping to 0.
    Increment,
    /// Subtract one from the current cell, 0 wrapping to 255.
    Decrement,
    /// Move the data pointer left by the given count.
    MoveLeft(usize),
    /// Move the data pointer right by the given count.
    MoveRight(usize),
    /// Emit the current cell.
    Output,
    /// Store the next input byte in the current cell.
    Input,
    /// Skip to the matching `LoopEnd`, whose index is given, when the current
    /// cell is zero.
    LoopStart(usize),
    /// Go back to the matching `LoopStart`, whose index is given, when the
    /// current cell is not zero.
    LoopEnd(usize),
}

/// Why a source text was rejected.
#[derive(Clone, Copy, Debug, PartialEq, Eq, Structural)]
pub enum CompileError {
    /// A `]` without an earlier unclosed `[`, or a `[` that is never closed.
    MismatchedBracket,
}

/// Why a run was aborted.
#[derive(Clone, Copy, Debug, PartialEq, Eq, Structural)]
pub enum RuntimeError {
    /// An `Input` instruction found the input source empty.
    InputExhausted,
}

} // verus!

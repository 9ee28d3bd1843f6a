//! The machine: a tape of byte cells, a data pointer and a program counter.
//!
//! `MachineView` is the mathematical machine, with a tape that can grow
//! without limit. `Machine` is the one that runs; its tape is a `Vec<u8>`, so
//! an instruction can be stepped only while the grown tape still has a length
//! that fits in `usize`.

use crate::instruction::{Instruction, RuntimeError};
use crate::nesting::jumps_in_bounds;
use vstd::prelude::*;

verus! {

/// A tape of `n` fresh cells.
pub open spec fn zeros(n: int) -> Seq<u8> {
    Seq::new(n as nat, |i: int| 0u8)
}

/// The state of a machine: the tape, the index of the current cell, and the
/// index of the next instruction.
pub struct MachineView {
    pub tape: Seq<u8>,
    pub pointer: int,
    pub pc: int,
}

impl MachineView {
    /// The state in which every run starts: one cell holding zero, the
    /// pointer on it, the program counter at the first instruction.
    pub open spec fn initial() -> MachineView {
        MachineView { tape: seq![0u8], pointer: 0, pc: 0 }
    }

    /// The tape has at least one cell and the pointer is on one of them.
    pub open spec fn valid(self) -> bool {
        &&& 0 <= self.pointer < self.tape.len()
        &&& 0 <= self.pc
    }

    /// The value of the current cell.
    pub open spec fn cell(self) -> u8 {
        self.tape[self.pointer]
    }

    /// The program counter has run past the last instruction of `ops`.
    pub open spec fn halted(self, ops: Seq<Instruction>) -> bool {
        self.pc >= ops.len()
    }

    /// The same state with `value` in the current cell and the program
    /// counter on the next instruction.
    pub open spec fn store(self, value: u8) -> MachineView {
        MachineView { tape: self.tape.update(self.pointer, value), pc: self.pc + 1, ..self }
    }

    /// The same state with the program counter just behind `index`.
    pub open spec fn resume_after(self, index: int) -> MachineView {
        MachineView { pc: index + 1, ..self }
    }

    /// The state after `count` moves to the left. Where the pointer would
    /// leave the tape, the missing cells are put in front of it, and the
    /// pointer is on the first of them.
    pub open spec fn move_left(self, count: int) -> MachineView {
        if self.pointer < count {
            MachineView {
                tape: zeros(count - self.pointer) + self.tape,
                pointer: 0,
                pc: self.pc + 1,
            }
        } else {
            MachineView { pointer: self.pointer - count, pc: self.pc + 1, ..self }
        }
    }

    /// The state after `count` moves to the right. Where the pointer would
    /// leave the tape, cells are added behind it until the pointer is on the
    /// last of them.
    pub open spec fn move_right(self, count: int) -> MachineView {
        let target = self.pointer + count;
        MachineView {
            tape: if target >= self.tape.len() {
                self.tape + zeros(target + 1 - self.tape.len())
            } else {
                self.tape
            },
            pointer: target,
            pc: self.pc + 1,
        }
    }

    /// The state after the instruction `op`, with `input` as what the input
    /// source gave: its next byte, or `None` where it has no more. An `Input`
    /// that gets no byte leaves the state as it is.
    pub open spec fn apply(self, op: Instruction, input: Option<u8>) -> MachineView {
        match op {
            Instruction::Increment => self.store(((self.cell() + 1) % 256) as u8),
            Instruction::Decrement => self.store(((self.cell() - 1) % 256) as u8),
            Instruction::MoveLeft(count) => self.move_left(count as int),
            Instruction::MoveRight(count) => self.move_right(count as int),
            Instruction::Output => self.resume_after(self.pc),
            Instruction::Input => match input {
                Some(byte) => self.store(byte),
                None => self,
            },
            Instruction::LoopStart(close) => if self.cell() == 0 {
                self.resume_after(close as int)
            } else {
                self.resume_after(self.pc)
            },
            Instruction::LoopEnd(open) => if self.cell() != 0 {
                self.resume_after(open as int)
            } else {
                self.resume_after(self.pc)
            },
        }
    }

    /// The byte that the instruction `op` sends to the output sink, if any.
    pub open spec fn emitted(self, op: Instruction) -> Option<u8> {
        if op is Output {
            Some(self.cell())
        } else {
            None
        }
    }

    /// The tape as the instruction `op` leaves it still has a length that a
    /// `usize` can hold.
    pub open spec fn has_room(self, op: Instruction) -> bool {
        self.apply(op, None).tape.len() <= usize::MAX
    }
}

/// No instruction breaks the tape: after it the tape still has at least one
/// cell, and the pointer is on one of them.
pub proof fn lemma_apply_keeps_valid(machine: MachineView, op: Instruction, input: Option<u8>)
    requires
        machine.valid(),
    ensures
        machine.apply(op, input).valid(),
{
}

/// Cells wrap around: `Decrement` takes a cell from 0 to 255, and `Increment`
/// takes it from 255 to 0.
pub proof fn lemma_cells_wrap(machine: MachineView, input: Option<u8>)
    requires
        machine.valid(),
    ensures
        machine.cell() == 0 ==> machine.apply(Instruction::Decrement, input).cell() == 255,
        machine.cell() == 255 ==> machine.apply(Instruction::Increment, input).cell() == 0,
{
}

/// A counted move does what that many single moves do: two moves in one
/// direction, one after the other, leave the tape and the pointer as one move
/// by the sum of their counts does.
pub proof fn lemma_moves_add_up(machine: MachineView, first: nat, second: nat)
    requires
        machine.valid(),
    ensures
        machine.move_right(first as int).move_right(second as int).tape == machine.move_right(
            (first + second) as int,
        ).tape,
        machine.move_right(first as int).move_right(second as int).pointer == machine.move_right(
            (first + second) as int,
        ).pointer,
        machine.move_left(first as int).move_left(second as int).tape == machine.move_left(
            (first + second) as int,
        ).tape,
        machine.move_left(first as int).move_left(second as int).pointer == machine.move_left(
            (first + second) as int,
        ).pointer,
{
    assert(machine.move_right(first as int).move_right(second as int).tape =~= machine.move_right(
        (first + second) as int,
    ).tape);
    assert(machine.move_left(first as int).move_left(second as int).tape =~= machine.move_left(
        (first + second) as int,
    ).tape);
}

/// The machine that runs a program.
pub struct Machine {
    tape: Vec<u8>,
    pointer: usize,
    pc: usize,
}

impl View for Machine {
    type V = MachineView;

    closed spec fn view(&self) -> MachineView {
        MachineView { tape: self.tape@, pointer: self.pointer as int, pc: self.pc as int }
    }
}

impl Machine {
    /// The tape has at least one cell and the pointer is on one of them.
    pub open spec fn wf(&self) -> bool {
        self@.valid()
    }

    /// A machine in the initial state.
    pub fn new() -> (machine: Machine)
        ensures
            machine.wf(),
            machine@ == MachineView::initial(),
    {
        let mut tape: Vec<u8> = Vec::new();
        tape.push(0);
        Machine { tape, pointer: 0, pc: 0 }
    }

    /// The cells of the tape, from its first to its last.
    pub fn tape(&self) -> (tape: &Vec<u8>)
        ensures
            tape@ == self@.tape,
    {
        &self.tape
    }

    /// The index of the current cell.
    pub fn pointer(&self) -> (pointer: usize)
        ensures
            pointer == self@.pointer,
    {
        self.pointer
    }

    /// The index of the next instruction.
    pub fn pc(&self) -> (pc: usize)
        ensures
            pc == self@.pc,
    {
        self.pc
    }

    /// The value of the current cell.
    pub fn cell(&self) -> (value: u8)
        requires
            self.wf(),
        ensures
            value == self@.cell(),
    {
        self.tape[self.pointer]
    }

    /// Whether the program counter has run past the end of `ops`.
    pub fn halted(&self, ops: &Vec<Instruction>) -> (done: bool)
        ensures
            done == self@.halted(ops@),
    {
        self.pc >= ops.len()
    }

    /// Whether the next instruction is an `Input`, so that the caller has to
    /// ask the input source for a byte before the step.
    pub fn awaits_input(&self, ops: &Vec<Instruction>) -> (waiting: bool)
        ensures
            waiting == (!self@.halted(ops@) && ops@[self@.pc] is Input),
    {
        if self.pc < ops.len() {
            match ops[self.pc] {
                Instruction::Input => true,
                _ => false,
            }
        } else {
            false
        }
    }

    /// Whether the next instruction can be stepped: whether the tape, as that
    /// instruction leaves it, still fits in the address range.
    pub fn has_room(&self, ops: &Vec<Instruction>) -> (fits: bool)
        requires
            self.wf(),
        ensures
            fits == (self@.halted(ops@) || self@.has_room(ops@[self@.pc])),
    {
        if self.pc >= ops.len() {
            return true;
        }
        let limit: usize = self.tape.len();
        match ops[self.pc] {
            Instruction::MoveRight(count) => count < usize::MAX - self.pointer,
            Instruction::MoveLeft(count) => count <= self.pointer || count - self.pointer
                <= usize::MAX - limit,
            _ => true,
        }
    }

    /// Moves the pointer `count` cells to the left, growing the tape at its
    /// front where it has to.
    fn go_left(&mut self, count: usize)
        requires
            old(self).wf(),
            old(self)@.move_left(count as int).tape.len() <= usize::MAX,
            old(self)@.pc < usize::MAX,
        ensures
            final(self)@ == old(self)@.move_left(count as int),
    {
        if count > self.pointer {
            let missing: usize = count - self.pointer;
            let mut grown: Vec<u8> = Vec::new();
            while grown.len() < missing
                invariant
                    grown@ =~= zeros(grown.len() as int),
                    grown.len() <= missing,
                decreases missing - grown.len(),
            {
                grown.push(0);
            }
            grown.append(&mut self.tape);
            self.tape = grown;
            self.pointer = 0;
        } else {
            self.pointer -= count;
        }
        self.pc += 1;
    }

    /// Moves the pointer `count` cells to the right, growing the tape at its
    /// end where it has to.
    fn go_right(&mut self, count: usize)
        requires
            old(self).wf(),
            old(self)@.move_right(count as int).tape.len() <= usize::MAX,
            old(self)@.pc < usize::MAX,
        ensures
            final(self)@ == old(self)@.move_right(count as int),
    {
        let target: usize = self.pointer + count;
        while self.tape.len() <= target
            invariant
                target < usize::MAX,
                self.pointer == old(self).pointer,
                self.pc == old(self).pc,
                old(self).tape.len() <= self.tape.len(),
                self.tape.len() <= target + 1 || self.tape.len() == old(self).tape.len(),
                self.tape@ =~= old(self).tape@ + zeros(self.tape.len() - old(self).tape.len()),
            decreases target + 1 - self.tape.len(),
        {
            self.tape.push(0);
        }
        self.pointer = target;
        self.pc += 1;
    }

    /// Runs the next instruction of `ops`.
    ///
    /// `input` is what the input source gave for this step: its next byte, or
    /// `None` where it has no more. The byte is used by an `Input`
    /// instruction and ignored by every other. The result is the byte that
    /// the instruction sends to the output sink, if any. An `Input` without a
    /// byte fails and leaves the machine as it was.
    pub fn step(&mut self, ops: &Vec<Instruction>, input: Option<u8>) -> (result: Result<
        Option<u8>,
        RuntimeError,
    >)
        requires
            old(self).wf(),
            jumps_in_bounds(ops@),
            !old(self)@.halted(ops@),
            old(self)@.has_room(ops@[old(self)@.pc]),
        ensures
            final(self).wf(),
            final(self)@ == old(self)@.apply(ops@[old(self)@.pc], input),
            result is Err <==> ops@[old(self)@.pc] is Input && input is None,
            result matches Err(e) ==> e == RuntimeError::InputExhausted,
            result matches Ok(byte) ==> byte == old(self)@.emitted(ops@[old(self)@.pc]),
    {
        let pc: usize = self.pc;
        let op: Instruction = ops[pc];
        assert(pc < ops.len());
        let cell: u8 = self.tape[self.pointer];
        match op {
            Instruction::Increment => {
                self.tape[self.pointer] = if cell == 255 {
                    0
                } else {
                    cell + 1
                };
                self.pc = pc + 1;
                Ok(None)
            },
            Instruction::Decrement => {
                self.tape[self.pointer] = if cell == 0 {
                    255
                } else {
                    cell - 1
                };
                self.pc = pc + 1;
                Ok(None)
            },
            Instruction::MoveLeft(count) => {
                self.go_left(count);
                Ok(None)
            },
            Instruction::MoveRight(count) => {
                self.go_right(count);
                Ok(None)
            },
            Instruction::Output => {
                self.pc = pc + 1;
                Ok(Some(cell))
            },
            Instruction::Input => match input {
                Some(byte) => {
                    self.tape[self.pointer] = byte;
                    self.pc = pc + 1;
                    Ok(None)
                },
                None => Err(RuntimeError::InputExhausted),
            },
            Instruction::LoopStart(close) => {
                self.pc = if cell == 0 {
                    close + 1
                } else {
                    pc + 1
                };
                Ok(None)
            },
            Instruction::LoopEnd(open) => {
                self.pc = if cell != 0 {
                    open + 1
                } else {
                    pc + 1
                };
                Ok(None)
            },
        }
    }
}

} // verus!

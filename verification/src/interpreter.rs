//! Running a program to its end, or until a budget of steps is used up.
//!
//! The input source is a sequence of bytes that the run consumes from the
//! front; the output sink is the sequence of bytes that it has emitted.

use crate::compiler::{balanced, compiled, is_command, lemma_comments_compile_to_nothing};
use crate::instruction::{Instruction, RuntimeError};
use crate::machine::{lemma_apply_keeps_valid, Machine, MachineView};
use crate::nesting::jumps_in_bounds;
use vstd::prelude::*;

verus! {

/// Why a run came to a stop.
#[derive(Clone, Copy, Debug, PartialEq, Eq, Structural)]
pub enum Outcome {
    /// The program counter ran past the last instruction.
    Halted,
    /// An instruction failed; nothing after it was run.
    Failed(RuntimeError),
    /// The budget of steps was used up before the program came to its end.
    BudgetExhausted,
    /// The next move would need a tape longer than the address range.
    TapeExhausted,
}

/// A run at some point, or at its end: the machine, the bytes emitted, and
/// the numbers of input bytes consumed and of instructions run.
pub struct Progress {
    pub machine: MachineView,
    pub output: Seq<u8>,
    pub consumed: nat,
    pub steps: nat,
}

/// A finished run: why it stopped, and where.
pub struct ExecutionView {
    pub outcome: Outcome,
    pub end: Progress,
}

impl Progress {
    /// The start of every run: the initial machine, nothing emitted, nothing
    /// consumed.
    pub open spec fn start() -> Progress {
        Progress { machine: MachineView::initial(), output: Seq::empty(), consumed: 0, steps: 0 }
    }

    /// The instruction that is run next.
    pub open spec fn current(self, ops: Seq<Instruction>) -> Instruction {
        ops[self.machine.pc]
    }

    /// What the input source gives next: the first byte not yet consumed, or
    /// `None` where all are.
    pub open spec fn next_input(self, input: Seq<u8>) -> Option<u8> {
        if self.consumed < input.len() {
            Some(input[self.consumed as int])
        } else {
            None
        }
    }

    /// Why the run stops here, if it does; `None` where it goes on. `budget`
    /// is the number of steps that the run may still take.
    pub open spec fn stop(self, ops: Seq<Instruction>, input: Seq<u8>, budget: nat) -> Option<
        Outcome,
    > {
        if self.machine.halted(ops) {
            Some(Outcome::Halted)
        } else if budget == 0 {
            Some(Outcome::BudgetExhausted)
        } else if !self.machine.has_room(self.current(ops)) {
            Some(Outcome::TapeExhausted)
        } else if self.current(ops) is Input && self.next_input(input) is None {
            Some(Outcome::Failed(RuntimeError::InputExhausted))
        } else {
            None
        }
    }

    /// The run one instruction later.
    pub open spec fn advance(self, ops: Seq<Instruction>, input: Seq<u8>) -> Progress {
        let op = self.current(ops);
        Progress {
            machine: self.machine.apply(op, self.next_input(input)),
            output: match self.machine.emitted(op) {
                Some(byte) => self.output.push(byte),
                None => self.output,
            },
            consumed: if op is Input {
                self.consumed + 1
            } else {
                self.consumed
            },
            steps: self.steps + 1,
        }
    }

    /// The run from here on to where it stops, within `budget` steps.
    pub open spec fn run(self, ops: Seq<Instruction>, input: Seq<u8>, budget: nat) -> ExecutionView
        decreases budget,
    {
        match self.stop(ops, input, budget) {
            Some(outcome) => ExecutionView { outcome, end: self },
            None => self.advance(ops, input).run(ops, input, (budget - 1) as nat),
        }
    }
}

/// What running `ops` on `input` comes to, within `budget` steps.
pub open spec fn interpreted(ops: Seq<Instruction>, input: Seq<u8>, budget: nat) -> ExecutionView {
    Progress::start().run(ops, input, budget)
}

/// A run never breaks the tape: where it starts with the pointer on a cell,
/// it ends with the pointer on a cell.
pub proof fn lemma_run_keeps_valid(
    here: Progress,
    ops: Seq<Instruction>,
    input: Seq<u8>,
    budget: nat,
)
    requires
        here.machine.valid(),
    ensures
        here.run(ops, input, budget).end.machine.valid(),
    decreases budget,
{
    if here.stop(ops, input, budget) is None {
        lemma_apply_keeps_valid(here.machine, here.current(ops), here.next_input(input));
        lemma_run_keeps_valid(here.advance(ops, input), ops, input, (budget - 1) as nat);
    }
}

/// A source text made of comments alone compiles to the empty program, and
/// running that program ends at once: it halts in the initial state, with no
/// instruction run, no input consumed and nothing emitted, whatever the
/// input and the budget.
pub proof fn lemma_comments_do_nothing(src: Seq<char>, input: Seq<u8>, budget: nat)
    requires
        forall|i: int| 0 <= i < src.len() ==> !is_command(#[trigger] src[i]),
    ensures
        balanced(src),
        compiled(src) == Seq::<Instruction>::empty(),
        interpreted(compiled(src), input, budget) == (ExecutionView {
            outcome: Outcome::Halted,
            end: Progress::start(),
        }),
{
    lemma_comments_compile_to_nothing(src);
}

/// A finished run: why it stopped, and the machine, the output and the
/// counts at that point.
pub struct Execution {
    /// Why the run stopped.
    pub outcome: Outcome,
    /// The machine as the run left it.
    pub machine: Machine,
    /// The bytes emitted, in order.
    pub output: Vec<u8>,
    /// The number of input bytes consumed.
    pub consumed: usize,
    /// The number of instructions run.
    pub steps: usize,
}

impl View for Execution {
    type V = ExecutionView;

    open spec fn view(&self) -> ExecutionView {
        ExecutionView {
            outcome: self.outcome,
            end: Progress {
                machine: self.machine@,
                output: self.output@,
                consumed: self.consumed as nat,
                steps: self.steps as nat,
            },
        }
    }
}

/// Runs a compiled program on the bytes of `input`, for at most `budget`
/// instructions.
///
/// The run starts from the initial machine. It ends when the program counter
/// passes the last instruction, when an `Input` finds no byte left, when the
/// budget is used up, or when a move would need a tape longer than the
/// address range. The result says which, and holds the machine, the output
/// and the counts as the run left them.
pub fn processed_interpret(ops: Vec<Instruction>, input: &[u8], budget: usize) -> (execution:
    Execution)
    requires
        jumps_in_bounds(ops@),
    ensures
        execution@ == interpreted(ops@, input@, budget as nat),
        execution.machine.wf(),
{
    let mut machine: Machine = Machine::new();
    let mut output: Vec<u8> = Vec::new();
    let mut consumed: usize = 0;
    let mut steps: usize = 0;
    let ghost mut here: Progress = Progress::start();
    while steps < budget
        invariant
            jumps_in_bounds(ops@),
            machine.wf(),
            steps <= budget,
            consumed <= input.len(),
            here == (Progress {
                machine: machine@,
                output: output@,
                consumed: consumed as nat,
                steps: steps as nat,
            }),
            here.run(ops@, input@, (budget - steps) as nat) == interpreted(
                ops@,
                input@,
                budget as nat,
            ),
        decreases budget - steps,
    {
        if machine.halted(&ops) {
            return Execution { outcome: Outcome::Halted, machine, output, consumed, steps };
        }
        if !machine.has_room(&ops) {
            return Execution { outcome: Outcome::TapeExhausted, machine, output, consumed, steps };
        }
        let reading: bool = machine.awaits_input(&ops);
        let byte: Option<u8> = if consumed < input.len() {
            Some(input[consumed])
        } else {
            None
        };
        match machine.step(&ops, byte) {
            Err(error) => {
                return Execution {
                    outcome: Outcome::Failed(error),
                    machine,
                    output,
                    consumed,
                    steps,
                };
            },
            Ok(emitted) => {
                if let Some(value) = emitted {
                    output.push(value);
                }
                if reading {
                    consumed += 1;
                }
                steps += 1;
                proof {
                    here = here.advance(ops@, input@);
                }
            },
        }
    }
    let outcome: Outcome = if machine.halted(&ops) {
        Outcome::Halted
    } else {
        Outcome::BudgetExhausted
    };
    Execution { outcome, machine, output, consumed, steps }
}

} // verus!

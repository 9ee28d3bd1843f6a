use tetanus::{
    preprocess, processed_interpret, Execution, Instruction, Machine, Outcome, RuntimeError,
};

const BUDGET: usize = 100_000;

fn run(source: &str, input: &[u8], budget: usize) -> Execution {
    let ops = preprocess(String::from(source)).unwrap();
    processed_interpret(ops, input, budget)
}

#[test]
fn comments_run_to_nothing() {
    let done = run("nothing to see", &[1, 2, 3], BUDGET);
    assert_eq!(done.outcome, Outcome::Halted);
    assert_eq!(done.steps, 0);
    assert_eq!(done.consumed, 0);
    assert_eq!(done.output, Vec::<u8>::new());
    assert_eq!(done.machine.tape(), &vec![0u8]);
    assert_eq!(done.machine.pointer(), 0);
    assert_eq!(done.machine.pc(), 0);
}

#[test]
fn empty_program_halts_without_a_budget() {
    let done = run("", &[], 0);
    assert_eq!(done.outcome, Outcome::Halted);
    assert_eq!(done.steps, 0);
}

#[test]
fn fresh_machine_has_one_zero_cell() {
    let machine = Machine::new();
    assert_eq!(machine.tape(), &vec![0u8]);
    assert_eq!(machine.pointer(), 0);
    assert_eq!(machine.pc(), 0);
    assert_eq!(machine.cell(), 0);
}

#[test]
fn decrement_wraps_from_0_to_255() {
    let done = run("-", &[], BUDGET);
    assert_eq!(done.outcome, Outcome::Halted);
    assert_eq!(done.machine.cell(), 255);
}

#[test]
fn increment_wraps_from_255_to_0() {
    let before = run("-", &[], BUDGET);
    assert_eq!(before.machine.cell(), 255);
    let after = run("-+", &[], BUDGET);
    assert_eq!(after.machine.cell(), 0);
    let around = run(&"+".repeat(256), &[], BUDGET);
    assert_eq!(around.machine.cell(), 0);
    let once_more = run(&"+".repeat(257), &[], BUDGET);
    assert_eq!(once_more.machine.cell(), 1);
}

#[test]
fn increment_and_decrement_count_by_one() {
    assert_eq!(run("+++", &[], BUDGET).machine.cell(), 3);
    assert_eq!(run("+++--", &[], BUDGET).machine.cell(), 1);
    assert_eq!(run("---", &[], BUDGET).machine.cell(), 253);
}

#[test]
fn adding_with_a_loop_gives_seven() {
    let done = run("++>+++++[<+>-]<.", &[], BUDGET);
    assert_eq!(done.outcome, Outcome::Halted);
    assert_eq!(done.output, vec![7u8]);
    assert_eq!(done.machine.pointer(), 0);
    assert_eq!(done.machine.cell(), 7);
    assert_eq!(done.machine.tape(), &vec![7u8, 0]);
    assert_eq!(done.consumed, 0);
    // eight instructions up to the loop, its `[` once, five rounds of five
    // instructions each, then `<` and `.`
    assert_eq!(done.steps, 8 + 1 + 5 * 5 + 2);
    assert_eq!(done.machine.pc(), 16);
}

#[test]
fn input_is_echoed() {
    let done = run(",.", &[65], BUDGET);
    assert_eq!(done.outcome, Outcome::Halted);
    assert_eq!(done.output, vec![65u8]);
    assert_eq!(done.consumed, 1);
    assert_eq!(done.steps, 2);
}

#[test]
fn input_is_consumed_in_order() {
    let done = run(",.,.,.", &[3, 1, 2, 9], BUDGET);
    assert_eq!(done.outcome, Outcome::Halted);
    assert_eq!(done.output, vec![3u8, 1, 2]);
    assert_eq!(done.consumed, 3);
}

#[test]
fn input_without_a_byte_fails() {
    let done = run(",", &[], BUDGET);
    assert_eq!(done.outcome, Outcome::Failed(RuntimeError::InputExhausted));
    assert_eq!(done.steps, 0);
    assert_eq!(done.consumed, 0);
    assert_eq!(done.machine.pc(), 0);
    assert_eq!(done.machine.tape(), &vec![0u8]);
}

#[test]
fn failure_keeps_what_was_done_before_it() {
    let done = run("+.>,.>,.+++", &[8], BUDGET);
    assert_eq!(done.outcome, Outcome::Failed(RuntimeError::InputExhausted));
    assert_eq!(done.output, vec![1u8, 8]);
    assert_eq!(done.consumed, 1);
    assert_eq!(done.steps, 6);
    assert_eq!(done.machine.pc(), 6);
    assert_eq!(done.machine.tape(), &vec![1u8, 8, 0]);
    assert_eq!(done.machine.pointer(), 2);
}

#[test]
fn endless_loop_uses_up_the_budget() {
    let done = run("+[]", &[], 10_000);
    assert_eq!(done.outcome, Outcome::BudgetExhausted);
    assert_eq!(done.steps, 10_000);
    assert_eq!(done.machine.cell(), 1);
    assert_eq!(done.output, Vec::<u8>::new());
}

#[test]
fn budget_counts_instructions() {
    let exact = run("+++", &[], 3);
    assert_eq!(exact.outcome, Outcome::Halted);
    assert_eq!(exact.steps, 3);
    let short = run("+++", &[], 2);
    assert_eq!(short.outcome, Outcome::BudgetExhausted);
    assert_eq!(short.steps, 2);
    assert_eq!(short.machine.cell(), 2);
    assert_eq!(short.machine.pc(), 2);
}

#[test]
fn coalesced_move_is_one_step() {
    let done = run(">>>>>", &[], BUDGET);
    assert_eq!(done.steps, 1);
    assert_eq!(done.machine.pointer(), 5);
}

#[test]
fn counted_move_does_what_single_moves_do() {
    let counted = run("+>>>+<<<<<+", &[], BUDGET);
    let single = run("+>.>.>+<.<.<.<.<+", &[], BUDGET);
    assert_eq!(counted.machine.tape(), single.machine.tape());
    assert_eq!(counted.machine.pointer(), single.machine.pointer());
    assert_eq!(counted.machine.tape(), &vec![1u8, 0, 1, 0, 0, 1]);
    assert_eq!(counted.steps, 5);
    assert_eq!(single.steps, 17);
}

#[test]
fn moving_left_off_the_tape_grows_it_in_front() {
    let done = run("<<<+", &[], BUDGET);
    assert_eq!(done.outcome, Outcome::Halted);
    assert!(done.machine.tape().len() >= 4);
    assert_eq!(done.machine.pointer(), 0);
    assert_eq!(done.machine.tape(), &vec![1u8, 0, 0, 0]);
}

#[test]
fn cells_keep_their_values_when_the_tape_grows_in_front() {
    let done = run("+++<<<+", &[], BUDGET);
    assert_eq!(done.machine.tape(), &vec![1u8, 0, 0, 3]);
    assert_eq!(done.machine.pointer(), 0);
    let back = run("+++<<<+>>>.", &[], BUDGET);
    assert_eq!(back.output, vec![3u8]);
    assert_eq!(back.machine.pointer(), 3);
}

#[test]
fn moving_left_inside_the_tape_does_not_grow_it() {
    let done = run(">>>+<<", &[], BUDGET);
    assert_eq!(done.machine.tape(), &vec![0u8, 0, 0, 1]);
    assert_eq!(done.machine.pointer(), 1);
}

#[test]
fn moving_left_partly_off_the_tape_adds_the_missing_cells() {
    let done = run(">>+<<<<<", &[], BUDGET);
    assert_eq!(done.machine.tape(), &vec![0u8, 0, 0, 0, 0, 1]);
    assert_eq!(done.machine.pointer(), 0);
}

#[test]
fn moving_right_off_the_tape_grows_it_behind() {
    let done = run(">", &[], BUDGET);
    assert_eq!(done.machine.tape(), &vec![0u8, 0]);
    assert_eq!(done.machine.pointer(), 1);
    let far = run("+>>>+", &[], BUDGET);
    assert_eq!(far.machine.tape(), &vec![1u8, 0, 0, 1]);
    assert_eq!(far.machine.pointer(), 3);
}

#[test]
fn moving_right_inside_the_tape_does_not_grow_it() {
    let done = run(">>><<>", &[], BUDGET);
    assert_eq!(done.machine.tape(), &vec![0u8, 0, 0, 0]);
    assert_eq!(done.machine.pointer(), 2);
}

#[test]
fn loop_is_skipped_on_a_zero_cell() {
    let done = run("[+.]-", &[], BUDGET);
    assert_eq!(done.outcome, Outcome::Halted);
    assert_eq!(done.output, Vec::<u8>::new());
    assert_eq!(done.steps, 2);
    assert_eq!(done.machine.cell(), 255);
}

#[test]
fn loop_repeats_until_the_cell_is_zero() {
    let done = run("+++[.-]", &[], BUDGET);
    assert_eq!(done.outcome, Outcome::Halted);
    assert_eq!(done.output, vec![3u8, 2, 1]);
    assert_eq!(done.machine.cell(), 0);
    // the `[` is tested once; each round is `.`, `-` and the `]`
    assert_eq!(done.steps, 3 + 1 + 3 * 3);
}

#[test]
fn nested_loops_multiply() {
    let done = run("+++[>++++[>+<-]<-]>>.", &[], BUDGET);
    assert_eq!(done.outcome, Outcome::Halted);
    assert_eq!(done.output, vec![12u8]);
}

#[test]
fn greeting_is_printed() {
    let source = "++++++++[>++++[>++>+++>+++>+<<<<-]>+>+>->>+[<]<-]>>.>---.+++++++..+++.\
                  >>.<-.<.+++.------.--------.>>+.>++.";
    let done = run(source, &[], BUDGET);
    assert_eq!(done.outcome, Outcome::Halted);
    assert_eq!(done.output, b"Hello World!\n".to_vec());
}

#[test]
fn input_is_reversed() {
    let done = run(">,[>,]<[.<]", &[1, 2, 3, 0], BUDGET);
    assert_eq!(done.outcome, Outcome::Halted);
    assert_eq!(done.output, vec![3u8, 2, 1]);
    assert_eq!(done.consumed, 4);
}

#[test]
fn machine_steps_one_instruction_at_a_time() {
    let ops = preprocess(String::from(",+.>")).unwrap();
    let mut machine = Machine::new();
    assert!(!machine.halted(&ops));
    assert!(machine.awaits_input(&ops));
    assert!(machine.has_room(&ops));
    assert_eq!(machine.step(&ops, Some(41)), Ok(None));
    assert_eq!(machine.cell(), 41);
    assert!(!machine.awaits_input(&ops));
    assert_eq!(machine.step(&ops, None), Ok(None));
    assert_eq!(machine.step(&ops, None), Ok(Some(42)));
    assert_eq!(machine.pc(), 3);
    assert!(machine.has_room(&ops));
    assert_eq!(machine.step(&ops, None), Ok(None));
    assert!(machine.halted(&ops));
    assert!(!machine.awaits_input(&ops));
    assert_eq!(machine.tape(), &vec![42u8, 0]);
    assert_eq!(machine.pointer(), 1);
}

#[test]
fn step_without_input_fails_and_changes_nothing() {
    let ops = preprocess(String::from("+>,")).unwrap();
    let mut machine = Machine::new();
    assert_eq!(machine.step(&ops, None), Ok(None));
    assert_eq!(machine.step(&ops, None), Ok(None));
    assert!(machine.awaits_input(&ops));
    assert_eq!(machine.step(&ops, None), Err(RuntimeError::InputExhausted));
    assert_eq!(machine.pc(), 2);
    assert_eq!(machine.pointer(), 1);
    assert_eq!(machine.tape(), &vec![1u8, 0]);
    assert_eq!(machine.step(&ops, Some(5)), Ok(None));
    assert_eq!(machine.tape(), &vec![1u8, 5]);
    assert!(machine.halted(&ops));
}

#[test]
fn unused_input_byte_is_ignored_by_other_instructions() {
    let ops = vec![Instruction::Increment, Instruction::Output];
    let mut machine = Machine::new();
    assert_eq!(machine.step(&ops, Some(200)), Ok(None));
    assert_eq!(machine.step(&ops, Some(200)), Ok(Some(1)));
    assert_eq!(machine.cell(), 1);
}

#[test]
fn jumps_land_behind_the_partner() {
    let ops = preprocess(String::from("[-]+[-]")).unwrap();
    let mut machine = Machine::new();
    // cell is zero: the first loop is skipped
    assert_eq!(machine.step(&ops, None), Ok(None));
    assert_eq!(machine.pc(), 3);
    assert_eq!(machine.step(&ops, None), Ok(None));
    // cell is one: the second loop is entered
    assert_eq!(machine.step(&ops, None), Ok(None));
    assert_eq!(machine.pc(), 5);
    assert_eq!(machine.step(&ops, None), Ok(None));
    // cell is zero again: the `]` lets the run go on
    assert_eq!(machine.step(&ops, None), Ok(None));
    assert_eq!(machine.pc(), 7);
    assert!(machine.halted(&ops));
}

#[test]
fn loop_end_goes_back_behind_its_loop_start() {
    let ops = preprocess(String::from("++[-]")).unwrap();
    let mut machine = Machine::new();
    for _ in 0..4 {
        assert_eq!(machine.step(&ops, None), Ok(None));
    }
    assert_eq!(machine.pc(), 4);
    assert_eq!(machine.cell(), 1);
    assert_eq!(machine.step(&ops, None), Ok(None));
    assert_eq!(machine.pc(), 3);
}

#[test]
fn move_that_would_overflow_the_tape_has_no_room() {
    let ops = vec![Instruction::MoveRight(usize::MAX)];
    let machine = Machine::new();
    assert!(!machine.has_room(&ops));
    let done = processed_interpret(ops, &[], BUDGET);
    assert_eq!(done.outcome, Outcome::TapeExhausted);
    assert_eq!(done.steps, 0);
    let left = vec![Instruction::MoveLeft(usize::MAX)];
    assert!(!Machine::new().has_room(&left));
    assert_eq!(processed_interpret(left, &[], BUDGET).outcome, Outcome::TapeExhausted);
}

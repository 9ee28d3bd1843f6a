use tetanus::{
    check_jumps, find_loop_end, find_loop_start, preprocess, CompileError, Instruction,
};

fn compile(source: &str) -> Result<Vec<Instruction>, CompileError> {
    preprocess(String::from(source))
}

/// The pairs of brackets of a program, found by counting depth and without
/// looking at the indices that the brackets carry.
fn pairs_by_scanning(ops: &[Instruction]) -> Vec<(usize, usize)> {
    let mut pairs = Vec::new();
    for open in 0..ops.len() {
        if let Instruction::LoopStart(_) = ops[open] {
            let mut depth = 0usize;
            for at in open + 1..ops.len() {
                match ops[at] {
                    Instruction::LoopStart(_) => depth += 1,
                    Instruction::LoopEnd(_) => {
                        if depth == 0 {
                            pairs.push((open, at));
                            break;
                        }
                        depth -= 1;
                    }
                    _ => {}
                }
            }
        }
    }
    pairs
}

/// The pairs of brackets of a program as its jump targets give them.
fn pairs_by_targets(ops: &[Instruction]) -> Vec<(usize, usize)> {
    let mut pairs = Vec::new();
    for (at, op) in ops.iter().enumerate() {
        if let Instruction::LoopStart(close) = op {
            pairs.push((at, *close));
        }
    }
    pairs
}

/// The commands that a program stands for, written out.
fn written_out(ops: &[Instruction]) -> String {
    let mut text = String::new();
    for op in ops {
        match op {
            Instruction::Increment => text.push('+'),
            Instruction::Decrement => text.push('-'),
            Instruction::MoveLeft(count) => text.push_str(&"<".repeat(*count)),
            Instruction::MoveRight(count) => text.push_str(&">".repeat(*count)),
            Instruction::Output => text.push('.'),
            Instruction::Input => text.push(','),
            Instruction::LoopStart(_) => text.push('['),
            Instruction::LoopEnd(_) => text.push(']'),
        }
    }
    text
}

#[test]
fn program_written_out_is_the_source_without_comments() {
    let source = "read , then [ > + + < - ] go >> and print . <<<< (done)";
    let ops = compile(source).unwrap();
    assert_eq!(written_out(&ops), ",[>++<-]>>.<<<<");
    for pair in ops.windows(2) {
        assert!(!matches!(pair, [Instruction::MoveRight(_), Instruction::MoveRight(_)]));
        assert!(!matches!(pair, [Instruction::MoveLeft(_), Instruction::MoveLeft(_)]));
    }
    for op in &ops {
        if let Instruction::MoveLeft(count) | Instruction::MoveRight(count) = op {
            assert!(*count >= 1);
        }
    }
}

#[test]
fn empty_source_compiles_to_empty_program() {
    assert_eq!(compile(""), Ok(vec![]));
}

#[test]
fn comments_compile_to_empty_program() {
    assert_eq!(compile("no commands here\n\t 0123456789 abc XYZ !?#"), Ok(vec![]));
}

#[test]
fn non_ascii_comments_are_skipped() {
    assert_eq!(compile("é+ü-→"), Ok(vec![Instruction::Increment, Instruction::Decrement]));
}

#[test]
fn each_command_has_its_instruction() {
    assert_eq!(
        compile("+-<>.,[]"),
        Ok(vec![
            Instruction::Increment,
            Instruction::Decrement,
            Instruction::MoveLeft(1),
            Instruction::MoveRight(1),
            Instruction::Output,
            Instruction::Input,
            Instruction::LoopStart(7),
            Instruction::LoopEnd(6),
        ])
    );
}

#[test]
fn single_close_is_a_mismatched_bracket() {
    assert_eq!(compile("]"), Err(CompileError::MismatchedBracket));
}

#[test]
fn single_open_is_a_mismatched_bracket() {
    assert_eq!(compile("["), Err(CompileError::MismatchedBracket));
}

#[test]
fn close_before_open_is_a_mismatched_bracket() {
    assert_eq!(compile("]["), Err(CompileError::MismatchedBracket));
}

#[test]
fn unclosed_outer_loop_is_a_mismatched_bracket() {
    assert_eq!(compile("+[[-]"), Err(CompileError::MismatchedBracket));
}

#[test]
fn surplus_close_is_a_mismatched_bracket() {
    assert_eq!(compile("[-]]+"), Err(CompileError::MismatchedBracket));
}

#[test]
fn moves_to_the_right_coalesce() {
    assert_eq!(compile(">"), Ok(vec![Instruction::MoveRight(1)]));
    assert_eq!(compile(">>>>>"), Ok(vec![Instruction::MoveRight(5)]));
    let long = ">".repeat(1000);
    assert_eq!(compile(&long), Ok(vec![Instruction::MoveRight(1000)]));
}

#[test]
fn moves_to_the_left_coalesce() {
    assert_eq!(compile("<"), Ok(vec![Instruction::MoveLeft(1)]));
    assert_eq!(compile("<<<"), Ok(vec![Instruction::MoveLeft(3)]));
    let long = "<".repeat(257);
    assert_eq!(compile(&long), Ok(vec![Instruction::MoveLeft(257)]));
}

#[test]
fn moves_in_opposite_directions_stay_apart() {
    assert_eq!(
        compile(">><<<>"),
        Ok(vec![
            Instruction::MoveRight(2),
            Instruction::MoveLeft(3),
            Instruction::MoveRight(1),
        ])
    );
}

#[test]
fn comments_do_not_break_a_run_of_moves() {
    assert_eq!(compile("> then >\n>"), Ok(vec![Instruction::MoveRight(3)]));
}

#[test]
fn other_commands_break_a_run_of_moves() {
    assert_eq!(
        compile(">>+>>[>]>"),
        Ok(vec![
            Instruction::MoveRight(2),
            Instruction::Increment,
            Instruction::MoveRight(2),
            Instruction::LoopStart(5),
            Instruction::MoveRight(1),
            Instruction::LoopEnd(3),
            Instruction::MoveRight(1),
        ])
    );
}

#[test]
fn brackets_carry_the_index_of_their_partner() {
    assert_eq!(
        compile("+[-]"),
        Ok(vec![
            Instruction::Increment,
            Instruction::LoopStart(3),
            Instruction::Decrement,
            Instruction::LoopEnd(1),
        ])
    );
}

#[test]
fn nested_and_adjacent_loops_are_resolved() {
    assert_eq!(
        compile("[[]][]"),
        Ok(vec![
            Instruction::LoopStart(3),
            Instruction::LoopStart(2),
            Instruction::LoopEnd(1),
            Instruction::LoopEnd(0),
            Instruction::LoopStart(5),
            Instruction::LoopEnd(4),
        ])
    );
}

#[test]
fn indices_count_instructions_not_characters() {
    assert_eq!(
        compile("a >>> b [ c <<< d ] e"),
        Ok(vec![
            Instruction::MoveRight(3),
            Instruction::LoopStart(3),
            Instruction::MoveLeft(3),
            Instruction::LoopEnd(1),
        ])
    );
}

#[test]
fn jump_targets_give_back_the_nesting() {
    let sources = [
        "[]",
        "[[]]",
        "[][]",
        "+[>+[>+<-]<-]>[-]",
        "[[[[]]]][[][[]]]",
        ">>[-]<<[->>+<<]",
        "++++++++[>++++[>++>+++>+++>+<<<<-]>+>+>->>+[<]<-]>>.",
    ];
    for source in sources {
        let ops = compile(source).unwrap();
        assert_eq!(pairs_by_targets(&ops), pairs_by_scanning(&ops));
        for (open, close) in pairs_by_targets(&ops) {
            assert_eq!(ops[close], Instruction::LoopEnd(open));
            assert_eq!(find_loop_end(&ops, open), Some(close));
            assert_eq!(find_loop_start(&ops, close), Some(open));
        }
        let starts = ops.iter().filter(|op| matches!(op, Instruction::LoopStart(_))).count();
        let ends = ops.iter().filter(|op| matches!(op, Instruction::LoopEnd(_))).count();
        assert_eq!(starts, source.chars().filter(|c| *c == '[').count());
        assert_eq!(ends, starts);
        assert_eq!(pairs_by_targets(&ops).len(), starts);
    }
}

#[test]
fn scanning_finds_the_partner_of_a_bracket() {
    let ops = compile("+[>[-]<[->+<]]").unwrap();
    assert_eq!(find_loop_end(&ops, 1), Some(13));
    assert_eq!(find_loop_end(&ops, 3), Some(5));
    assert_eq!(find_loop_end(&ops, 7), Some(12));
    assert_eq!(find_loop_start(&ops, 13), Some(1));
    assert_eq!(find_loop_start(&ops, 5), Some(3));
    assert_eq!(find_loop_start(&ops, 12), Some(7));
}

#[test]
fn scanning_finds_nothing_where_there_is_no_partner() {
    let ops = compile("+[-]").unwrap();
    // not a bracket, a bracket of the other kind, or no instruction at all
    assert_eq!(find_loop_end(&ops, 0), None);
    assert_eq!(find_loop_end(&ops, 3), None);
    assert_eq!(find_loop_end(&ops, 4), None);
    assert_eq!(find_loop_start(&ops, 2), None);
    assert_eq!(find_loop_start(&ops, 1), None);
    assert_eq!(find_loop_start(&ops, 9), None);
    // brackets that nothing closes or opens; the indices they carry are not read
    let open_only = vec![
        Instruction::LoopStart(0),
        Instruction::LoopStart(0),
        Instruction::LoopEnd(0),
    ];
    assert_eq!(find_loop_end(&open_only, 0), None);
    assert_eq!(find_loop_end(&open_only, 1), Some(2));
    let close_only = vec![
        Instruction::LoopStart(0),
        Instruction::LoopEnd(0),
        Instruction::LoopEnd(0),
    ];
    assert_eq!(find_loop_start(&close_only, 2), None);
    assert_eq!(find_loop_start(&close_only, 1), Some(0));
}

#[test]
fn jumps_are_checked_against_the_length() {
    assert!(check_jumps(&vec![]));
    assert!(check_jumps(&vec![Instruction::MoveRight(9), Instruction::Increment]));
    assert!(check_jumps(&vec![Instruction::LoopStart(1), Instruction::LoopEnd(0)]));
    assert!(!check_jumps(&vec![Instruction::LoopStart(2), Instruction::LoopEnd(0)]));
    assert!(!check_jumps(&vec![Instruction::LoopStart(1), Instruction::LoopEnd(2)]));
    assert!(check_jumps(&compile("+[>,[>+<-]<.]>[[-]>]").unwrap()));
}

#[test]
fn no_jump_leaves_the_program() {
    let ops = compile("+[>,[>+<-]<.]>[[-]>]").unwrap();
    for op in &ops {
        match op {
            Instruction::LoopStart(target) | Instruction::LoopEnd(target) => {
                assert!(*target < ops.len())
            }
            _ => {}
        }
    }
}

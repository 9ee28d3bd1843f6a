//! The compiler: from source text to a program with resolved jumps.
//!
//! The source is read once, left to right. Characters that are no command are
//! skipped, runs of one move character become one counted move, and each
//! bracket gets the index of its partner.

use crate::instruction::{CompileError, Instruction};
use crate::nesting::{
    depth, is_pair, jumps_in_bounds, lemma_pair_is_the_match, lemma_pair_same_brackets,
    lemma_well_formed_jumps_in_bounds, matching_end, matching_start, same_brackets, well_formed,
    well_formed_at,
};
use crate::positions::{
    lemma_bracket_of_position, lemma_depth_of_position, lemma_position_of_index,
    lemma_prefix_brackets,
};
use crate::reading::{
    lemma_read_all, lemma_read_close, lemma_read_other, lemma_reading_exists, pending, reading,
};
use std::collections::VecDeque;
use vstd::prelude::*;

verus! {

/// The eight characters that stand for an instruction. Every other character
/// is a comment.
pub open spec fn is_command(c: char) -> bool {
    c == '>' || c == '<' || c == '+' || c == '-' || c == '.' || c == ',' || c == '[' || c == ']'
}

/// The effect of a source character on the nesting depth.
pub open spec fn bracket_change(c: char) -> int {
    if c == '[' {
        1
    } else if c == ']' {
        -1
    } else {
        0
    }
}

/// The nesting depth in front of position `k` of the source: the number of
/// `[` among the first `k` characters less the number of `]` among them.
pub open spec fn source_depth(src: Seq<char>, k: int) -> int
    decreases k,
{
    if k <= 0 {
        0
    } else {
        source_depth(src, k - 1) + bracket_change(src[k - 1])
    }
}

/// Every `]` closes an earlier `[`, and every `[` is closed.
pub open spec fn balanced(src: Seq<char>) -> bool {
    &&& forall|k: int| 0 <= k <= src.len() ==> #[trigger] source_depth(src, k) >= 0
    &&& source_depth(src, src.len() as int) == 0
}

/// The `[` at `open` and the `]` at `close` of the source enclose one loop:
/// the depth stays above the level in front of `open` from there up to
/// `close`, and `close` brings it back to that level.
pub open spec fn source_pair(src: Seq<char>, open: int, close: int) -> bool {
    &&& 0 <= open < close < src.len()
    &&& src[open] == '['
    &&& src[close] == ']'
    &&& source_depth(src, close + 1) == source_depth(src, open)
    &&& forall|k: int|
        open < k <= close ==> #[trigger] source_depth(src, k) > source_depth(src, open)
}

/// The instructions read so far, with one more character read. A move
/// character that follows a move in the same direction raises its count; every
/// other command adds an instruction; a bracket is added with index 0, to be
/// resolved later.
pub open spec fn decode_char(ops: Seq<Instruction>, c: char) -> Seq<Instruction> {
    if c == '>' {
        if ops.len() > 0 && ops.last() is MoveRight {
            ops.update(ops.len() - 1, Instruction::MoveRight((ops.last()->MoveRight_0 + 1) as usize))
        } else {
            ops.push(Instruction::MoveRight(1))
        }
    } else if c == '<' {
        if ops.len() > 0 && ops.last() is MoveLeft {
            ops.update(ops.len() - 1, Instruction::MoveLeft((ops.last()->MoveLeft_0 + 1) as usize))
        } else {
            ops.push(Instruction::MoveLeft(1))
        }
    } else if c == '+' {
        ops.push(Instruction::Increment)
    } else if c == '-' {
        ops.push(Instruction::Decrement)
    } else if c == '.' {
        ops.push(Instruction::Output)
    } else if c == ',' {
        ops.push(Instruction::Input)
    } else if c == '[' {
        ops.push(Instruction::LoopStart(0))
    } else if c == ']' {
        ops.push(Instruction::LoopEnd(0))
    } else {
        ops
    }
}

/// The instructions that a source text stands for, brackets unresolved.
pub open spec fn decoded(src: Seq<char>) -> Seq<Instruction>
    decreases src.len(),
{
    if src.len() == 0 {
        Seq::empty()
    } else {
        decode_char(decoded(src.drop_last()), src.last())
    }
}

/// The number of instructions that the first `p` characters of the source
/// stand for. A bracket at position `p` becomes the instruction with this
/// index.
pub open spec fn instructions_before(src: Seq<char>, p: int) -> int {
    decoded(src.take(p)).len() as int
}

/// The instruction at `i` with the index of its partner filled in.
pub open spec fn resolved_at(ops: Seq<Instruction>, i: int) -> Instruction {
    match ops[i] {
        Instruction::LoopStart(_) => Instruction::LoopStart(matching_end(ops, i) as usize),
        Instruction::LoopEnd(_) => Instruction::LoopEnd(matching_start(ops, i) as usize),
        op => op,
    }
}

/// The same instructions, each bracket carrying the index of its partner.
pub open spec fn resolved(ops: Seq<Instruction>) -> Seq<Instruction> {
    Seq::new(ops.len(), |i: int| resolved_at(ops, i))
}

/// The program that a balanced source text compiles to.
pub open spec fn compiled(src: Seq<char>) -> Seq<Instruction> {
    resolved(decoded(src))
}

/// The commands of a source text: its characters in order, comments left
/// out.
pub open spec fn commands(src: Seq<char>) -> Seq<char>
    decreases src.len(),
{
    if src.len() == 0 {
        Seq::empty()
    } else if is_command(src.last()) {
        commands(src.drop_last()).push(src.last())
    } else {
        commands(src.drop_last())
    }
}

/// The source text of `n` moves in one direction.
pub open spec fn moves(n: nat, right: bool) -> Seq<char> {
    Seq::new(
        n,
        |i: int|
            if right {
                '>'
            } else {
                '<'
            },
    )
}

/// The commands that an instruction stands for.
pub open spec fn text_of(op: Instruction) -> Seq<char> {
    match op {
        Instruction::Increment => seq!['+'],
        Instruction::Decrement => seq!['-'],
        Instruction::MoveLeft(count) => moves(count as nat, false),
        Instruction::MoveRight(count) => moves(count as nat, true),
        Instruction::Output => seq!['.'],
        Instruction::Input => seq![','],
        Instruction::LoopStart(_) => seq!['['],
        Instruction::LoopEnd(_) => seq![']'],
    }
}

/// The commands that a sequence of instructions stands for.
pub open spec fn text(ops: Seq<Instruction>) -> Seq<char>
    decreases ops.len(),
{
    if ops.len() == 0 {
        Seq::empty()
    } else {
        text(ops.drop_last()) + text_of(ops.last())
    }
}

/// No move of the sequence is followed by a move in the same direction.
pub open spec fn coalesced(ops: Seq<Instruction>) -> bool {
    forall|i: int|
        0 < i < ops.len() ==> {
            &&& !(ops[i - 1] is MoveRight && #[trigger] ops[i] is MoveRight)
            &&& !(ops[i - 1] is MoveLeft && ops[i] is MoveLeft)
        }
}

/// No move in the sequence has a count above `bound`.
pub open spec fn counts_within(ops: Seq<Instruction>, bound: int) -> bool {
    forall|i: int|
        0 <= i < ops.len() ==> match #[trigger] ops[i] {
            Instruction::MoveLeft(count) => count <= bound,
            Instruction::MoveRight(count) => count <= bound,
            _ => true,
        }
}

/// Compiles a source text.
///
/// The text is accepted exactly when its brackets are balanced. The program
/// is then `compiled(code@)`: the commands of the text in order, comments left
/// out, each run of one move character as one counted move, and each bracket
/// with the index of its partner.
pub fn preprocess(code: String) -> (result: Result<Vec<Instruction>, CompileError>)
    ensures
        result is Ok <==> balanced(code@),
        result matches Ok(ops) ==> {
            &&& ops@ == compiled(code@)
            &&& well_formed(ops@)
            &&& jumps_in_bounds(ops@)
            &&& text(ops@) == commands(code@)
            &&& coalesced(ops@)
            &&& counts_within(ops@, code@.len() as int)
        },
        result matches Err(e) ==> e == CompileError::MismatchedBracket,
{
    let chars: Vec<char> = chars_of(code.as_str());
    let mut ops: Vec<Instruction> = Vec::new();
    let mut opens: VecDeque<usize> = VecDeque::new();
    let mut i: usize = 0;
    while i < chars.len()
        invariant
            chars@ == code@,
            reading(ops@, opens@, chars@, i as int),
        decreases chars.len() - i,
    {
        let c: char = chars[i];
        let ghost ops_before = ops@;
        let ghost opens_before = opens@;
        if c == ']' {
            match opens.pop_back() {
                None => {
                    assert(source_depth(chars@, i + 1) == source_depth(chars@, i as int)
                        + bracket_change(c));
                    return Err(CompileError::MismatchedBracket);
                },
                Some(open) => {
                    assert(pending(ops_before, opens_before, opens_before.len() - 1));
                    let close: usize = ops.len();
                    ops[open] = Instruction::LoopStart(close);
                    ops.push(Instruction::LoopEnd(open));
                    proof {
                        lemma_read_close(ops_before, opens_before, chars@, i as int);
                    }
                },
            }
        } else {
            if c == '>' {
                push_move(&mut ops, true);
            } else if c == '<' {
                push_move(&mut ops, false);
            } else if c == '+' {
                ops.push(Instruction::Increment);
            } else if c == '-' {
                ops.push(Instruction::Decrement);
            } else if c == '.' {
                ops.push(Instruction::Output);
            } else if c == ',' {
                ops.push(Instruction::Input);
            } else if c == '[' {
                opens.push_back(ops.len());
                ops.push(Instruction::LoopStart(0));
            }
            proof {
                lemma_read_other(ops_before, opens_before, chars@, i as int);
            }
        }
        i += 1;
    }
    proof {
        lemma_read_all(ops@, opens@, chars@);
        if opens@.len() == 0 {
            lemma_well_formed_jumps_in_bounds(ops@);
            lemma_compiled_keeps_the_commands(chars@);
        }
    }
    if opens.len() == 0 {
        Ok(ops)
    } else {
        Err(CompileError::MismatchedBracket)
    }
}

/// Adds one move to the right or to the left: to the count of the last
/// instruction where that is a move in the same direction, as a new
/// instruction with count 1 otherwise.
fn push_move(ops: &mut Vec<Instruction>, right: bool)
    requires
        counts_within(old(ops)@, usize::MAX - 1),
    ensures
        final(ops)@ == decode_char(
            old(ops)@,
            if right {
                '>'
            } else {
                '<'
            },
        ),
{
    let n: usize = ops.len();
    if n > 0 {
        match ops[n - 1] {
            Instruction::MoveRight(count) => {
                if right {
                    ops[n - 1] = Instruction::MoveRight(count + 1);
                    return ;
                }
            },
            Instruction::MoveLeft(count) => {
                if !right {
                    ops[n - 1] = Instruction::MoveLeft(count + 1);
                    return ;
                }
            },
            _ => {},
        }
    }
    if right {
        ops.push(Instruction::MoveRight(1));
    } else {
        ops.push(Instruction::MoveLeft(1));
    }
}

/// The characters of a text, in order.
fn chars_of(code: &str) -> (chars: Vec<char>)
    ensures
        chars@ == code@,
{
    let mut chars: Vec<char> = Vec::new();
    for c in it: code.chars()
        invariant
            it.seq() == code@,
            chars@ == code@.take(it.index()),
    {
        chars.push(c);
        assert(code@.take(it.index() + 1) =~= code@.take(it.index()).push(c));
    }
    assert(code@.take(code@.len() as int) =~= code@);
    chars
}

/// A balanced source compiles to a well-formed program: every bracket of it
/// has a partner, and the two carry each other's index.
pub proof fn lemma_compiled_is_well_formed(src: Seq<char>)
    requires
        balanced(src),
        src.len() <= usize::MAX,
    ensures
        well_formed(compiled(src)),
        counts_within(compiled(src), src.len() as int),
{
    let (ops, opens) = lemma_reading_exists(src, src.len() as int);
    lemma_read_all(ops, opens, src);
}

/// Compiling a balanced source and then reading the pairs off the jump
/// targets gives back the nesting of its brackets: the instruction at `open`
/// is a `LoopStart` that carries `close`, and the one at `close` a `LoopEnd`
/// that carries `open`, exactly when the brackets at `open` and `close`
/// enclose one loop.
pub proof fn lemma_jumps_are_the_nesting(src: Seq<char>, open: int, close: int)
    requires
        balanced(src),
        src.len() <= usize::MAX,
        0 <= open < compiled(src).len(),
        0 <= close < compiled(src).len(),
    ensures
        is_pair(decoded(src), open, close) <==> compiled(src)[open] == Instruction::LoopStart(
            close as usize,
        ),
        is_pair(decoded(src), open, close) <==> compiled(src)[close] == Instruction::LoopEnd(
            open as usize,
        ),
{
    let raw = decoded(src);
    let ops = compiled(src);
    lemma_compiled_is_well_formed(src);
    lemma_resolved_same_brackets(raw);
    assert(raw.len() <= usize::MAX) by {
        lemma_decoded_len(src);
    }
    if is_pair(raw, open, close) {
        lemma_pair_is_the_match(raw, open, close);
    }
    if ops[open] == Instruction::LoopStart(close as usize) {
        assert(well_formed_at(ops, open));
        lemma_pair_same_brackets(ops, raw, open, close);
    }
    if ops[close] == Instruction::LoopEnd(open as usize) {
        assert(well_formed_at(ops, close));
        lemma_pair_same_brackets(ops, raw, open, close);
    }
}

/// Round trip of matching, from the source text to the jump targets and
/// back: where a balanced source has a `[` at `open` and a `]` at `close`,
/// the two enclose one loop exactly when the instruction that `open` became
/// is a `LoopStart` carrying the index of the instruction that `close`
/// became, and exactly when that instruction is a `LoopEnd` carrying the
/// index of the first.
pub proof fn lemma_round_trip_of_matching(src: Seq<char>, open: int, close: int)
    requires
        balanced(src),
        src.len() <= usize::MAX,
        0 <= open < src.len(),
        0 <= close < src.len(),
        src[open] == '[',
        src[close] == ']',
    ensures
        0 <= instructions_before(src, open) < compiled(src).len(),
        0 <= instructions_before(src, close) < compiled(src).len(),
        source_pair(src, open, close) <==> compiled(src)[instructions_before(src, open)]
            == Instruction::LoopStart(instructions_before(src, close) as usize),
        source_pair(src, open, close) <==> compiled(src)[instructions_before(src, close)]
            == Instruction::LoopEnd(instructions_before(src, open) as usize),
{
    let raw = decoded(src);
    let i = instructions_before(src, open);
    let j = instructions_before(src, close);
    lemma_bracket_of_position(src, open);
    lemma_bracket_of_position(src, close);
    lemma_depth_of_position(src, open);
    lemma_depth_of_position(src, close);
    lemma_depth_of_position(src, close + 1);
    lemma_jumps_are_the_nesting(src, i, j);
    if source_pair(src, open, close) {
        lemma_prefix_brackets(src, open + 1, close);
        assert forall|k: int| i < k <= j implies #[trigger] depth(raw, k) > depth(raw, i) by {
            let r = lemma_position_of_index(src, open + 1, close, k);
            lemma_depth_of_position(src, r);
            assert(source_depth(src, r) > source_depth(src, open));
        }
        assert(is_pair(raw, i, j));
    }
    if is_pair(raw, i, j) {
        if close <= open {
            lemma_prefix_brackets(src, close, open);
        }
        assert forall|k: int| open < k <= close implies #[trigger] source_depth(src, k)
            > source_depth(src, open) by {
            lemma_prefix_brackets(src, open + 1, k);
            lemma_prefix_brackets(src, k, close);
            lemma_depth_of_position(src, k);
            assert(depth(raw, instructions_before(src, k)) > depth(raw, i));
        }
        assert(source_pair(src, open, close));
    }
}

/// A source text made of comments alone is accepted and compiles to the
/// empty program.
pub proof fn lemma_comments_compile_to_nothing(src: Seq<char>)
    requires
        forall|i: int| 0 <= i < src.len() ==> !is_command(#[trigger] src[i]),
    ensures
        balanced(src),
        compiled(src) == Seq::<Instruction>::empty(),
{
    lemma_flat_source_balanced(src);
    lemma_comments_decode_to_nothing(src);
    assert(compiled(src) =~= Seq::<Instruction>::empty());
}

/// Compiling loses nothing but the comments, and merges every run of moves:
/// written out again, the program is the source text without its comments,
/// and no move of it is followed by a move in the same direction.
pub proof fn lemma_compiled_keeps_the_commands(src: Seq<char>)
    requires
        src.len() <= usize::MAX,
    ensures
        text(compiled(src)) == commands(src),
        coalesced(compiled(src)),
{
    lemma_decoded_keeps_the_commands(src);
    lemma_text_of_resolved(decoded(src), decoded(src).len() as int);
    assert(decoded(src).take(decoded(src).len() as int) =~= decoded(src));
    assert(compiled(src).take(decoded(src).len() as int) =~= compiled(src));
}

/// A run of `n` move characters in one direction, and nothing else, is
/// accepted and compiles to exactly one move in that direction with count
/// `n`.
pub proof fn lemma_moves_coalesce(n: nat, right: bool)
    requires
        1 <= n <= usize::MAX,
    ensures
        balanced(moves(n, right)),
        right ==> compiled(moves(n, right)) == seq![Instruction::MoveRight(n as usize)],
        !right ==> compiled(moves(n, right)) == seq![Instruction::MoveLeft(n as usize)],
{
    lemma_flat_source_balanced(moves(n, right));
    lemma_moves_decode(n, right);
    if right {
        assert(compiled(moves(n, right)) =~= seq![Instruction::MoveRight(n as usize)]);
    } else {
        assert(compiled(moves(n, right)) =~= seq![Instruction::MoveLeft(n as usize)]);
    }
}

/// A source text has at most one instruction for each of its characters.
pub proof fn lemma_decoded_len(src: Seq<char>)
    ensures
        decoded(src).len() <= src.len(),
    decreases src.len(),
{
    if src.len() > 0 {
        lemma_decoded_len(src.drop_last());
    }
}

/// The brackets of a compiled program are those of the decoded source.
proof fn lemma_resolved_same_brackets(ops: Seq<Instruction>)
    ensures
        resolved(ops).len() == ops.len(),
        same_brackets(ops, resolved(ops), ops.len() as int),
        same_brackets(resolved(ops), ops, ops.len() as int),
{
}

/// A source text without brackets has depth zero throughout.
proof fn lemma_flat_source(src: Seq<char>, k: int)
    requires
        forall|i: int| 0 <= i < src.len() ==> bracket_change(#[trigger] src[i]) == 0,
        0 <= k <= src.len(),
    ensures
        source_depth(src, k) == 0,
    decreases k,
{
    if k > 0 {
        lemma_flat_source(src, k - 1);
    }
}

/// A source text without brackets is balanced.
proof fn lemma_flat_source_balanced(src: Seq<char>)
    requires
        forall|i: int| 0 <= i < src.len() ==> bracket_change(#[trigger] src[i]) == 0,
    ensures
        balanced(src),
{
    assert forall|k: int| 0 <= k <= src.len() implies #[trigger] source_depth(src, k) == 0 by {
        lemma_flat_source(src, k);
    }
}

/// A source text made of comments alone stands for no instruction.
proof fn lemma_comments_decode_to_nothing(src: Seq<char>)
    requires
        forall|i: int| 0 <= i < src.len() ==> !is_command(#[trigger] src[i]),
    ensures
        decoded(src) == Seq::<Instruction>::empty(),
    decreases src.len(),
{
    if src.len() > 0 {
        let front = src.drop_last();
        assert forall|i: int| 0 <= i < front.len() implies !is_command(#[trigger] front[i]) by {
            assert(front[i] == src[i]);
        }
        lemma_comments_decode_to_nothing(front);
        assert(!is_command(src[src.len() - 1]));
    }
}

/// A run of `n` move characters in one direction stands for one move with
/// count `n`.
proof fn lemma_moves_decode(n: nat, right: bool)
    requires
        1 <= n <= usize::MAX,
    ensures
        right ==> decoded(moves(n, right)) == seq![Instruction::MoveRight(n as usize)],
        !right ==> decoded(moves(n, right)) == seq![Instruction::MoveLeft(n as usize)],
    decreases n,
{
    let src = moves(n, right);
    assert(src.drop_last() =~= moves((n - 1) as nat, right));
    if n == 1 {
        assert(decoded(src.drop_last()) =~= Seq::<Instruction>::empty());
        if right {
            assert(decoded(src) =~= seq![Instruction::MoveRight(1)]);
        } else {
            assert(decoded(src) =~= seq![Instruction::MoveLeft(1)]);
        }
    } else {
        lemma_moves_decode((n - 1) as nat, right);
        if right {
            assert(decoded(src) =~= seq![Instruction::MoveRight(n as usize)]);
        } else {
            assert(decoded(src) =~= seq![Instruction::MoveLeft(n as usize)]);
        }
    }
}

/// Written out, the decoded instructions are the commands of the source, no
/// move is followed by a move in the same direction, and no count is above
/// the number of characters read.
proof fn lemma_decoded_keeps_the_commands(src: Seq<char>)
    requires
        src.len() <= usize::MAX,
    ensures
        text(decoded(src)) == commands(src),
        coalesced(decoded(src)),
        counts_within(decoded(src), src.len() as int),
    decreases src.len(),
{
    if src.len() > 0 {
        let front = decoded(src.drop_last());
        let c = src.last();
        let all = decode_char(front, c);
        lemma_decoded_keeps_the_commands(src.drop_last());
        if all.len() == front.len() + 1 {
            assert(all.drop_last() =~= front);
            assert(text_of(all.last()) =~= seq![c]);
            assert(text(all) =~= commands(src));
        } else if all.len() == front.len() && is_command(c) {
            assert(all.drop_last() =~= front.drop_last());
            assert(text_of(all.last()) =~= text_of(front.last()).push(c));
            assert(text(all) =~= text(front).push(c));
        }
        assert forall|i: int| 0 < i < all.len() implies {
            &&& !(all[i - 1] is MoveRight && #[trigger] all[i] is MoveRight)
            &&& !(all[i - 1] is MoveLeft && all[i] is MoveLeft)
        } by {
            if i < front.len() {
                assert(!(front[i - 1] is MoveRight && front[i] is MoveRight));
            }
        }
    }
}

/// Resolving the brackets changes nothing of what the instructions stand
/// for.
proof fn lemma_text_of_resolved(ops: Seq<Instruction>, n: int)
    requires
        0 <= n <= ops.len(),
    ensures
        text(resolved(ops).take(n)) == text(ops.take(n)),
        coalesced(ops) ==> coalesced(resolved(ops)),
    decreases n,
{
    if n > 0 {
        lemma_text_of_resolved(ops, n - 1);
        assert(resolved(ops).take(n).drop_last() =~= resolved(ops).take(n - 1));
        assert(ops.take(n).drop_last() =~= ops.take(n - 1));
        assert(text_of(resolved(ops)[n - 1]) == text_of(ops[n - 1]));
    }
    if coalesced(ops) {
        assert forall|i: int| 0 < i < resolved(ops).len() implies {
            &&& !(resolved(ops)[i - 1] is MoveRight && #[trigger] resolved(ops)[i] is MoveRight)
            &&& !(resolved(ops)[i - 1] is MoveLeft && resolved(ops)[i] is MoveLeft)
        } by {
            assert(!(ops[i - 1] is MoveRight && ops[i] is MoveRight));
        }
    }
}

} // verus!

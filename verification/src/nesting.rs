//! The nesting structure of the loop brackets in an instruction sequence.
//!
//! Everything here looks only at which instructions are `LoopStart` and which
//! are `LoopEnd`, never at the indices they carry. It says which brackets
//! belong together; `well_formed` then asks that the carried indices say the
//! same.

use crate::instruction::Instruction;
use vstd::prelude::*;

verus! {

/// The effect of an instruction on the nesting depth: a `LoopStart` opens a
/// level, a `LoopEnd` closes one.
pub open spec fn depth_change(op: Instruction) -> int {
    match op {
        Instruction::LoopStart(_) => 1,
        Instruction::LoopEnd(_) => -1,
        _ => 0,
    }
}

/// The nesting depth in front of position `k`: the number of `LoopStart`
/// among the first `k` instructions less the number of `LoopEnd` among them.
pub open spec fn depth(ops: Seq<Instruction>, k: int) -> int
    decreases k,
{
    if k <= 0 {
        0
    } else {
        depth(ops, k - 1) + depth_change(ops[k - 1])
    }
}

/// The `LoopStart` at `open` and the `LoopEnd` at `close` enclose one loop:
/// the depth stays above the level in front of `open` from there up to
/// `close`, and `close` brings it back to that level.
pub open spec fn is_pair(ops: Seq<Instruction>, open: int, close: int) -> bool {
    &&& 0 <= open < close < ops.len()
    &&& ops[open] is LoopStart
    &&& ops[close] is LoopEnd
    &&& depth(ops, close + 1) == depth(ops, open)
    &&& forall|k: int| open < k <= close ==> #[trigger] depth(ops, k) > depth(ops, open)
}

/// The index of the `LoopEnd` that closes the `LoopStart` at `open`.
pub open spec fn matching_end(ops: Seq<Instruction>, open: int) -> int {
    choose|close: int| is_pair(ops, open, close)
}

/// The index of the `LoopStart` that the `LoopEnd` at `close` closes.
pub open spec fn matching_start(ops: Seq<Instruction>, close: int) -> int {
    choose|open: int| is_pair(ops, open, close)
}

/// What holds of the instruction at `i` in a well-formed program.
pub open spec fn well_formed_at(ops: Seq<Instruction>, i: int) -> bool {
    match ops[i] {
        Instruction::MoveLeft(count) => count >= 1,
        Instruction::MoveRight(count) => count >= 1,
        Instruction::LoopStart(close) => {
            &&& is_pair(ops, i, close as int)
            &&& ops[close as int] == Instruction::LoopEnd(i as usize)
        },
        Instruction::LoopEnd(open) => {
            &&& is_pair(ops, open as int, i)
            &&& ops[open as int] == Instruction::LoopStart(i as usize)
        },
        _ => true,
    }
}

/// A program as the compiler hands it out: every move has a count of at
/// least one, every `LoopStart` carries the index of the `LoopEnd` that closes
/// it, and that `LoopEnd` carries the index of the `LoopStart`.
pub open spec fn well_formed(ops: Seq<Instruction>) -> bool {
    forall|i: int| 0 <= i < ops.len() ==> #[trigger] well_formed_at(ops, i)
}

/// Every index carried by a loop instruction lies inside the sequence.
pub open spec fn jumps_in_bounds(ops: Seq<Instruction>) -> bool {
    forall|i: int|
        0 <= i < ops.len() ==> match #[trigger] ops[i] {
            Instruction::LoopStart(target) => target < ops.len(),
            Instruction::LoopEnd(target) => target < ops.len(),
            _ => true,
        }
}

/// Two sequences have the same brackets at the same places among their first
/// `n` instructions.
pub open spec fn same_brackets(a: Seq<Instruction>, b: Seq<Instruction>, n: int) -> bool {
    &&& n <= a.len()
    &&& n <= b.len()
    &&& forall|i: int| 0 <= i < n ==> depth_change(#[trigger] a[i]) == depth_change(b[i])
}

/// Finds the `LoopEnd` that closes the `LoopStart` at `open`, by walking
/// forward and counting the loops that open and close on the way.
pub fn find_loop_end(ops: &Vec<Instruction>, open: usize) -> (found: Option<usize>)
    ensures
        found matches Some(close) ==> is_pair(ops@, open as int, close as int),
        found is None ==> forall|close: int| !is_pair(ops@, open as int, close),
{
    if open >= ops.len() {
        return None;
    }
    match ops[open] {
        Instruction::LoopStart(_) => {},
        _ => {
            return None;
        },
    }
    let mut inner: usize = 0;
    let mut at: usize = open + 1;
    assert(depth(ops@, open + 1) == depth(ops@, open as int) + 1);
    while at < ops.len()
        invariant
            open < at <= ops.len(),
            ops@[open as int] is LoopStart,
            inner <= at - open,
            depth(ops@, at as int) == depth(ops@, open as int) + 1 + inner,
            forall|k: int| open < k <= at ==> #[trigger] depth(ops@, k) > depth(ops@, open as int),
        decreases ops.len() - at,
    {
        assert(depth(ops@, at + 1) == depth(ops@, at as int) + depth_change(ops@[at as int]));
        match ops[at] {
            Instruction::LoopStart(_) => {
                inner += 1;
            },
            Instruction::LoopEnd(_) => {
                if inner == 0 {
                    return Some(at);
                }
                inner -= 1;
            },
            _ => {},
        }
        at += 1;
    }
    assert forall|close: int| !is_pair(ops@, open as int, close) by {
        if is_pair(ops@, open as int, close) {
            assert(depth(ops@, close + 1) > depth(ops@, open as int));
        }
    }
    None
}

/// Finds the `LoopStart` that the `LoopEnd` at `close` closes, by walking
/// backward and counting the loops that close and open on the way.
pub fn find_loop_start(ops: &Vec<Instruction>, close: usize) -> (found: Option<usize>)
    ensures
        found matches Some(open) ==> is_pair(ops@, open as int, close as int),
        found is None ==> forall|open: int| !is_pair(ops@, open, close as int),
{
    if close >= ops.len() {
        return None;
    }
    match ops[close] {
        Instruction::LoopEnd(_) => {},
        _ => {
            return None;
        },
    }
    let mut inner: usize = 0;
    let mut at: usize = close;
    assert(depth(ops@, close + 1) == depth(ops@, close as int) - 1);
    while at > 0
        invariant
            at <= close < ops.len(),
            ops@[close as int] is LoopEnd,
            inner <= close - at,
            depth(ops@, at as int) == depth(ops@, close + 1) + 1 + inner,
            forall|k: int| at <= k <= close ==> #[trigger] depth(ops@, k) > depth(ops@, close + 1),
        decreases at,
    {
        at -= 1;
        assert(depth(ops@, at + 1) == depth(ops@, at as int) + depth_change(ops@[at as int]));
        match ops[at] {
            Instruction::LoopEnd(_) => {
                inner += 1;
            },
            Instruction::LoopStart(_) => {
                if inner == 0 {
                    return Some(at);
                }
                inner -= 1;
            },
            _ => {},
        }
    }
    assert forall|open: int| !is_pair(ops@, open, close as int) by {
        if is_pair(ops@, open, close as int) {
            assert(depth(ops@, open) > depth(ops@, close + 1));
        }
    }
    None
}

/// Whether every index carried by a loop instruction lies inside the
/// sequence.
pub fn check_jumps(ops: &Vec<Instruction>) -> (ok: bool)
    ensures
        ok == jumps_in_bounds(ops@),
{
    let mut i: usize = 0;
    while i < ops.len()
        invariant
            i <= ops.len(),
            forall|k: int|
                0 <= k < i ==> match #[trigger] ops@[k] {
                    Instruction::LoopStart(target) => target < ops.len(),
                    Instruction::LoopEnd(target) => target < ops.len(),
                    _ => true,
                },
        decreases ops.len() - i,
    {
        match ops[i] {
            Instruction::LoopStart(target) => {
                if target >= ops.len() {
                    return false;
                }
            },
            Instruction::LoopEnd(target) => {
                if target >= ops.len() {
                    return false;
                }
            },
            _ => {},
        }
        i += 1;
    }
    true
}

/// A `LoopStart` is closed by at most one `LoopEnd`.
pub proof fn lemma_pair_end_unique(ops: Seq<Instruction>, open: int, close: int, other: int)
    requires
        is_pair(ops, open, close),
        is_pair(ops, open, other),
    ensures
        close == other,
{
    if close < other {
        assert(depth(ops, close + 1) > depth(ops, open));
    } else if other < close {
        assert(depth(ops, other + 1) > depth(ops, open));
    }
}

/// A `LoopEnd` closes at most one `LoopStart`.
pub proof fn lemma_pair_start_unique(ops: Seq<Instruction>, open: int, other: int, close: int)
    requires
        is_pair(ops, open, close),
        is_pair(ops, other, close),
    ensures
        open == other,
{
    if open < other {
        assert(depth(ops, other) > depth(ops, open));
    } else if other < open {
        assert(depth(ops, open) > depth(ops, other));
    }
}

/// Where two brackets enclose a loop, each is the other's match.
pub proof fn lemma_pair_is_the_match(ops: Seq<Instruction>, open: int, close: int)
    requires
        is_pair(ops, open, close),
    ensures
        matching_end(ops, open) == close,
        matching_start(ops, close) == open,
{
    lemma_pair_end_unique(ops, open, close, matching_end(ops, open));
    lemma_pair_start_unique(ops, open, matching_start(ops, close), close);
}

/// In a well-formed program every jump stays inside the program.
pub proof fn lemma_well_formed_jumps_in_bounds(ops: Seq<Instruction>)
    requires
        well_formed(ops),
    ensures
        jumps_in_bounds(ops),
{
    assert forall|i: int| 0 <= i < ops.len() implies match #[trigger] ops[i] {
        Instruction::LoopStart(target) => target < ops.len(),
        Instruction::LoopEnd(target) => target < ops.len(),
        _ => true,
    } by {
        assert(well_formed_at(ops, i));
    }
}

/// The depth in front of a position depends only on the brackets before it.
pub proof fn lemma_depth_same_brackets(a: Seq<Instruction>, b: Seq<Instruction>, n: int)
    requires
        same_brackets(a, b, n),
    ensures
        forall|k: int| k <= n ==> #[trigger] depth(a, k) == depth(b, k),
    decreases n,
{
    if n > 0 {
        lemma_depth_same_brackets(a, b, n - 1);
        assert(depth(a, n - 1) == depth(b, n - 1));
        assert(depth_change(a[n - 1]) == depth_change(b[n - 1]));
    }
}

/// Whether two brackets enclose a loop depends only on the brackets up to
/// the closing one.
pub proof fn lemma_pair_same_brackets(a: Seq<Instruction>, b: Seq<Instruction>, open: int, close: int)
    requires
        is_pair(a, open, close),
        same_brackets(a, b, close + 1),
    ensures
        is_pair(b, open, close),
{
    lemma_depth_same_brackets(a, b, close + 1);
    assert(depth_change(a[open]) == depth_change(b[open]));
    assert(depth_change(a[close]) == depth_change(b[close]));
    assert forall|k: int| open < k <= close implies #[trigger] depth(b, k) > depth(b, open) by {
        assert(depth(b, k) == depth(a, k));
    }
}

} // verus!

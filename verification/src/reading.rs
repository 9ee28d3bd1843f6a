//! The state of the compiler while it reads a source text, and why every
//! step keeps it.
//!
//! The compiler holds the instructions read so far and a stack with the
//! indices of the brackets that are still open. `reading` says what holds of
//! the two after each character; the lemmas show that each kind of step leads
//! from one such state to the next, and what the last state says of the
//! finished program.

use crate::compiler::{
    balanced, bracket_change, compiled, counts_within, decode_char, decoded, resolved_at,
    source_depth,
};
use crate::instruction::Instruction;
use crate::nesting::{
    depth, depth_change, is_pair, lemma_depth_same_brackets, lemma_pair_is_the_match,
    lemma_pair_same_brackets, same_brackets, well_formed, well_formed_at,
};
use vstd::prelude::*;

verus! {

/// An instruction with the index of a bracket set back to zero.
pub(crate) open spec fn unresolved(op: Instruction) -> Instruction {
    match op {
        Instruction::LoopStart(_) => Instruction::LoopStart(0),
        Instruction::LoopEnd(_) => Instruction::LoopEnd(0),
        op => op,
    }
}

/// The entry `t` of the stack of open brackets names a `LoopStart` that is
/// still unresolved, at nesting depth `t`, with nothing after it back at that
/// depth.
pub(crate) open spec fn pending(ops: Seq<Instruction>, opens: Seq<usize>, t: int) -> bool {
    let i = opens[t] as int;
    &&& 0 <= i < ops.len()
    &&& ops[i] == Instruction::LoopStart(0)
    &&& depth(ops, i) == t
    &&& forall|k: int| i < k <= ops.len() ==> #[trigger] depth(ops, k) > t
}

/// The instruction at `i` is final, or it is a `LoopStart` on the stack of
/// open brackets.
pub(crate) open spec fn settled(ops: Seq<Instruction>, opens: Seq<usize>, i: int) -> bool {
    match ops[i] {
        Instruction::LoopStart(close) => if close == 0 {
            exists|t: int| 0 <= t < opens.len() && #[trigger] opens[t] == i
        } else {
            well_formed_at(ops, i)
        },
        _ => well_formed_at(ops, i),
    }
}

/// The state of the compiler after the first `p` characters of `src`: `ops`
/// holds their instructions, and `opens` the indices of the brackets that are
/// open at that point, innermost last.
pub(crate) open spec fn reading(ops: Seq<Instruction>, opens: Seq<usize>, src: Seq<char>, p: int) -> bool {
    &&& 0 <= p <= src.len()
    &&& ops.len() <= p
    &&& ops.len() == decoded(src.take(p)).len()
    &&& forall|i: int| 0 <= i < ops.len() ==> unresolved(#[trigger] ops[i]) == decoded(src.take(p))[i]
    &&& forall|k: int| 0 <= k <= p ==> #[trigger] source_depth(src, k) >= 0
    &&& source_depth(src, p) == opens.len()
    &&& depth(ops, ops.len() as int) == opens.len()
    &&& forall|t: int| 0 <= t < opens.len() ==> #[trigger] pending(ops, opens, t)
    &&& forall|i: int| 0 <= i < ops.len() ==> #[trigger] settled(ops, opens, i)
    &&& counts_within(ops, p)
}

/// The stack of open brackets after the character `c`, which is no `]`.
pub(crate) open spec fn opens_after(ops: Seq<Instruction>, opens: Seq<usize>, c: char) -> Seq<usize> {
    if c == '[' {
        opens.push(ops.len() as usize)
    } else {
        opens
    }
}

/// The instructions of one more character of the source are those of the
/// characters before it with that character read.
pub(crate) proof fn lemma_decoded_step(src: Seq<char>, p: int)
    requires
        0 <= p < src.len(),
    ensures
        decoded(src.take(p + 1)) == decode_char(decoded(src.take(p)), src[p]),
{
    assert(src.take(p + 1).drop_last() =~= src.take(p));
    assert(src.take(p + 1).last() == src[p]);
}

/// Pairs that enclose a loop still do so after later instructions are added
/// or have their counts or indices changed.
pub(crate) proof fn lemma_pairs_survive(a: Seq<Instruction>, b: Seq<Instruction>)
    requires
        same_brackets(a, b, a.len() as int),
    ensures
        forall|i: int, j: int| #[trigger] is_pair(a, i, j) ==> is_pair(b, i, j),
{
    assert forall|i: int, j: int| #[trigger] is_pair(a, i, j) implies is_pair(b, i, j) by {
        lemma_pair_same_brackets(a, b, i, j);
    }
}

/// Reading a character other than `]` keeps the compiler's state.
pub(crate) proof fn lemma_read_other(ops: Seq<Instruction>, opens: Seq<usize>, src: Seq<char>, p: int)
    requires
        reading(ops, opens, src, p),
        p < src.len() <= usize::MAX,
        src[p] != ']',
    ensures
        reading(decode_char(ops, src[p]), opens_after(ops, opens, src[p]), src, p + 1),
{
    let c = src[p];
    let before = decoded(src.take(p));
    let after = decoded(src.take(p + 1));
    let ops2 = decode_char(ops, c);
    let opens2 = opens_after(ops, opens, c);
    let n = ops.len() as int;
    lemma_decoded_step(src, p);
    assert(after == decode_char(before, c));
    if n > 0 {
        assert(unresolved(ops[n - 1]) == before[n - 1]);
    }
    assert(ops2.len() == after.len());
    assert(same_brackets(ops, ops2, n));
    lemma_depth_same_brackets(ops, ops2, n);
    lemma_pairs_survive(ops, ops2);
    assert forall|i: int| 0 <= i < ops2.len() implies unresolved(#[trigger] ops2[i]) == after[i] by {
        if i < n {
            assert(unresolved(ops[i]) == before[i]);
        }
    }
    assert(source_depth(src, p + 1) == source_depth(src, p) + bracket_change(c));
    assert(depth(ops2, ops2.len() as int) == opens2.len()) by {
        if ops2.len() > n {
            assert(depth(ops2, n + 1) == depth(ops2, n) + depth_change(ops2[n]));
        }
    }
    assert forall|t: int| 0 <= t < opens2.len() implies #[trigger] pending(ops2, opens2, t) by {
        if t < opens.len() {
            assert(pending(ops, opens, t));
            let i = opens[t] as int;
            assert(unresolved(ops[i]) == before[i]);
            assert(ops2[i] == ops[i]);
            assert forall|k: int| i < k <= ops2.len() implies #[trigger] depth(ops2, k) > t by {
                if k <= n {
                    assert(depth(ops, k) > t);
                }
            }
        }
    }
    assert forall|i: int| 0 <= i < ops2.len() implies #[trigger] settled(ops2, opens2, i) by {
        if i < n {
            assert(settled(ops, opens, i));
            match ops[i] {
                Instruction::LoopStart(close) => {
                    if close == 0 {
                        let t = choose|t: int| 0 <= t < opens.len() && #[trigger] opens[t] == i;
                        assert(opens2[t] == i);
                    } else {
                        assert(is_pair(ops, i, close as int));
                    }
                },
                Instruction::LoopEnd(open) => {
                    assert(is_pair(ops, open as int, i));
                },
                _ => {},
            }
        } else if c == '[' {
            assert(opens2[opens.len() as int] == i);
        }
    }
}

/// Reading a `]` while a bracket is open resolves the innermost open bracket
/// and keeps the compiler's state.
pub(crate) proof fn lemma_read_close(ops: Seq<Instruction>, opens: Seq<usize>, src: Seq<char>, p: int)
    requires
        reading(ops, opens, src, p),
        p < src.len() <= usize::MAX,
        src[p] == ']',
        opens.len() > 0,
    ensures
        reading(
            ops.update(opens.last() as int, Instruction::LoopStart(ops.len() as usize)).push(
                Instruction::LoopEnd(opens.last()),
            ),
            opens.drop_last(),
            src,
            p + 1,
        ),
{
    let before = decoded(src.take(p));
    let after = decoded(src.take(p + 1));
    let n = ops.len() as int;
    let top = opens.len() - 1;
    let open = opens.last() as int;
    let ops2 = ops.update(open, Instruction::LoopStart(n as usize)).push(
        Instruction::LoopEnd(open as usize),
    );
    let opens2 = opens.drop_last();
    lemma_decoded_step(src, p);
    assert(pending(ops, opens, top));
    assert(same_brackets(ops, ops2, n));
    lemma_depth_same_brackets(ops, ops2, n);
    lemma_pairs_survive(ops, ops2);
    assert(depth(ops2, n + 1) == depth(ops2, n) + depth_change(ops2[n]));
    assert(source_depth(src, p + 1) == source_depth(src, p) + bracket_change(src[p]));
    assert(is_pair(ops2, open, n)) by {
        assert forall|k: int| open < k <= n implies #[trigger] depth(ops2, k) > depth(ops2, open) by {
            assert(depth(ops, k) > top);
        }
    }
    assert forall|i: int| 0 <= i < ops2.len() implies unresolved(#[trigger] ops2[i]) == after[i] by {
        if i < n {
            assert(unresolved(ops[i]) == before[i]);
        }
    }
    assert forall|t: int| 0 <= t < opens2.len() implies #[trigger] pending(ops2, opens2, t) by {
        assert(pending(ops, opens, t));
        let i = opens[t] as int;
        assert(ops2[i] == ops[i]);
        assert forall|k: int| i < k <= ops2.len() implies #[trigger] depth(ops2, k) > t by {
            if k <= n {
                assert(depth(ops, k) > t);
            }
        }
    }
    assert forall|i: int| 0 <= i < ops2.len() implies #[trigger] settled(ops2, opens2, i) by {
        if i < n && i != open {
            assert(settled(ops, opens, i));
            match ops[i] {
                Instruction::LoopStart(close) => {
                    if close == 0 {
                        let t = choose|t: int| 0 <= t < opens.len() && #[trigger] opens[t] == i;
                        assert(opens2[t] == i);
                    } else {
                        assert(is_pair(ops, i, close as int));
                        assert(ops2[close as int] == ops[close as int]);
                    }
                },
                Instruction::LoopEnd(start) => {
                    assert(is_pair(ops, start as int, i));
                    assert(ops2[start as int] == ops[start as int]);
                },
                _ => {},
            }
        }
    }
}

/// With every character read and no bracket left open, the instructions are
/// the compiled program.
pub(crate) proof fn lemma_read_all(ops: Seq<Instruction>, opens: Seq<usize>, src: Seq<char>)
    requires
        reading(ops, opens, src, src.len() as int),
    ensures
        opens.len() == 0 <==> balanced(src),
        opens.len() == 0 ==> ops == compiled(src) && well_formed(ops),
        counts_within(ops, src.len() as int),
{
    let all = decoded(src);
    assert(src.take(src.len() as int) =~= src);
    if opens.len() == 0 {
        assert forall|i: int| 0 <= i < ops.len() implies #[trigger] well_formed_at(ops, i) by {
            assert(settled(ops, opens, i));
        }
        assert(same_brackets(ops, all, ops.len() as int)) by {
            assert forall|i: int| 0 <= i < ops.len() implies depth_change(#[trigger] ops[i])
                == depth_change(all[i]) by {
                assert(unresolved(ops[i]) == all[i]);
            }
        }
        assert forall|i: int| 0 <= i < ops.len() implies ops[i] == resolved_at(all, i) by {
            assert(unresolved(ops[i]) == all[i]);
            assert(well_formed_at(ops, i));
            match ops[i] {
                Instruction::LoopStart(close) => {
                    lemma_pair_same_brackets(ops, all, i, close as int);
                    lemma_pair_is_the_match(all, i, close as int);
                },
                Instruction::LoopEnd(open) => {
                    lemma_pair_same_brackets(ops, all, open as int, i);
                    lemma_pair_is_the_match(all, open as int, i);
                },
                _ => {},
            }
        }
        assert(ops =~= compiled(src));
    }
}

/// Some state of the compiler after the first `p` characters of `src`,
/// where no `]` among them is without its `[`.
pub(crate) proof fn lemma_reading_exists(src: Seq<char>, p: int) -> (state: (Seq<Instruction>, Seq<usize>))
    requires
        0 <= p <= src.len() <= usize::MAX,
        forall|k: int| 0 <= k <= p ==> #[trigger] source_depth(src, k) >= 0,
    ensures
        reading(state.0, state.1, src, p),
    decreases p,
{
    if p == 0 {
        let state = (Seq::<Instruction>::empty(), Seq::<usize>::empty());
        assert(src.take(0) =~= Seq::<char>::empty());
        state
    } else {
        let (ops, opens) = lemma_reading_exists(src, p - 1);
        assert(source_depth(src, p) == source_depth(src, p - 1) + bracket_change(src[p - 1]));
        if src[p - 1] == ']' {
            lemma_read_close(ops, opens, src, p - 1);
            (
                ops.update(opens.last() as int, Instruction::LoopStart(ops.len() as usize)).push(
                    Instruction::LoopEnd(opens.last()),
                ),
                opens.drop_last(),
            )
        } else {
            lemma_read_other(ops, opens, src, p - 1);
            (decode_char(ops, src[p - 1]), opens_after(ops, opens, src[p - 1]))
        }
    }
}

} // verus!

//! Positions in the source text and the instructions they become.
//!
//! Comments are dropped and runs of moves are merged, so a character and its
//! instruction have different indices. These lemmas relate the two, and show
//! that the nesting depth in front of a character is the nesting depth in
//! front of its instruction.

use crate::compiler::{
    bracket_change, decode_char, decoded, instructions_before, source_depth,
};
use crate::nesting::{depth, depth_change, lemma_depth_same_brackets, same_brackets};
use crate::instruction::Instruction;
use crate::reading::lemma_decoded_step;
use vstd::prelude::*;

verus! {

/// One more character leaves the brackets read so far as they are, and adds
/// at most one instruction.
pub(crate) proof fn lemma_decode_char_extends(ops: Seq<Instruction>, c: char)
    ensures
        ops.len() <= decode_char(ops, c).len() <= ops.len() + 1,
        same_brackets(ops, decode_char(ops, c), ops.len() as int),
        bracket_change(c) != 0 ==> decode_char(ops, c).len() == ops.len() + 1 && depth_change(
            decode_char(ops, c)[ops.len() as int],
        ) == bracket_change(c),
        depth(decode_char(ops, c), decode_char(ops, c).len() as int) == depth(
            ops,
            ops.len() as int,
        ) + bracket_change(c),
{
    let next = decode_char(ops, c);
    let n = ops.len() as int;
    assert(same_brackets(ops, next, n));
    lemma_depth_same_brackets(ops, next, n);
    if next.len() > n {
        assert(depth(next, n + 1) == depth(next, n) + depth_change(next[n]));
    }
}

/// The instructions of a prefix of the source keep their places and their
/// brackets when more of the source is read.
pub(crate) proof fn lemma_prefix_brackets(src: Seq<char>, p: int, q: int)
    requires
        0 <= p <= q <= src.len(),
    ensures
        instructions_before(src, p) <= instructions_before(src, q) <= instructions_before(src, p)
            + (q - p),
        same_brackets(
            decoded(src.take(p)),
            decoded(src.take(q)),
            instructions_before(src, p),
        ),
    decreases q - p,
{
    if p < q {
        lemma_prefix_brackets(src, p, q - 1);
        lemma_decoded_step(src, q - 1);
        lemma_decode_char_extends(decoded(src.take(q - 1)), src[q - 1]);
        let a = decoded(src.take(p));
        let b = decoded(src.take(q - 1));
        let c = decoded(src.take(q));
        assert forall|i: int| 0 <= i < a.len() implies depth_change(#[trigger] a[i])
            == depth_change(c[i]) by {
            assert(depth_change(a[i]) == depth_change(b[i]));
            assert(depth_change(b[i]) == depth_change(c[i]));
        }
    }
}

/// The depth behind the instructions of a prefix of the source is the depth
/// of the source behind that prefix.
pub(crate) proof fn lemma_prefix_depth(src: Seq<char>, p: int)
    requires
        0 <= p <= src.len(),
    ensures
        depth(decoded(src.take(p)), instructions_before(src, p)) == source_depth(src, p),
    decreases p,
{
    if p > 0 {
        lemma_prefix_depth(src, p - 1);
        lemma_decoded_step(src, p - 1);
        lemma_decode_char_extends(decoded(src.take(p - 1)), src[p - 1]);
    } else {
        assert(src.take(0) =~= Seq::<char>::empty());
    }
}

/// The depth in front of a position of the source is the depth in front of
/// the instruction that a command at that position begins.
pub(crate) proof fn lemma_depth_of_position(src: Seq<char>, p: int)
    requires
        0 <= p <= src.len(),
    ensures
        0 <= instructions_before(src, p) <= decoded(src).len(),
        depth(decoded(src), instructions_before(src, p)) == source_depth(src, p),
{
    lemma_prefix_depth(src, p);
    lemma_prefix_brackets(src, p, src.len() as int);
    assert(src.take(src.len() as int) =~= src);
    lemma_depth_same_brackets(decoded(src.take(p)), decoded(src), instructions_before(src, p));
}

/// A bracket of the source becomes the instruction that
/// `instructions_before` names, and that instruction is a bracket of the same
/// kind.
pub(crate) proof fn lemma_bracket_of_position(src: Seq<char>, p: int)
    requires
        0 <= p < src.len(),
        bracket_change(src[p]) != 0,
    ensures
        0 <= instructions_before(src, p) < decoded(src).len(),
        instructions_before(src, p + 1) == instructions_before(src, p) + 1,
        depth_change(decoded(src)[instructions_before(src, p)]) == bracket_change(src[p]),
{
    lemma_decoded_step(src, p);
    lemma_decode_char_extends(decoded(src.take(p)), src[p]);
    lemma_prefix_brackets(src, p + 1, src.len() as int);
    assert(src.take(src.len() as int) =~= src);
    let at = instructions_before(src, p);
    assert(depth_change(decoded(src.take(p + 1))[at]) == depth_change(decoded(src)[at]));
}

/// Every instruction index between those of two positions of the source is
/// that of a position between them.
pub(crate) proof fn lemma_position_of_index(src: Seq<char>, p: int, q: int, k: int) -> (r: int)
    requires
        0 <= p <= q <= src.len(),
        instructions_before(src, p) <= k <= instructions_before(src, q),
    ensures
        p <= r <= q,
        instructions_before(src, r) == k,
    decreases q - p,
{
    if instructions_before(src, q) == k {
        q
    } else {
        lemma_prefix_brackets(src, q - 1, q);
        lemma_position_of_index(src, p, q - 1, k)
    }
}

} // verus!

//! How the compressed form of an operation sequence lines up with the
//! sequence itself: where each instruction begins, and what that means for
//! loop nesting.
use vstd::prelude::*;
use crate::lowering::{
    closed, compress, depth, jump_symmetric, lemma_link_symmetric, lemma_run_length_bounds, lower,
    lower_unoptimized, span, unoptimized,
};
use crate::opcode::{Instruction, OpCode};
use crate::syntax::{count, well_nested};

verus! {

/// The position in `ops` at which instruction `j` of `compress(ops)` begins;
/// for `j` the length of the compressed form, the length of `ops`.
pub open spec fn boundary(ops: Seq<OpCode>, j: int) -> int
    decreases j,
{
    if j <= 0 || ops.len() == 0 {
        0
    } else {
        span(ops) + boundary(ops.skip(span(ops) as int), j - 1)
    }
}

/// The compressed form is no longer than the sequence, and its end lines up
/// with the end of the sequence.
pub proof fn lemma_boundary_end(ops: Seq<OpCode>)
    ensures
        compress(ops).len() <= ops.len(),
        boundary(ops, compress(ops).len() as int) == ops.len(),
        ops.len() > 0 ==> compress(ops).len() > 0,
    decreases ops.len(),
{
    if ops.len() > 0 {
        lemma_run_length_bounds(ops);
        lemma_boundary_end(ops.skip(span(ops) as int));
    }
}

/// Instruction `j` of the compressed form stands for the operations between
/// two consecutive boundaries: they are all the same operation, and there
/// is more than one of them only if that operation is collapsible.
pub proof fn lemma_boundary_step(ops: Seq<OpCode>, j: int)
    requires
        0 <= j < compress(ops).len(),
    ensures
        0 <= boundary(ops, j) < boundary(ops, j + 1) <= ops.len(),
        compress(ops)[j] == ops[boundary(ops, j)].repeated(
            (boundary(ops, j + 1) - boundary(ops, j)) as usize,
        ),
        forall|k: int|
            boundary(ops, j) <= k < boundary(ops, j + 1) ==> #[trigger] ops[k] == ops[boundary(
                ops,
                j,
            )],
        !ops[boundary(ops, j)].optimizable() ==> boundary(ops, j + 1) == boundary(ops, j) + 1,
    decreases j,
{
    lemma_run_length_bounds(ops);
    let n = span(ops) as int;
    let rest = ops.skip(n);
    assert(boundary(rest, 0) == 0);
    if j > 0 {
        lemma_boundary_step(rest, j - 1);
        let b = boundary(rest, j - 1);
        let b2 = boundary(rest, j);
        assert(compress(ops)[j] == compress(rest)[j - 1]);
        assert(rest[b] == ops[n + b]);
        assert forall|k: int| boundary(ops, j) <= k < boundary(ops, j + 1) implies #[trigger] ops[k]
            == ops[boundary(ops, j)] by {
            assert(rest[k - n] == ops[k]);
        }
    }
}

/// Boundaries grow with the instruction index.
pub proof fn lemma_boundary_monotonic(ops: Seq<OpCode>, i: int, j: int)
    requires
        0 <= i <= j <= compress(ops).len(),
    ensures
        0 <= boundary(ops, i) <= boundary(ops, j) <= ops.len(),
        i < j ==> boundary(ops, i) < boundary(ops, j),
    decreases j - i,
{
    if i < j {
        lemma_boundary_step(ops, j - 1);
        lemma_boundary_monotonic(ops, i, j - 1);
    } else if j < compress(ops).len() {
        lemma_boundary_step(ops, j);
    } else {
        lemma_boundary_end(ops);
    }
}

/// Across a stretch of instructions that are neither loop heads nor loop
/// ends the nesting depth does not change.
pub proof fn lemma_depth_flat(code: Seq<Instruction>, from: int, to: int)
    requires
        0 <= from <= to <= code.len(),
        forall|k: int| from <= k < to ==> (#[trigger] code[k]).bracket() == 0,
    ensures
        depth(code, to) == depth(code, from),
    decreases to - from,
{
    if from < to {
        lemma_depth_flat(code, from, to - 1);
    }
}

/// The nesting depth of the uncompressed form counts loop heads minus loop
/// ends.
pub proof fn lemma_depth_counts(ops: Seq<OpCode>, i: int)
    requires
        0 <= i <= ops.len(),
    ensures
        depth(unoptimized(ops), i) == count(ops.take(i), OpCode::LoopHead) - count(
            ops.take(i),
            OpCode::LoopEnd,
        ),
    decreases i,
{
    if i > 0 {
        lemma_depth_counts(ops, i - 1);
        assert(ops.take(i).drop_last() == ops.take(i - 1));
    }
}

/// Balanced operations are exactly those whose uncompressed form has closed
/// loops.
pub proof fn lemma_well_nested_closed(ops: Seq<OpCode>)
    ensures
        well_nested(ops) <==> closed(unoptimized(ops)),
{
    let code = unoptimized(ops);
    assert(ops.take(ops.len() as int) == ops);
    lemma_depth_counts(ops, ops.len() as int);
    if well_nested(ops) {
        assert forall|i: int| 0 <= i <= code.len() implies #[trigger] depth(code, i) >= 0 by {
            lemma_depth_counts(ops, i);
        }
    }
    if closed(code) {
        assert forall|k: int| 0 <= k <= ops.len() implies count(
            #[trigger] ops.take(k),
            OpCode::LoopEnd,
        ) <= count(ops.take(k), OpCode::LoopHead) by {
            lemma_depth_counts(ops, k);
            assert(depth(code, k) >= 0);
        }
    }
}

/// The nesting depth in front of an instruction of the compressed form is
/// the depth in front of the operation it begins at.
pub proof fn lemma_depth_compress(ops: Seq<OpCode>, j: int)
    requires
        0 <= j <= compress(ops).len(),
    ensures
        depth(compress(ops), j) == depth(unoptimized(ops), boundary(ops, j)),
    decreases j,
{
    if j > 0 {
        lemma_depth_compress(ops, j - 1);
        lemma_boundary_step(ops, j - 1);
        let code = unoptimized(ops);
        let b = boundary(ops, j - 1);
        let b2 = boundary(ops, j);
        if ops[b].optimizable() {
            assert forall|k: int| b <= k < b2 implies (#[trigger] code[k]).bracket() == 0 by {
                assert(ops[k] == ops[b]);
            }
            lemma_depth_flat(code, b, b2);
        } else {
            assert(depth(code, b2) == depth(code, b) + code[b].bracket());
        }
    }
}

/// Strictly between two boundaries the depth of the uncompressed form is
/// what it is at the first of them.
pub proof fn lemma_depth_inside(ops: Seq<OpCode>, j: int, k: int)
    requires
        0 <= j < compress(ops).len(),
        boundary(ops, j) <= k < boundary(ops, j + 1),
    ensures
        depth(unoptimized(ops), k) == depth(unoptimized(ops), boundary(ops, j)),
{
    lemma_boundary_step(ops, j);
    let code = unoptimized(ops);
    let b = boundary(ops, j);
    if k > b {
        assert forall|m: int| b <= m < k implies (#[trigger] code[m]).bracket() == 0 by {
            assert(ops[m] == ops[b]);
        }
        lemma_depth_flat(code, b, k);
    }
}

/// Compression keeps loops closed.
pub proof fn lemma_compress_closed(ops: Seq<OpCode>)
    requires
        well_nested(ops),
    ensures
        closed(compress(ops)),
{
    lemma_well_nested_closed(ops);
    lemma_boundary_end(ops);
    let code = compress(ops);
    assert forall|j: int| 0 <= j <= code.len() implies #[trigger] depth(code, j) >= 0 by {
        lemma_depth_compress(ops, j);
        lemma_boundary_monotonic(ops, j, code.len() as int);
    }
    lemma_depth_compress(ops, code.len() as int);
}

/// Jump symmetry of compiled programs: in the lowered form of balanced
/// operations, compressed or not, the instruction that a loop head points
/// at is a loop end that points back at it, and the other way round.
pub proof fn lemma_lowered_jumps_symmetric(ops: Seq<OpCode>)
    requires
        well_nested(ops),
        ops.len() <= usize::MAX,
    ensures
        jump_symmetric(lower(ops)),
        jump_symmetric(lower_unoptimized(ops)),
{
    lemma_compress_closed(ops);
    lemma_boundary_end(ops);
    lemma_link_symmetric(compress(ops));
    lemma_well_nested_closed(ops);
    lemma_link_symmetric(unoptimized(ops));
}

} // verus!

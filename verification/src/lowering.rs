//! What lowering means: run-length compression and jump resolution as
//! mathematical functions on sequences.
use vstd::prelude::*;
use crate::opcode::{Instruction, OpCode};

verus! {

/// The length of the longest prefix of `ops` that repeats its first element.
pub open spec fn run_length(ops: Seq<OpCode>) -> nat
    decreases ops.len(),
{
    if ops.len() == 0 {
        0
    } else if ops.len() >= 2 && ops[1] == ops[0] {
        1 + run_length(ops.drop_first())
    } else {
        1
    }
}

/// How many leading operations of `ops` the first instruction of its
/// compressed form stands for: a whole run of a collapsible operation, and
/// one operation otherwise.
pub open spec fn span(ops: Seq<OpCode>) -> nat {
    if ops.len() > 0 && ops[0].optimizable() {
        run_length(ops)
    } else if ops.len() > 0 {
        1
    } else {
        0
    }
}

/// A run is never empty and never longer than the sequence.
pub proof fn lemma_run_length_bounds(ops: Seq<OpCode>)
    ensures
        run_length(ops) <= ops.len(),
        ops.len() > 0 ==> run_length(ops) >= 1,
        forall|i: int| 0 <= i < run_length(ops) ==> #[trigger] ops[i] == ops[0],
        run_length(ops) < ops.len() ==> ops[run_length(ops) as int] != ops[0],
    decreases ops.len(),
{
    if ops.len() >= 2 && ops[1] == ops[0] {
        let rest = ops.drop_first();
        lemma_run_length_bounds(rest);
        assert forall|i: int| 0 <= i < run_length(ops) implies #[trigger] ops[i] == ops[0] by {
            if i > 0 {
                assert(rest[i - 1] == ops[i]);
            }
        }
        if run_length(ops) < ops.len() {
            assert(rest[run_length(rest) as int] == ops[run_length(ops) as int]);
        }
    }
}

/// The run-length compressed form of `ops`: each maximal run of a
/// collapsible operation becomes one counted instruction, and every other
/// operation becomes its own unit instruction. Loop targets are left
/// unresolved.
pub open spec fn compress(ops: Seq<OpCode>) -> Seq<Instruction>
    decreases ops.len(),
    via compress_decreases
{
    if ops.len() == 0 {
        Seq::empty()
    } else {
        seq![ops[0].repeated(span(ops) as usize)] + compress(ops.skip(span(ops) as int))
    }
}

#[via_fn]
proof fn compress_decreases(ops: Seq<OpCode>) {
    lemma_run_length_bounds(ops);
}

/// The instructions that a maximal run of `n` occurrences of `code` lowers
/// to: one counted instruction if `code` is collapsible, `n` unit
/// instructions otherwise.
pub open spec fn emit(code: OpCode, n: nat) -> Seq<Instruction> {
    if code.optimizable() {
        seq![code.repeated(n as usize)]
    } else {
        Seq::new(n, |i: int| code.unit())
    }
}

/// A prefix of equal elements that cannot be extended is the leading run.
pub proof fn lemma_run_length_is(ops: Seq<OpCode>, n: nat)
    requires
        1 <= n <= ops.len(),
        forall|i: int| 0 <= i < n ==> #[trigger] ops[i] == ops[0],
        n < ops.len() ==> ops[n as int] != ops[0],
    ensures
        run_length(ops) == n,
    decreases n,
{
    if n > 1 {
        let rest = ops.drop_first();
        assert(ops[1] == ops[0]);
        assert forall|i: int| 0 <= i < n - 1 implies #[trigger] rest[i] == rest[0] by {
            assert(rest[i] == ops[i + 1]);
            assert(rest[0] == ops[1]);
        }
        if n < ops.len() {
            assert(rest[n - 1] == ops[n as int]);
        }
        lemma_run_length_is(rest, (n - 1) as nat);
    }
}

/// Compression of a sequence that starts with a maximal run of `n`
/// occurrences of one operation emits that run and goes on behind it.
pub proof fn lemma_compress_run(ops: Seq<OpCode>, n: nat)
    requires
        1 <= n <= ops.len(),
        forall|i: int| 0 <= i < n ==> #[trigger] ops[i] == ops[0],
        n < ops.len() ==> ops[n as int] != ops[0],
    ensures
        compress(ops) == emit(ops[0], n) + compress(ops.skip(n as int)),
    decreases n,
{
    if ops[0].optimizable() {
        lemma_run_length_is(ops, n);
    } else if n == 1 {
        assert(emit(ops[0], 1) == seq![ops[0].unit()]);
    } else {
        let rest = ops.skip(1);
        assert forall|i: int| 0 <= i < n - 1 implies #[trigger] rest[i] == rest[0] by {
            assert(rest[i] == ops[i + 1]);
            assert(rest[0] == ops[1]);
        }
        if n < ops.len() {
            assert(rest[n - 1] == ops[n as int]);
        }
        lemma_compress_run(rest, (n - 1) as nat);
        assert(rest.skip(n - 1) == ops.skip(n as int));
        assert(rest[0] == ops[0]);
        assert(emit(ops[0], n) == seq![ops[0].unit()] + emit(ops[0], (n - 1) as nat));
    }
}

/// The uncompressed form of `ops`: one unit instruction per operation.
/// Loop targets are left unresolved.
pub open spec fn unoptimized(ops: Seq<OpCode>) -> Seq<Instruction> {
    Seq::new(ops.len(), |i: int| ops[i].unit())
}

impl Instruction {
    /// What the instruction does to the loop nesting depth.
    pub open spec fn bracket(self) -> int {
        match self {
            Instruction::LoopHead(_) => 1,
            Instruction::LoopEnd(_) => -1,
            _ => 0,
        }
    }
}

/// The loop nesting depth in front of position `i`: loop heads minus loop
/// ends among the first `i` instructions.
pub open spec fn depth(code: Seq<Instruction>, i: int) -> int
    decreases i,
{
    if i <= 0 {
        0
    } else {
        depth(code, i - 1) + code[i - 1].bracket()
    }
}

/// The depth never drops below zero and ends at zero.
pub open spec fn closed(code: Seq<Instruction>) -> bool {
    &&& forall|i: int| 0 <= i <= code.len() ==> #[trigger] depth(code, i) >= 0
    &&& depth(code, code.len() as int) == 0
}

/// The loop head at `head` and the loop end at `end` delimit one loop: the
/// depth behind `end` is back to what it was in front of `head`, for the
/// first time.
pub open spec fn is_pair(code: Seq<Instruction>, head: int, end: int) -> bool {
    &&& 0 <= head < end < code.len()
    &&& code[head] is LoopHead
    &&& code[end] is LoopEnd
    &&& depth(code, end + 1) == depth(code, head)
    &&& forall|k: int| head < k <= end ==> #[trigger] depth(code, k) > depth(code, head)
}

/// The position of the loop end that closes the loop head at `head`.
pub open spec fn matching_end(code: Seq<Instruction>, head: int) -> int {
    choose|end: int| is_pair(code, head, end)
}

/// The position of the loop head that the loop end at `end` closes.
pub open spec fn matching_head(code: Seq<Instruction>, end: int) -> int {
    choose|head: int| is_pair(code, head, end)
}

/// `code` with every loop instruction pointing at its partner.
pub open spec fn link(code: Seq<Instruction>) -> Seq<Instruction> {
    Seq::new(
        code.len(),
        |i: int|
            match code[i] {
                Instruction::LoopHead(_) => Instruction::LoopHead(matching_end(code, i) as usize),
                Instruction::LoopEnd(_) => Instruction::LoopEnd(matching_head(code, i) as usize),
                other => other,
            },
    )
}

/// The executable form of `ops`: compressed, then linked.
pub open spec fn lower(ops: Seq<OpCode>) -> Seq<Instruction> {
    link(compress(ops))
}

/// The executable form of `ops` without compression: one instruction per
/// operation, linked.
pub open spec fn lower_unoptimized(ops: Seq<OpCode>) -> Seq<Instruction> {
    link(unoptimized(ops))
}

/// The loop head at `head` is still open in front of position `upto`, at
/// nesting level `level`.
pub open spec fn open_at(code: Seq<Instruction>, head: int, level: int, upto: int) -> bool {
    &&& 0 <= head < upto
    &&& code[head] is LoopHead
    &&& depth(code, head) == level
    &&& forall|k: int| head < k <= upto ==> #[trigger] depth(code, k) > level
}

/// A loop head has at most one matching end.
pub proof fn lemma_pair_end_unique(code: Seq<Instruction>, head: int, e1: int, e2: int)
    requires
        is_pair(code, head, e1),
        is_pair(code, head, e2),
    ensures
        e1 == e2,
{
    if e1 < e2 {
        assert(depth(code, e1 + 1) > depth(code, head));
    } else if e2 < e1 {
        assert(depth(code, e2 + 1) > depth(code, head));
    }
}

/// A loop end has at most one matching head.
pub proof fn lemma_pair_head_unique(code: Seq<Instruction>, h1: int, h2: int, end: int)
    requires
        is_pair(code, h1, end),
        is_pair(code, h2, end),
    ensures
        h1 == h2,
{
    if h1 < h2 {
        assert(depth(code, h2) > depth(code, h1));
    } else if h2 < h1 {
        assert(depth(code, h1) > depth(code, h2));
    }
}

/// Every loop instruction points at a partner that points back at it, and
/// a loop head always stands before its end.
pub open spec fn jump_symmetric(code: Seq<Instruction>) -> bool {
    forall|p: int|
        0 <= p < code.len() ==> match #[trigger] code[p] {
            Instruction::LoopHead(e) => p < e < code.len() && code[e as int]
                == Instruction::LoopEnd(p as usize),
            Instruction::LoopEnd(h) => h < p && code[h as int] == Instruction::LoopHead(
                p as usize,
            ),
            _ => true,
        }
}

/// Walks forward from a loop head to the loop end that closes it.
proof fn lemma_find_end(code: Seq<Instruction>, head: int, k: int) -> (end: int)
    requires
        closed(code),
        0 <= head < k <= code.len(),
        code[head] is LoopHead,
        forall|m: int| head < m <= k ==> #[trigger] depth(code, m) > depth(code, head),
    ensures
        is_pair(code, head, end),
    decreases code.len() - k,
{
    assert(depth(code, head) >= 0);
    assert(depth(code, k) > depth(code, head));
    assert(k < code.len());
    assert(depth(code, k + 1) == depth(code, k) + code[k].bracket());
    if depth(code, k + 1) > depth(code, head) {
        lemma_find_end(code, head, k + 1)
    } else {
        k
    }
}

/// Walks backward from a loop end to the loop head that it closes.
proof fn lemma_find_head(code: Seq<Instruction>, k: int, end: int) -> (head: int)
    requires
        closed(code),
        0 <= k <= end < code.len(),
        code[end] is LoopEnd,
        forall|m: int| k <= m <= end ==> #[trigger] depth(code, m) > depth(code, end + 1),
    ensures
        is_pair(code, head, end),
    decreases k,
{
    assert(depth(code, end + 1) >= 0);
    assert(depth(code, k) > depth(code, end + 1));
    assert(k > 0);
    assert(depth(code, k) == depth(code, k - 1) + code[k - 1].bracket());
    if depth(code, k - 1) > depth(code, end + 1) {
        lemma_find_head(code, k - 1, end)
    } else {
        k - 1
    }
}

/// Where loops are closed, every loop head has its end.
pub proof fn lemma_end_exists(code: Seq<Instruction>, head: int)
    requires
        closed(code),
        0 <= head < code.len(),
        code[head] is LoopHead,
    ensures
        is_pair(code, head, matching_end(code, head)),
{
    assert(depth(code, head + 1) == depth(code, head) + code[head].bracket());
    let end = lemma_find_end(code, head, head + 1);
}

/// Where loops are closed, every loop end has its head.
pub proof fn lemma_head_exists(code: Seq<Instruction>, end: int)
    requires
        closed(code),
        0 <= end < code.len(),
        code[end] is LoopEnd,
    ensures
        is_pair(code, matching_head(code, end), end),
{
    assert(depth(code, end + 1) == depth(code, end) + code[end].bracket());
    let head = lemma_find_head(code, end, end);
}

/// Linking code whose loops are closed makes its jumps symmetric: the end
/// that a loop head points at points back at that head, and the other way
/// round.
pub proof fn lemma_link_symmetric(code: Seq<Instruction>)
    requires
        closed(code),
        code.len() <= usize::MAX,
    ensures
        jump_symmetric(link(code)),
{
    let linked = link(code);
    assert forall|p: int| 0 <= p < linked.len() implies match #[trigger] linked[p] {
        Instruction::LoopHead(e) => p < e < linked.len() && linked[e as int]
            == Instruction::LoopEnd(p as usize),
        Instruction::LoopEnd(h) => h < p && linked[h as int] == Instruction::LoopHead(p as usize),
        _ => true,
    } by {
        match code[p] {
            Instruction::LoopHead(_) => {
                lemma_end_exists(code, p);
                let e = matching_end(code, p);
                lemma_head_exists(code, e);
                lemma_pair_head_unique(code, p, matching_head(code, e), e);
            },
            Instruction::LoopEnd(_) => {
                lemma_head_exists(code, p);
                let h = matching_head(code, p);
                lemma_end_exists(code, h);
                lemma_pair_end_unique(code, h, p, matching_end(code, h));
            },
            _ => {},
        }
    }
}

} // verus!

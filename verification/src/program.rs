//! The compiler: from source text to a validated, linked program.
use vstd::prelude::*;
use crate::correspondence::{lemma_compress_closed, lemma_well_nested_closed};
use crate::grouping::{group_items, group_runs, splits_into_runs};
use crate::lowering::{
    closed, compress, depth, emit, is_pair, jump_symmetric, lemma_compress_run,
    lemma_link_symmetric, lemma_pair_end_unique, lemma_pair_head_unique, link, lower,
    lower_unoptimized, matching_end, matching_head, open_at, unoptimized,
};
use crate::opcode::{Instruction, OpCode};
use crate::syntax::{count, lemma_lex_balance, lex, scan, well_bracketed, well_nested};

verus! {

/// Position `k` is one of the pending loop heads.
spec fn pending(stack: Seq<usize>, k: int) -> bool {
    exists|j: int| 0 <= j < stack.len() && #[trigger] stack[j] == k
}

/// What jump resolution has done at position `k` once the first `done`
/// instructions of `code` are processed: loop ends point at their heads,
/// loop heads that are closed point at their ends, and nothing else changed.
spec fn resolved_at(
    code: Seq<Instruction>,
    bound: Seq<Instruction>,
    stack: Seq<usize>,
    done: int,
    k: int,
) -> bool {
    if k >= done {
        bound[k] == code[k]
    } else {
        match code[k] {
            Instruction::LoopHead(_) => if pending(stack, k) {
                bound[k] is LoopHead
            } else {
                bound[k] matches Instruction::LoopHead(e) && is_pair(code, k, e as int)
            },
            Instruction::LoopEnd(_) => bound[k] matches Instruction::LoopEnd(h) && is_pair(
                code,
                h as int,
                k,
            ),
            other => bound[k] == other,
        }
    }
}

/// A validated, jump-resolved instruction sequence, immutable once made.
pub struct Program {
    instructions: Vec<Instruction>,
}

impl View for Program {
    type V = Seq<Instruction>;

    closed spec fn view(&self) -> Seq<Instruction> {
        self.instructions@
    }
}

impl Program {
    #[verifier::type_invariant]
    closed spec fn linked(&self) -> bool {
        jump_symmetric(self.instructions@)
    }

    /// The instructions of the program, in execution order.
    pub fn instructions(&self) -> (code: &Vec<Instruction>)
        ensures
            code@ == self@,
            jump_symmetric(self@),
    {
        proof {
            use_type_invariant(self);
        }
        &self.instructions
    }

    /// Compiles source text.
    ///
    /// Returns the program exactly when the brackets of the text are
    /// balanced; the program is then the lowered form of the operations the
    /// text denotes.
    pub fn parse(code: &str) -> (program: Option<Program>)
        ensures
            program is Some <==> well_bracketed(code@),
            program matches Some(p) ==> p@ == lower(lex(code@)) && jump_symmetric(p@),
    {
        let op_codes = scan(code);
        proof {
            lemma_lex_balance(code@);
        }
        if !Self::check(op_codes.as_slice()) {
            return None;
        }
        let instructions = Self::bind(op_codes.as_slice());
        Some(Program { instructions })
    }

    /// Compiles source text without run-length compression: one instruction
    /// per operation.
    ///
    /// Returns the program exactly when the brackets of the text are
    /// balanced.
    pub fn parse_unoptimized(code: &str) -> (program: Option<Program>)
        ensures
            program is Some <==> well_bracketed(code@),
            program matches Some(p) ==> p@ == lower_unoptimized(lex(code@)) && jump_symmetric(p@),
    {
        let op_codes = scan(code);
        proof {
            lemma_lex_balance(code@);
        }
        if !Self::check(op_codes.as_slice()) {
            return None;
        }
        let mut plain: Vec<Instruction> = Vec::new();
        let mut i: usize = 0;
        while i < op_codes.len()
            invariant
                i <= op_codes.len(),
                plain@ == unoptimized(op_codes@).take(i as int),
            decreases op_codes.len() - i,
        {
            plain.push(op_codes[i].as_instruction());
            i = i + 1;
        }
        proof {
            assert(plain@ == unoptimized(op_codes@));
            lemma_well_nested_closed(op_codes@);
        }
        let instructions = Self::resolve(plain);
        Some(Program { instructions })
    }

    /// Lowers balanced operations to instructions: compresses runs, then
    /// resolves jumps.
    pub fn bind(op_codes: &[OpCode]) -> (bound_instructions: Vec<Instruction>)
        requires
            well_nested(op_codes@),
        ensures
            bound_instructions@ == lower(op_codes@),
            jump_symmetric(bound_instructions@),
    {
        let optimized_instructions = Self::optimize(op_codes);
        proof {
            lemma_compress_closed(op_codes@);
        }
        Self::resolve(optimized_instructions)
    }

    /// The structural check a program must pass to be compiled.
    pub fn check(op_codes: &[OpCode]) -> (ok: bool)
        ensures
            ok == well_nested(op_codes@),
    {
        Self::has_balanced_brackets(op_codes)
    }

    /// Tells whether every loop end closes an earlier loop head and every
    /// loop head is closed.
    pub fn has_balanced_brackets(op_codes: &[OpCode]) -> (ok: bool)
        ensures
            ok == well_nested(op_codes@),
    {
        let mut unclosed_loop_heads: usize = 0;
        let mut i: usize = 0;
        while i < op_codes.len()
            invariant
                i <= op_codes@.len(),
                unclosed_loop_heads == count(op_codes@.take(i as int), OpCode::LoopHead) - count(
                    op_codes@.take(i as int),
                    OpCode::LoopEnd,
                ),
                unclosed_loop_heads <= i,
                forall|k: int|
                    0 <= k <= i ==> count(#[trigger] op_codes@.take(k), OpCode::LoopEnd) <= count(
                        op_codes@.take(k),
                        OpCode::LoopHead,
                    ),
            decreases op_codes@.len() - i,
        {
            proof {
                assert(op_codes@.take(i + 1).drop_last() == op_codes@.take(i as int));
            }
            match op_codes[i] {
                OpCode::LoopHead => {
                    unclosed_loop_heads = unclosed_loop_heads + 1;
                },
                OpCode::LoopEnd => {
                    if unclosed_loop_heads == 0 {
                        return false;
                    }
                    unclosed_loop_heads = unclosed_loop_heads - 1;
                },
                _ => {},
            }
            i = i + 1;
        }
        proof {
            assert(op_codes@.take(op_codes@.len() as int) == op_codes@);
        }
        unclosed_loop_heads == 0
    }

    /// The run-length compression pass.
    pub fn optimize(op_codes: &[OpCode]) -> (optimized: Vec<Instruction>)
        ensures
            optimized@ == compress(op_codes@),
    {
        let groups = group_runs(op_codes);
        let ghost items = group_items(groups@);
        let mut optimized: Vec<Instruction> = Vec::new();
        let mut g: usize = 0;
        proof {
            assert(items.skip(0) == items);
        }
        while g < groups.len()
            invariant
                splits_into_runs(groups@, op_codes@),
                items == group_items(groups@),
                g <= groups.len(),
                optimized@ + compress(items.skip(g as int).flatten()) == compress(op_codes@),
            decreases groups.len() - g,
        {
            let code = groups[g].0;
            let n = groups[g].1.len();
            proof {
                let rest = items.skip(g as int).flatten();
                let tail = items.skip(g + 1).flatten();
                assert(items.skip(g as int).first() == groups@[g as int].1@);
                assert(items.skip(g as int).drop_first() == items.skip(g + 1));
                assert(rest == groups@[g as int].1@ + tail);
                assert forall|i: int| 0 <= i < n implies #[trigger] rest[i] == rest[0] by {
                    assert(rest[i] == groups@[g as int].1@[i]);
                    assert(rest[0] == groups@[g as int].1@[0]);
                }
                assert(rest[0] == code);
                if n < rest.len() {
                    assert(g + 1 < groups.len()) by {
                        if g + 1 >= groups.len() {
                            assert(items.skip(g + 1).len() == 0);
                        }
                    }
                    assert(items.skip(g + 1).first() == groups@[g + 1].1@);
                    assert(tail == groups@[g + 1].1@ + items.skip(g + 1).drop_first().flatten());
                    assert(rest[n as int] == tail[0]);
                    assert(tail[0] == groups@[g + 1].1@[0]);
                }
                lemma_compress_run(rest, n as nat);
                assert(rest.skip(n as int) == tail);
            }
            if n == 1 {
                optimized.push(code.as_instruction());
            } else if code.is_run_length_optimizable() {
                optimized.push(code.create_optimized_instruction(n));
            } else {
                let ghost before = optimized@;
                let mut k: usize = 0;
                while k < n
                    invariant
                        k <= n,
                        !code.optimizable(),
                        optimized@ == before + emit(code, k as nat),
                    decreases n - k,
                {
                    optimized.push(code.as_instruction());
                    k = k + 1;
                }
            }
            g = g + 1;
        }
        proof {
            assert(items.skip(g as int).flatten() == Seq::<OpCode>::empty());
        }
        optimized
    }

    /// The jump resolution pass: gives every loop instruction the position
    /// of its partner.
    pub fn resolve(optimized: Vec<Instruction>) -> (bound: Vec<Instruction>)
        requires
            closed(optimized@),
        ensures
            bound@ == link(optimized@),
            jump_symmetric(bound@),
    {
        let ghost code = optimized@;
        let mut bound = optimized;
        let mut loop_head_address_stack: Vec<usize> = Vec::new();
        let mut i: usize = 0;
        while i < bound.len()
            invariant
                closed(code),
                bound.len() == code.len(),
                i <= bound.len(),
                loop_head_address_stack.len() == depth(code, i as int),
                forall|j: int|
                    0 <= j < loop_head_address_stack.len() ==> open_at(
                        code,
                        #[trigger] loop_head_address_stack@[j] as int,
                        j,
                        i as int,
                    ),
                forall|k: int|
                    0 <= k < code.len() ==> #[trigger] resolved_at(
                        code,
                        bound@,
                        loop_head_address_stack@,
                        i as int,
                        k,
                    ),
            decreases bound.len() - i,
        {
            let ghost stack_before = loop_head_address_stack@;
            let ghost bound_before = bound@;
            assert(resolved_at(code, bound_before, stack_before, i as int, i as int));
            assert(depth(code, i + 1) == depth(code, i as int) + code[i as int].bracket());
            match bound[i] {
                Instruction::LoopHead(_) => {
                    loop_head_address_stack.push(i);
                    proof {
                        let stack = loop_head_address_stack@;
                        assert(stack[stack.len() - 1] == i);
                        assert forall|k: int| 0 <= k < code.len() implies #[trigger] resolved_at(
                            code,
                            bound@,
                            stack,
                            i + 1,
                            k,
                        ) by {
                            assert(resolved_at(code, bound_before, stack_before, i as int, k));
                            if k < i && pending(stack_before, k) {
                                let j = choose|j: int|
                                    0 <= j < stack_before.len() && #[trigger] stack_before[j] == k;
                                assert(stack[j] == k);
                            }
                            if k < i && pending(stack, k) {
                                let j = choose|j: int|
                                    0 <= j < stack.len() && #[trigger] stack[j] == k;
                                assert(stack_before[j] == k);
                            }
                        }
                    }
                },
                Instruction::LoopEnd(_) => {
                    assert(depth(code, i + 1) >= 0);
                    let corresponding_start_index = loop_head_address_stack.pop().unwrap();
                    bound[i] = Instruction::LoopEnd(corresponding_start_index);
                    bound[corresponding_start_index] = Instruction::LoopHead(i);
                    proof {
                        let stack = loop_head_address_stack@;
                        let p = corresponding_start_index as int;
                        assert(stack_before[stack_before.len() - 1] == p);
                        assert(open_at(code, p, stack_before.len() - 1, i as int));
                        assert(is_pair(code, p, i as int));
                        assert forall|k: int| 0 <= k < code.len() implies #[trigger] resolved_at(
                            code,
                            bound@,
                            stack,
                            i + 1,
                            k,
                        ) by {
                            assert(resolved_at(code, bound_before, stack_before, i as int, k));
                            if k < i && k != p && pending(stack_before, k) {
                                let j = choose|j: int|
                                    0 <= j < stack_before.len() && #[trigger] stack_before[j] == k;
                                assert(stack[j] == k);
                            }
                            if k < i && pending(stack, k) {
                                let j = choose|j: int|
                                    0 <= j < stack.len() && #[trigger] stack[j] == k;
                                assert(stack_before[j] == k);
                                assert(open_at(code, stack_before[j] as int, j, i as int));
                                assert(k != p);
                            }
                        }
                    }
                },
                _ => {
                    proof {
                        assert forall|k: int| 0 <= k < code.len() implies #[trigger] resolved_at(
                            code,
                            bound@,
                            loop_head_address_stack@,
                            i + 1,
                            k,
                        ) by {
                            assert(resolved_at(code, bound_before, stack_before, i as int, k));
                        }
                    }
                },
            }
            i = i + 1;
        }
        proof {
            assert forall|k: int| 0 <= k < code.len() implies bound@[k] == link(code)[k] by {
                assert(resolved_at(code, bound@, loop_head_address_stack@, i as int, k));
                assert(!pending(loop_head_address_stack@, k));
                match code[k] {
                    Instruction::LoopHead(_) => {
                        let e = bound@[k]->LoopHead_0 as int;
                        lemma_pair_end_unique(code, k, e, matching_end(code, k));
                    },
                    Instruction::LoopEnd(_) => {
                        let h = bound@[k]->LoopEnd_0 as int;
                        lemma_pair_head_unique(code, h, matching_head(code, k), k);
                    },
                    _ => {},
                }
            }
            assert(bound@ =~= link(code));
            assert(bound.len() <= usize::MAX);
            lemma_link_symmetric(code);
        }
        bound
    }
}

} // verus!

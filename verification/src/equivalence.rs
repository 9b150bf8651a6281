//! Run-length compression does not change what a program does.
use vstd::prelude::*;
use crate::correspondence::{
    boundary, lemma_boundary_end, lemma_boundary_monotonic, lemma_boundary_step,
    lemma_compress_closed, lemma_depth_compress, lemma_depth_inside, lemma_well_nested_closed,
};
use crate::lowering::{
    compress, depth, is_pair, lemma_end_exists, lemma_head_exists, lemma_pair_end_unique,
    lemma_pair_head_unique, link, lower, lower_unoptimized, matching_end, matching_head,
    unoptimized,
};
use crate::machine::{cell_minus, cell_plus, execute, Config, Event, Fault, Session, Status};
use crate::opcode::{Instruction, OpCode};
use crate::syntax::well_nested;

verus! {

/// Searches upward from instruction `j` for the one that covers operation
/// `k`.
proof fn lemma_locate_from(ops: Seq<OpCode>, k: int, j: int) -> (found: int)
    requires
        0 <= j < compress(ops).len(),
        boundary(ops, j) <= k < ops.len(),
    ensures
        0 <= found < compress(ops).len(),
        boundary(ops, found) <= k < boundary(ops, found + 1),
    decreases compress(ops).len() - j,
{
    lemma_boundary_step(ops, j);
    lemma_boundary_end(ops);
    if k < boundary(ops, j + 1) {
        j
    } else {
        lemma_locate_from(ops, k, j + 1)
    }
}

/// Every operation is covered by exactly one instruction of the compressed
/// form; this finds it.
pub proof fn lemma_locate(ops: Seq<OpCode>, k: int) -> (found: int)
    requires
        0 <= k < ops.len(),
    ensures
        0 <= found < compress(ops).len(),
        boundary(ops, found) <= k < boundary(ops, found + 1),
{
    lemma_boundary_end(ops);
    lemma_locate_from(ops, k, 0)
}

/// A loop of the compressed form is a loop of the uncompressed form, at the
/// operations its head and end begin at.
pub proof fn lemma_pair_compress(ops: Seq<OpCode>, head: int, end: int)
    requires
        is_pair(compress(ops), head, end),
    ensures
        is_pair(unoptimized(ops), boundary(ops, head), boundary(ops, end)),
        boundary(ops, head + 1) == boundary(ops, head) + 1,
        boundary(ops, end + 1) == boundary(ops, end) + 1,
{
    let small = compress(ops);
    let big = unoptimized(ops);
    let bh = boundary(ops, head);
    let be = boundary(ops, end);
    lemma_boundary_step(ops, head);
    lemma_boundary_step(ops, end);
    lemma_boundary_monotonic(ops, head, end);
    lemma_depth_compress(ops, head);
    lemma_depth_compress(ops, end + 1);
    assert forall|k: int| bh < k <= be implies #[trigger] depth(big, k) > depth(big, bh) by {
        let j = lemma_locate(ops, k);
        lemma_depth_inside(ops, j, k);
        lemma_depth_compress(ops, j);
        if j <= head {
            lemma_boundary_monotonic(ops, j + 1, head + 1);
        }
        if j > end {
            lemma_boundary_monotonic(ops, end + 1, j);
        }
        assert(head < j <= end);
    }
}

/// How instruction `j` of the compressed program lines up with the
/// uncompressed program: a loop instruction faces the same loop
/// instruction, with the target carried over; an input or output
/// instruction faces itself; a counted instruction faces as many unit
/// instructions as it counts.
pub open spec fn aligned(ops: Seq<OpCode>, j: int) -> bool {
    let small = lower(ops);
    let big = lower_unoptimized(ops);
    let from = boundary(ops, j);
    let to = boundary(ops, j + 1);
    &&& 0 <= from < to <= big.len()
    &&& match small[j] {
        Instruction::LoopHead(e) => {
            &&& to == from + 1
            &&& j < e < small.len()
            &&& big[from] matches Instruction::LoopHead(t) && t == boundary(ops, e as int)
            &&& boundary(ops, e + 1) == boundary(ops, e as int) + 1
        },
        Instruction::LoopEnd(h) => {
            &&& to == from + 1
            &&& 0 <= h < j
            &&& big[from] matches Instruction::LoopEnd(t) && t == boundary(ops, h as int)
        },
        Instruction::PutChar => to == from + 1 && big[from] == Instruction::PutChar,
        Instruction::GetChar => to == from + 1 && big[from] == Instruction::GetChar,
        Instruction::IncrementPointer(n) => n == to - from && forall|k: int|
            from <= k < to ==> #[trigger] big[k] == Instruction::IncrementPointer(1),
        Instruction::DecrementPointer(n) => n == to - from && forall|k: int|
            from <= k < to ==> #[trigger] big[k] == Instruction::DecrementPointer(1),
        Instruction::IncrementValue(n) => n == to - from && forall|k: int|
            from <= k < to ==> #[trigger] big[k] == Instruction::IncrementValue(1),
        Instruction::DecrementValue(n) => n == to - from && forall|k: int|
            from <= k < to ==> #[trigger] big[k] == Instruction::DecrementValue(1),
    }
}

/// Every instruction of the compressed program lines up with the
/// uncompressed program.
pub proof fn lemma_aligned(ops: Seq<OpCode>, j: int)
    requires
        well_nested(ops),
        ops.len() <= usize::MAX,
        0 <= j < lower(ops).len(),
    ensures
        aligned(ops, j),
{
    let small = compress(ops);
    let big = unoptimized(ops);
    let from = boundary(ops, j);
    let to = boundary(ops, j + 1);
    lemma_boundary_step(ops, j);
    lemma_boundary_end(ops);
    lemma_compress_closed(ops);
    lemma_well_nested_closed(ops);
    match ops[from] {
        OpCode::LoopHead => {
            lemma_end_exists(small, j);
            let e = matching_end(small, j);
            lemma_pair_compress(ops, j, e);
            lemma_boundary_monotonic(ops, e, small.len() as int);
            lemma_end_exists(big, from);
            lemma_pair_end_unique(big, from, boundary(ops, e), matching_end(big, from));
        },
        OpCode::LoopEnd => {
            lemma_head_exists(small, j);
            let h = matching_head(small, j);
            lemma_pair_compress(ops, h, j);
            lemma_boundary_monotonic(ops, h, j);
            lemma_head_exists(big, from);
            lemma_pair_head_unique(big, boundary(ops, h), matching_head(big, from), from);
        },
        _ => {
            assert forall|k: int| from <= k < to implies #[trigger] link(big)[k]
                == ops[from].unit() by {
                assert(ops[k] == ops[from]);
            }
        },
    }
}

/// Two results of `execute` that an observer cannot tell apart: the same
/// status, tape, input consumption and output.
pub open spec fn same_outcome(a: (Session, Status), b: (Session, Status)) -> bool {
    &&& a.1 == b.1
    &&& a.0.config.tape == b.0.config.tape
    &&& a.0.consumed == b.0.consumed
    &&& a.0.output == b.0.output
}

/// A session of the compressed program and one of the uncompressed program
/// that stand at the same point of the same run.
pub open spec fn corresponds(ops: Seq<OpCode>, fast: Session, slow: Session) -> bool {
    &&& 0 <= fast.config.ip <= lower(ops).len()
    &&& slow.config.ip == boundary(ops, fast.config.ip)
    &&& 0 <= fast.config.dp == slow.config.dp
    &&& fast.config.tape == slow.config.tape
    &&& fast.consumed == slow.consumed
    &&& fast.output == slow.output
}

/// A run that has ended ends the same way with more fuel.
pub proof fn lemma_execute_more_fuel(
    code: Seq<Instruction>,
    s: Session,
    input: Seq<u8>,
    fuel: nat,
    more: nat,
)
    requires
        execute(code, s, input, fuel).1 != Status::OutOfSteps,
        fuel <= more,
    ensures
        execute(code, s, input, more) == execute(code, s, input, fuel),
    decreases fuel,
{
    let (next, event) = s.advance(code, input);
    match event {
        Event::Halted | Event::Faulted(_) | Event::Stalled => {},
        _ => {
            lemma_execute_more_fuel(code, next, input, (fuel - 1) as nat, (more - 1) as nat);
        },
    }
}

/// Whether `k` unit steps of the collapsible operation `op` can be taken
/// from session `s` without a fault.
pub open spec fn units_ok(op: OpCode, s: Session, k: int) -> bool {
    match op {
        OpCode::IncrementPointer => s.config.dp + k < s.config.tape.len(),
        OpCode::DecrementPointer => s.config.dp - k >= 0,
        _ => s.config.on_tape(),
    }
}

/// The data pointer and tape after `k` unit steps of `op` from `c`, with
/// the instruction pointer at `ip`.
pub open spec fn after_units(op: OpCode, s: Session, k: int, ip: int) -> Session {
    let c = s.config;
    let config = match op {
        OpCode::IncrementPointer => Config { ip, dp: c.dp + k, tape: c.tape },
        OpCode::DecrementPointer => Config { ip, dp: c.dp - k, tape: c.tape },
        OpCode::IncrementValue => Config {
            ip,
            dp: c.dp,
            tape: c.tape.update(c.dp, cell_plus(c.cell(), k)),
        },
        OpCode::DecrementValue => Config {
            ip,
            dp: c.dp,
            tape: c.tape.update(c.dp, cell_minus(c.cell(), k)),
        },
        _ => Config { ip, dp: c.dp, tape: c.tape },
    };
    Session { config, consumed: s.consumed, output: s.output }
}

/// The fault that a collapsible operation raises when it cannot be done.
pub open spec fn fault_of(op: OpCode) -> Fault {
    match op {
        OpCode::DecrementPointer => Fault::Underflow,
        _ => Fault::Overflow,
    }
}

/// `code` holds the unit instruction of `op` at each of the `k` positions
/// from `from` on.
pub open spec fn unit_run(code: Seq<Instruction>, op: OpCode, from: int, k: int) -> bool {
    &&& op.optimizable()
    &&& 0 <= from
    &&& from + k <= code.len()
    &&& forall|m: int| from <= m < from + k ==> #[trigger] code[m] == op.unit()
}

/// Reducing modulo 256 before adding or subtracting changes nothing
/// modulo 256.
proof fn lemma_mod_shift(x: int, b: int)
    ensures
        ((x % 256) + b) % 256 == (x + b) % 256,
        ((x % 256) - b) % 256 == (x - b) % 256,
{
    vstd::arithmetic::div_mod::lemma_add_mod_noop_right(b, x, 256);
    vstd::arithmetic::div_mod::lemma_sub_mod_noop(x, b, 256);
    vstd::arithmetic::div_mod::lemma_sub_mod_noop_right(x % 256, b, 256);
}

/// Adding to a cell in two goes is adding the sum, and so for taking away.
proof fn lemma_cell_twice(cell: u8, a: int, b: int)
    ensures
        cell_plus(cell_plus(cell, a), b) == cell_plus(cell, a + b),
        cell_minus(cell_minus(cell, a), b) == cell_minus(cell, a + b),
{
    let up = (cell as int + a) % 256;
    let down = (cell as int - a) % 256;
    assert(0 <= up < 256 && 0 <= down < 256);
    assert(cell_plus(cell, a) as int == up);
    assert(cell_minus(cell, a) as int == down);
    lemma_mod_shift(cell as int + a, b);
    lemma_mod_shift(cell as int - a, b);
}

/// Taking `k` unit steps that all succeed uses up `k` units of fuel and
/// leaves what one counted instruction would leave.
pub proof fn lemma_unit_steps(
    code: Seq<Instruction>,
    s: Session,
    input: Seq<u8>,
    op: OpCode,
    k: int,
    fuel: nat,
)
    requires
        1 <= k <= fuel,
        unit_run(code, op, s.config.ip, k),
        0 <= s.config.dp,
        units_ok(op, s, k),
    ensures
        execute(code, s, input, fuel) == execute(
            code,
            after_units(op, s, k, s.config.ip + k),
            input,
            (fuel - k) as nat,
        ),
    decreases k,
{
    let ip = s.config.ip;
    assert(code[ip] == op.unit());
    let (next, event) = s.advance(code, input);
    assert(event == Event::Advanced);
    assert(next == after_units(op, s, 1, ip + 1)) by {
        assert(cell_plus(s.config.cell(), 1) == cell_plus(s.config.cell(), 1int));
    }
    if k > 1 {
        assert(unit_run(code, op, ip + 1, k - 1));
        lemma_unit_steps(code, next, input, op, k - 1, (fuel - 1) as nat);
        lemma_cell_twice(s.config.cell(), 1, k - 1);
        assert(after_units(op, next, k - 1, ip + k).config.tape =~= after_units(
            op,
            s,
            k,
            ip + k,
        ).config.tape);
    }
}

/// A stretch of unit steps that cannot all be taken ends in the fault of
/// the operation, with the tape, the input and the output as they were.
pub proof fn lemma_unit_fault(
    code: Seq<Instruction>,
    s: Session,
    input: Seq<u8>,
    op: OpCode,
    k: int,
)
    requires
        1 <= k,
        unit_run(code, op, s.config.ip, k),
        0 <= s.config.dp,
        !units_ok(op, s, k),
    ensures
        same_outcome(execute(code, s, input, k as nat), (s, Status::Faulted(fault_of(op)))),
{
    let ip = s.config.ip;
    let c = s.config;
    let done: int = match op {
        OpCode::IncrementPointer => if c.dp + 1 >= c.tape.len() {
            0
        } else {
            c.tape.len() - 1 - c.dp
        },
        OpCode::DecrementPointer => c.dp,
        _ => 0,
    };
    assert(0 <= done < k);
    if done == 0 {
        assert(code[ip] == op.unit());
    } else {
        assert(unit_run(code, op, ip, done));
        lemma_unit_steps(code, s, input, op, done, k as nat);
        let then = after_units(op, s, done, ip + done);
        assert(code[ip + done] == op.unit());
    }
}

/// The collapsible operation a counted instruction repeats.
pub open spec fn counted_op(instruction: Instruction) -> OpCode {
    match instruction {
        Instruction::IncrementPointer(_) => OpCode::IncrementPointer,
        Instruction::DecrementPointer(_) => OpCode::DecrementPointer,
        Instruction::IncrementValue(_) => OpCode::IncrementValue,
        _ => OpCode::DecrementValue,
    }
}

/// Whether the instruction is one of the four that carry a count.
pub open spec fn is_counted(instruction: Instruction) -> bool {
    instruction is IncrementPointer || instruction is DecrementPointer
        || instruction is IncrementValue || instruction is DecrementValue
}

/// Whatever the uncompressed program ends with from a session, the
/// compressed program ends with from the corresponding session, on no more
/// fuel.
pub proof fn lemma_simulate_forward(
    ops: Seq<OpCode>,
    fast: Session,
    slow: Session,
    input: Seq<u8>,
    fuel: nat,
)
    requires
        well_nested(ops),
        ops.len() <= usize::MAX,
        corresponds(ops, fast, slow),
        execute(lower_unoptimized(ops), slow, input, fuel).1 != Status::OutOfSteps,
    ensures
        same_outcome(
            execute(lower(ops), fast, input, fuel),
            execute(lower_unoptimized(ops), slow, input, fuel),
        ),
    decreases fuel,
{
    let small = lower(ops);
    let big = lower_unoptimized(ops);
    let j = fast.config.ip;
    lemma_boundary_end(ops);
    if j < small.len() {
        lemma_aligned(ops, j);
        let from = boundary(ops, j);
        let width = boundary(ops, j + 1) - from;
        if is_counted(small[j]) {
            let op = counted_op(small[j]);
            assert(unit_run(big, op, from, width));
            if units_ok(op, slow, width) {
                if fuel < width {
                    assert(unit_run(big, op, from, fuel as int));
                    lemma_unit_steps(big, slow, input, op, fuel as int, fuel);
                } else {
                    lemma_unit_steps(big, slow, input, op, width, fuel);
                    let slow_next = after_units(op, slow, width, from + width);
                    let fast_next = after_units(op, fast, width, j + 1);
                    assert(fast.advance(small, input) == (fast_next, Event::Advanced));
                    lemma_simulate_forward(ops, fast_next, slow_next, input, (fuel - width) as nat);
                    lemma_execute_more_fuel(
                        small,
                        fast_next,
                        input,
                        (fuel - width) as nat,
                        (fuel - 1) as nat,
                    );
                }
            } else {
                lemma_unit_fault(big, slow, input, op, width);
                if fuel < width {
                    lemma_execute_more_fuel(big, slow, input, fuel, width as nat);
                } else {
                    lemma_execute_more_fuel(big, slow, input, width as nat, fuel);
                }
                assert(fast.advance(small, input).1 == Event::Faulted(fault_of(op)));
            }
        } else {
            let (fast_next, fast_event) = fast.advance(small, input);
            let (slow_next, slow_event) = slow.advance(big, input);
            assert(fast_event == slow_event);
            match fast_event {
                Event::Halted | Event::Faulted(_) | Event::Stalled => {},
                _ => {
                    assert(corresponds(ops, fast_next, slow_next));
                    lemma_simulate_forward(ops, fast_next, slow_next, input, (fuel - 1) as nat);
                },
            }
        }
    }
}

/// Whatever the compressed program ends with from a session, the
/// uncompressed program ends with from the corresponding session, given
/// the fuel this returns.
pub proof fn lemma_simulate_backward(
    ops: Seq<OpCode>,
    fast: Session,
    slow: Session,
    input: Seq<u8>,
    fuel: nat,
) -> (more: nat)
    requires
        well_nested(ops),
        ops.len() <= usize::MAX,
        corresponds(ops, fast, slow),
        execute(lower(ops), fast, input, fuel).1 != Status::OutOfSteps,
    ensures
        same_outcome(
            execute(lower_unoptimized(ops), slow, input, more),
            execute(lower(ops), fast, input, fuel),
        ),
    decreases fuel,
{
    let small = lower(ops);
    let big = lower_unoptimized(ops);
    let j = fast.config.ip;
    lemma_boundary_end(ops);
    if j < small.len() {
        lemma_aligned(ops, j);
        let from = boundary(ops, j);
        let width = boundary(ops, j + 1) - from;
        if is_counted(small[j]) {
            let op = counted_op(small[j]);
            assert(unit_run(big, op, from, width));
            if units_ok(op, slow, width) {
                let slow_next = after_units(op, slow, width, from + width);
                let fast_next = after_units(op, fast, width, j + 1);
                assert(fast.advance(small, input) == (fast_next, Event::Advanced));
                let rest = lemma_simulate_backward(
                    ops,
                    fast_next,
                    slow_next,
                    input,
                    (fuel - 1) as nat,
                );
                let more = (rest + width) as nat;
                lemma_unit_steps(big, slow, input, op, width, more);
                more
            } else {
                lemma_unit_fault(big, slow, input, op, width);
                assert(fast.advance(small, input).1 == Event::Faulted(fault_of(op)));
                width as nat
            }
        } else {
            let (fast_next, fast_event) = fast.advance(small, input);
            let (slow_next, slow_event) = slow.advance(big, input);
            assert(fast_event == slow_event);
            match fast_event {
                Event::Halted | Event::Faulted(_) | Event::Stalled => 1,
                _ => {
                    assert(corresponds(ops, fast_next, slow_next));
                    let rest = lemma_simulate_backward(
                        ops,
                        fast_next,
                        slow_next,
                        input,
                        (fuel - 1) as nat,
                    );
                    rest + 1
                },
            }
        }
    } else {
        1
    }
}

/// Run-length compression preserves observable behaviour.
///
/// For balanced operations, any tape and any input: if the uncompressed
/// program ends (halts, faults or stalls) within some number of cycles,
/// the compressed program ends within as many, in the same way, with the
/// same tape, the same input consumed and the same output; and if the
/// compressed program ends, so does the uncompressed one, given enough
/// cycles, again with the same result.
pub proof fn lemma_compression_preserves_behaviour(
    ops: Seq<OpCode>,
    tape: Seq<u8>,
    input: Seq<u8>,
    fuel: nat,
)
    requires
        well_nested(ops),
        ops.len() <= usize::MAX,
    ensures
        execute(lower_unoptimized(ops), Session::start(tape), input, fuel).1 != Status::OutOfSteps
            ==> same_outcome(
            execute(lower(ops), Session::start(tape), input, fuel),
            execute(lower_unoptimized(ops), Session::start(tape), input, fuel),
        ),
        execute(lower(ops), Session::start(tape), input, fuel).1 != Status::OutOfSteps
            ==> exists|more: nat|
            same_outcome(
                #[trigger] execute(lower_unoptimized(ops), Session::start(tape), input, more),
                execute(lower(ops), Session::start(tape), input, fuel),
            ),
{
    let start = Session::start(tape);
    assert(corresponds(ops, start, start));
    if execute(lower_unoptimized(ops), start, input, fuel).1 != Status::OutOfSteps {
        lemma_simulate_forward(ops, start, start, input, fuel);
    }
    if execute(lower(ops), start, input, fuel).1 != Status::OutOfSteps {
        let more = lemma_simulate_backward(ops, start, start, input, fuel);
    }
}

} // verus!

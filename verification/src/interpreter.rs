//! Whole runs from source text, and the usage text of the command line.
use vstd::prelude::*;
use crate::lowering::lower;
use crate::machine::{execute, Execution, Session};
use crate::program::Program;
use crate::syntax::{lex, well_bracketed};

verus! {

/// The tape size used when the caller states none: one mebibyte.
pub const DEFAULT_MEMORY_CAPACITY: usize = 1048576;

/// A tape of `capacity` cells, all zero.
pub open spec fn blank_tape(capacity: nat) -> Seq<u8> {
    Seq::new(capacity, |i: int| 0u8)
}

/// The tape size a run uses: the stated one, or the default.
pub open spec fn capacity_or_default(memory_capacity: Option<usize>) -> usize {
    match memory_capacity {
        Some(capacity) => capacity,
        None => DEFAULT_MEMORY_CAPACITY,
    }
}

/// The usage text for a program invoked as `program_line`.
pub open spec fn usage(program_line: Seq<char>) -> Seq<char> {
    "Usage:\n\t"@ + program_line
        + " <program.bf> [memory-size]\n\nMemory size in bytes. Defaults to 1MiB (1048576 bytes)"@
}

/// The result of compiling and running a source text.
#[derive(Debug)]
pub struct Run {
    /// The tape as the run left it.
    pub memory: Vec<u8>,
    /// How the run went.
    pub execution: Execution,
}

/// Compiles `program` and, if it compiles, runs it on a fresh all-zero tape
/// of `memory_capacity` cells (the default capacity if `None`), reading
/// from `input`, for at most `max_steps` fetch-execute cycles.
///
/// Returns `None` exactly when the brackets of `program` are unbalanced:
/// nothing is run then.
pub fn run(program: &str, memory_capacity: Option<usize>, input: &[u8], max_steps: usize) -> (done:
    Option<Run>)
    ensures
        done is Some <==> well_bracketed(program@),
        done matches Some(run) ==> (run.execution.session(run.memory@), run.execution.status)
            == execute(
            lower(lex(program@)),
            Session::start(blank_tape(capacity_or_default(memory_capacity) as nat)),
            input@,
            max_steps as nat,
        ),
{
    match Program::parse(program) {
        Some(program) => {
            let memory_capacity = match memory_capacity {
                Some(capacity) => capacity,
                None => DEFAULT_MEMORY_CAPACITY,
            };
            let mut memory = vec![0u8; memory_capacity];
            assert(memory@ == blank_tape(memory_capacity as nat));
            let execution = program.run(memory.as_mut_slice(), input, max_steps);
            Some(Run { memory, execution })
        },
        None => None,
    }
}

/// The usage text shown when the command line is incomplete.
pub fn help(program_line: &str) -> (text: String)
    ensures
        text@ == usage(program_line@),
{
    let mut text = String::from_str("Usage:\n\t");
    text.append(program_line);
    text.append(
        " <program.bf> [memory-size]\n\nMemory size in bytes. Defaults to 1MiB (1048576 bytes)",
    );
    text
}

} // verus!

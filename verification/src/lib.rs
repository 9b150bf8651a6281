//! A compiler and virtual machine for an eight-operation tape language.
//!
//! Source text is scanned into [`OpCode`]s, checked for bracket balance,
//! run-length compressed and jump-resolved into a [`Program`], which is then
//! executed against a fixed-size byte tape.
//!
//! * [`opcode`]: operations and instructions.
//! * [`syntax`]: scanning, and the bracket discipline.
//! * [`grouping`]: runs of equal operations.
//! * [`lowering`]: compression and jump resolution as mathematical functions.
//! * [`program`]: the compiler.
//! * [`machine`]: the semantics of instructions, single cycles and bounded runs.
//! * [`interpreter`]: whole runs from source text.
//! * [`correspondence`], [`equivalence`]: compression keeps loops and
//!   behaviour intact.
pub mod correspondence;
pub mod equivalence;
pub mod grouping;
pub mod interpreter;
pub mod lowering;
pub mod machine;
pub mod opcode;
pub mod program;
pub mod syntax;

pub use interpreter::{help, run, Run, DEFAULT_MEMORY_CAPACITY};
pub use machine::{Event, Execution, Fault, Machine, Status};
pub use opcode::{Instruction, OpCode};
pub use program::Program;

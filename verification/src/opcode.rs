//! The operations of the source language and the instructions they lower to.
use vstd::prelude::*;

verus! {

/// One operation of the source language, as written by a single character.
#[derive(Clone, Copy, Debug, PartialEq, Eq, Structural)]
pub enum OpCode {
    /// `>`: move the data pointer one cell forward.
    IncrementPointer,
    /// `<`: move the data pointer one cell backward.
    DecrementPointer,
    /// `+`: add one to the current cell.
    IncrementValue,
    /// `-`: subtract one from the current cell.
    DecrementValue,
    /// `.`: write the current cell to the output.
    PutChar,
    /// `,`: read one byte of input into the current cell.
    GetChar,
    /// `[`: begin a loop that runs while the current cell is non-zero.
    LoopHead,
    /// `]`: end of a loop.
    LoopEnd,
}

/// An executable instruction.
///
/// The four pointer and value instructions carry a repetition count; the two
/// loop instructions carry the position of their partner in the program.
#[derive(Clone, Copy, Debug, PartialEq, Eq, Structural)]
pub enum Instruction {
    IncrementPointer(usize),
    DecrementPointer(usize),
    IncrementValue(usize),
    DecrementValue(usize),
    PutChar,
    GetChar,
    /// Holds the position of the matching `LoopEnd`.
    LoopHead(usize),
    /// Holds the position of the matching `LoopHead`.
    LoopEnd(usize),
}

/// The target a loop instruction carries before its partner is known.
pub const UNRESOLVED: usize = usize::MAX;

impl OpCode {
    /// The operation a character stands for, if any.
    pub open spec fn of_char(c: char) -> Option<OpCode> {
        if c == '>' {
            Some(OpCode::IncrementPointer)
        } else if c == '<' {
            Some(OpCode::DecrementPointer)
        } else if c == '+' {
            Some(OpCode::IncrementValue)
        } else if c == '-' {
            Some(OpCode::DecrementValue)
        } else if c == '.' {
            Some(OpCode::PutChar)
        } else if c == ',' {
            Some(OpCode::GetChar)
        } else if c == '[' {
            Some(OpCode::LoopHead)
        } else if c == ']' {
            Some(OpCode::LoopEnd)
        } else {
            None
        }
    }

    /// Whether a run of this operation collapses into one counted instruction.
    pub open spec fn optimizable(self) -> bool {
        self is IncrementPointer || self is DecrementPointer || self is IncrementValue
            || self is DecrementValue
    }

    /// The instruction that stands for `n` consecutive occurrences of a
    /// collapsible operation; for the other operations, the unit instruction.
    pub open spec fn repeated(self, n: usize) -> Instruction {
        match self {
            OpCode::IncrementPointer => Instruction::IncrementPointer(n),
            OpCode::DecrementPointer => Instruction::DecrementPointer(n),
            OpCode::IncrementValue => Instruction::IncrementValue(n),
            OpCode::DecrementValue => Instruction::DecrementValue(n),
            OpCode::PutChar => Instruction::PutChar,
            OpCode::GetChar => Instruction::GetChar,
            OpCode::LoopHead => Instruction::LoopHead(UNRESOLVED),
            OpCode::LoopEnd => Instruction::LoopEnd(UNRESOLVED),
        }
    }

    /// The instruction that stands for a single occurrence of this operation.
    pub open spec fn unit(self) -> Instruction {
        self.repeated(1)
    }

    /// Maps a source character to its operation; every other character is
    /// a comment and maps to `None`.
    pub fn parse(c: char) -> (op: Option<OpCode>)
        ensures
            op == OpCode::of_char(c),
    {
        match c {
            '>' => Some(OpCode::IncrementPointer),
            '<' => Some(OpCode::DecrementPointer),
            '+' => Some(OpCode::IncrementValue),
            '-' => Some(OpCode::DecrementValue),
            '.' => Some(OpCode::PutChar),
            ',' => Some(OpCode::GetChar),
            '[' => Some(OpCode::LoopHead),
            ']' => Some(OpCode::LoopEnd),
            _ => None,
        }
    }

    /// The single instruction for a run of `n > 1` occurrences of a
    /// collapsible operation.
    pub fn create_optimized_instruction(&self, n: usize) -> (instruction: Instruction)
        requires
            n > 1,
            self.optimizable(),
        ensures
            instruction == self.repeated(n),
    {
        match self {
            OpCode::DecrementPointer => Instruction::DecrementPointer(n),
            OpCode::IncrementPointer => Instruction::IncrementPointer(n),
            OpCode::DecrementValue => Instruction::DecrementValue(n),
            _ => Instruction::IncrementValue(n),
        }
    }

    /// The instruction for one occurrence of this operation: count 1 for the
    /// pointer and value operations, an unresolved target for the loop
    /// operations.
    pub fn as_instruction(&self) -> (instruction: Instruction)
        ensures
            instruction == self.unit(),
    {
        match self {
            OpCode::DecrementPointer => Instruction::DecrementPointer(1),
            OpCode::IncrementPointer => Instruction::IncrementPointer(1),
            OpCode::DecrementValue => Instruction::DecrementValue(1),
            OpCode::IncrementValue => Instruction::IncrementValue(1),
            OpCode::PutChar => Instruction::PutChar,
            OpCode::GetChar => Instruction::GetChar,
            OpCode::LoopHead => Instruction::LoopHead(UNRESOLVED),
            OpCode::LoopEnd => Instruction::LoopEnd(UNRESOLVED),
        }
    }

    /// Tells whether consecutive occurrences of this operation may be
    /// collapsed: true for the four pointer and value operations only.
    pub fn is_run_length_optimizable(&self) -> (yes: bool)
        ensures
            yes == self.optimizable(),
    {
        match self {
            OpCode::DecrementPointer
            | OpCode::IncrementPointer
            | OpCode::DecrementValue
            | OpCode::IncrementValue => true,
            _ => false,
        }
    }
}

} // verus!

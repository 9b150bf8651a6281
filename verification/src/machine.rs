//! The virtual machine: what one instruction does to the tape and pointers.
use vstd::prelude::*;
use crate::opcode::Instruction;
use crate::program::Program;

verus! {

/// Why a run was aborted.
#[derive(Clone, Copy, Debug, PartialEq, Eq, Structural)]
pub enum Fault {
    /// The data pointer would have moved to or past the end of the tape.
    Overflow,
    /// The data pointer would have moved before the start of the tape.
    Underflow,
}

/// What a single fetch-execute cycle did.
#[derive(Clone, Copy, Debug, PartialEq, Eq, Structural)]
pub enum Event {
    /// An instruction without I/O was executed.
    Advanced,
    /// The offered input byte was stored in the current cell.
    Input,
    /// The current cell's value is to be written to the output.
    Output(u8),
    /// An input instruction found no byte on offer; nothing changed.
    Stalled,
    /// The instruction pointer is outside the program; nothing changed.
    Halted,
    /// The instruction would have moved the data pointer off the tape;
    /// nothing changed.
    Faulted(Fault),
}

/// The two registers of the machine.
#[derive(Clone, Copy, Debug, PartialEq, Eq, Structural)]
pub struct Machine {
    /// Index of the next instruction to execute.
    pub ip: usize,
    /// Index of the current cell.
    pub dp: usize,
}

/// The whole state of a run as a mathematical value.
pub struct Config {
    pub ip: int,
    pub dp: int,
    pub tape: Seq<u8>,
}

/// The value of a cell after adding `n` to it, modulo 256.
pub open spec fn cell_plus(cell: u8, n: int) -> u8 {
    ((cell as int + n) % 256) as u8
}

/// The value of a cell after subtracting `n` from it, modulo 256.
pub open spec fn cell_minus(cell: u8, n: int) -> u8 {
    ((cell as int - n) % 256) as u8
}

impl Config {
    /// The state every run starts in: both pointers at zero.
    pub open spec fn start(tape: Seq<u8>) -> Config {
        Config { ip: 0, dp: 0, tape }
    }

    /// Whether the data pointer designates a cell of the tape.
    pub open spec fn on_tape(self) -> bool {
        0 <= self.dp < self.tape.len()
    }

    /// The same state with the instruction pointer at `ip`.
    pub open spec fn goto(self, ip: int) -> Config {
        Config { ip, ..self }
    }

    /// The same state with `value` in the current cell.
    pub open spec fn store(self, value: u8) -> Config {
        Config { tape: self.tape.update(self.dp, value), ..self }
    }

    /// The value of the current cell.
    pub open spec fn cell(self) -> u8 {
        self.tape[self.dp]
    }
}

/// One fetch-execute cycle of `code` in state `c`, with `input` the byte on
/// offer to an input instruction, if any.
///
/// Returns the state after the cycle and what happened. A cycle that halts,
/// stalls or faults leaves the state as it was.
pub open spec fn step(code: Seq<Instruction>, c: Config, input: Option<u8>) -> (Config, Event) {
    if !(0 <= c.ip < code.len()) {
        (c, Event::Halted)
    } else {
        match code[c.ip] {
            Instruction::IncrementPointer(n) => {
                if c.dp + n >= c.tape.len() {
                    (c, Event::Faulted(Fault::Overflow))
                } else {
                    (Config { ip: c.ip + 1, dp: c.dp + n, tape: c.tape }, Event::Advanced)
                }
            },
            Instruction::DecrementPointer(n) => {
                if c.dp - n < 0 {
                    (c, Event::Faulted(Fault::Underflow))
                } else {
                    (Config { ip: c.ip + 1, dp: c.dp - n, tape: c.tape }, Event::Advanced)
                }
            },
            _ if !c.on_tape() => (c, Event::Faulted(Fault::Overflow)),
            Instruction::IncrementValue(n) => (
                c.store(cell_plus(c.cell(), n as int)).goto(c.ip + 1),
                Event::Advanced,
            ),
            Instruction::DecrementValue(n) => (
                c.store(cell_minus(c.cell(), n as int)).goto(c.ip + 1),
                Event::Advanced,
            ),
            Instruction::PutChar => (c.goto(c.ip + 1), Event::Output(c.cell())),
            Instruction::GetChar => match input {
                Some(byte) => (c.store(byte).goto(c.ip + 1), Event::Input),
                None => (c, Event::Stalled),
            },
            Instruction::LoopHead(end) => (
                c.goto(
                    if c.cell() == 0 {
                        end + 1
                    } else {
                        c.ip + 1
                    },
                ),
                Event::Advanced,
            ),
            Instruction::LoopEnd(head) => (
                c.goto(
                    if c.cell() == 0 {
                        c.ip + 1
                    } else {
                        head as int
                    },
                ),
                Event::Advanced,
            ),
        }
    }
}

/// How a bounded run ended.
#[derive(Clone, Copy, Debug, PartialEq, Eq, Structural)]
pub enum Status {
    /// The instruction pointer left the program: the run is complete.
    Halted,
    /// The data pointer would have left the tape: the run was aborted.
    Faulted(Fault),
    /// An input instruction is waiting and the input is used up.
    Stalled,
    /// The allowed number of cycles was spent before any of the above.
    OutOfSteps,
}

/// A run in progress as a mathematical value: the machine state, how many
/// input bytes have been consumed, and the bytes written so far.
pub struct Session {
    pub config: Config,
    pub consumed: int,
    pub output: Seq<u8>,
}

impl Session {
    /// The session every run starts in.
    pub open spec fn start(tape: Seq<u8>) -> Session {
        Session { config: Config::start(tape), consumed: 0, output: Seq::empty() }
    }

    /// The byte on offer to the next input instruction.
    pub open spec fn offered(self, input: Seq<u8>) -> Option<u8> {
        if 0 <= self.consumed < input.len() {
            Some(input[self.consumed])
        } else {
            None
        }
    }

    /// The session after one cycle against the given input, and what the
    /// cycle did.
    pub open spec fn advance(self, code: Seq<Instruction>, input: Seq<u8>) -> (Session, Event) {
        let (config, event) = step(code, self.config, self.offered(input));
        let next = match event {
            Event::Input => Session { config, consumed: self.consumed + 1, output: self.output },
            Event::Output(byte) => Session {
                config,
                consumed: self.consumed,
                output: self.output.push(byte),
            },
            _ => Session { config, consumed: self.consumed, output: self.output },
        };
        (next, event)
    }
}

/// Runs `code` from session `s` for at most `fuel` cycles.
///
/// The run ends at the first cycle that halts, faults or stalls, and that
/// cycle counts against `fuel`; with no fuel left the result is
/// `OutOfSteps`.
pub open spec fn execute(code: Seq<Instruction>, s: Session, input: Seq<u8>, fuel: nat) -> (
    Session,
    Status,
)
    decreases fuel,
{
    if fuel == 0 {
        (s, Status::OutOfSteps)
    } else {
        let (next, event) = s.advance(code, input);
        match event {
            Event::Halted => (s, Status::Halted),
            Event::Faulted(fault) => (s, Status::Faulted(fault)),
            Event::Stalled => (s, Status::Stalled),
            _ => execute(code, next, input, (fuel - 1) as nat),
        }
    }
}

/// The result of a bounded run.
#[derive(Debug)]
pub struct Execution {
    /// How the run ended.
    pub status: Status,
    /// The registers at the end of the run.
    pub machine: Machine,
    /// How many bytes of the input were consumed.
    pub consumed: usize,
    /// The bytes written, in order.
    pub output: Vec<u8>,
}

impl Execution {
    /// The session this result describes, given the tape it left behind.
    pub open spec fn session(self, tape: Seq<u8>) -> Session {
        Session {
            config: self.machine.config(tape),
            consumed: self.consumed as int,
            output: self.output@,
        }
    }
}

/// Adds `n` to a cell, wrapping modulo 256.
pub fn wrapping_increment(cell: u8, n: usize) -> (value: u8)
    ensures
        value == cell_plus(cell, n as int),
{
    let low: u8 = (n % 256) as u8;
    assert((cell as int + n as int) % 256 == (cell as int + low as int) % 256) by {
        vstd::arithmetic::div_mod::lemma_add_mod_noop_right(cell as int, n as int, 256);
    }
    cell.wrapping_add(low)
}

/// Subtracts `n` from a cell, wrapping modulo 256.
pub fn wrapping_decrement(cell: u8, n: usize) -> (value: u8)
    ensures
        value == cell_minus(cell, n as int),
{
    let low: u8 = (n % 256) as u8;
    assert((cell as int - n as int) % 256 == (cell as int - low as int) % 256) by {
        vstd::arithmetic::div_mod::lemma_sub_mod_noop_right(cell as int, n as int, 256);
    }
    cell.wrapping_sub(low)
}

/// Cell values wrap around: one more than 255 is 0, one less than 0 is 255,
/// and a whole turn of 256 changes nothing.
pub proof fn lemma_cell_wraps(cell: u8)
    ensures
        cell_plus(255, 1) == 0,
        cell_minus(0, 1) == 255,
        cell_plus(cell, 256) == cell,
        cell_minus(cell, 256) == cell,
{
}

/// The data pointer never wraps: a move forward faults exactly when it
/// would end at or behind the tape's length, so that the last cell can be
/// reached and the position one past it cannot; a move backward faults
/// exactly when it would end before the first cell. Moves that do not fault
/// go where they say and leave the tape alone.
pub proof fn lemma_pointer_bounds(code: Seq<Instruction>, c: Config, input: Option<u8>)
    requires
        0 <= c.ip < code.len(),
    ensures
        code[c.ip] matches Instruction::IncrementPointer(n) ==> {
            let (next, event) = step(code, c, input);
            &&& event == Event::Faulted(Fault::Overflow) <==> c.dp + n >= c.tape.len()
            &&& event != Event::Faulted(Fault::Overflow) ==> event == Event::Advanced && next
                == Config { ip: c.ip + 1, dp: c.dp + n, tape: c.tape }
            &&& c.dp + n == c.tape.len() ==> event == Event::Faulted(Fault::Overflow)
            &&& c.dp + n == c.tape.len() - 1 ==> event == Event::Advanced && next.dp
                == c.tape.len() - 1
        },
        code[c.ip] matches Instruction::DecrementPointer(n) ==> {
            let (next, event) = step(code, c, input);
            &&& event == Event::Faulted(Fault::Underflow) <==> c.dp - n < 0
            &&& event != Event::Faulted(Fault::Underflow) ==> event == Event::Advanced && next
                == Config { ip: c.ip + 1, dp: c.dp - n, tape: c.tape }
        },
{
}

impl Machine {
    /// The machine as every run starts: both pointers at zero.
    pub fn new() -> (machine: Machine)
        ensures
            machine.ip == 0,
            machine.dp == 0,
    {
        Machine { ip: 0, dp: 0 }
    }

    /// The state made of these registers and the given tape contents.
    pub open spec fn config(self, tape: Seq<u8>) -> Config {
        Config { ip: self.ip as int, dp: self.dp as int, tape }
    }
}

impl Program {
    /// Tells whether the next cycle executes an input instruction, so that
    /// the caller knows to have a byte on offer.
    pub fn wants_input(&self, machine: &Machine) -> (yes: bool)
        ensures
            yes <==> machine.ip < self@.len() && self@[machine.ip as int] is GetChar,
    {
        let code = self.instructions();
        if machine.ip < code.len() {
            match code[machine.ip] {
                Instruction::GetChar => true,
                _ => false,
            }
        } else {
            false
        }
    }

    /// Runs one fetch-execute cycle.
    ///
    /// `input` is the byte on offer to an input instruction; it is consumed
    /// exactly when the event is `Input`.
    pub fn step(&self, machine: &mut Machine, memory: &mut [u8], input: Option<u8>) -> (event:
        Event)
        ensures
            (final(machine).config(final(memory)@), event) == step(
                self@,
                old(machine).config(old(memory)@),
                input,
            ),
    {
        let code = self.instructions();
        if machine.ip >= code.len() {
            return Event::Halted;
        }
        let ip = machine.ip;
        let dp = machine.dp;
        let size = memory.len();
        match code[ip] {
            Instruction::IncrementPointer(n) => {
                if dp >= size || n >= size - dp {
                    return Event::Faulted(Fault::Overflow);
                }
                machine.dp = dp + n;
                machine.ip = ip + 1;
                Event::Advanced
            },
            Instruction::DecrementPointer(n) => {
                if n > dp {
                    return Event::Faulted(Fault::Underflow);
                }
                machine.dp = dp - n;
                machine.ip = ip + 1;
                Event::Advanced
            },
            Instruction::IncrementValue(n) => {
                if dp >= size {
                    return Event::Faulted(Fault::Overflow);
                }
                memory[dp] = wrapping_increment(memory[dp], n);
                machine.ip = ip + 1;
                Event::Advanced
            },
            Instruction::DecrementValue(n) => {
                if dp >= size {
                    return Event::Faulted(Fault::Overflow);
                }
                memory[dp] = wrapping_decrement(memory[dp], n);
                machine.ip = ip + 1;
                Event::Advanced
            },
            Instruction::PutChar => {
                if dp >= size {
                    return Event::Faulted(Fault::Overflow);
                }
                machine.ip = ip + 1;
                Event::Output(memory[dp])
            },
            Instruction::GetChar => {
                if dp >= size {
                    return Event::Faulted(Fault::Overflow);
                }
                match input {
                    Some(byte) => {
                        memory[dp] = byte;
                        machine.ip = ip + 1;
                        Event::Input
                    },
                    None => Event::Stalled,
                }
            },
            Instruction::LoopHead(end) => {
                if dp >= size {
                    return Event::Faulted(Fault::Overflow);
                }
                if memory[dp] == 0 {
                    machine.ip = end + 1;
                } else {
                    machine.ip = ip + 1;
                }
                Event::Advanced
            },
            Instruction::LoopEnd(head) => {
                if dp >= size {
                    return Event::Faulted(Fault::Overflow);
                }
                if memory[dp] == 0 {
                    machine.ip = ip + 1;
                } else {
                    machine.ip = head;
                }
                Event::Advanced
            },
        }
    }

    /// Executes the program from its first instruction on `memory`, reading
    /// from `input` and collecting what it writes, for at most `max_steps`
    /// fetch-execute cycles.
    pub fn run(&self, memory: &mut [u8], input: &[u8], max_steps: usize) -> (outcome: Execution)
        ensures
            (outcome.session(final(memory)@), outcome.status) == execute(
                self@,
                Session::start(old(memory)@),
                input@,
                max_steps as nat,
            ),
    {
        let mut machine = Machine::new();
        let mut consumed: usize = 0;
        let mut output: Vec<u8> = Vec::new();
        let mut remaining: usize = max_steps;
        while remaining > 0
            invariant
                consumed <= input@.len(),
                execute(
                    self@,
                    Session {
                        config: machine.config(memory@),
                        consumed: consumed as int,
                        output: output@,
                    },
                    input@,
                    remaining as nat,
                ) == execute(self@, Session::start(old(memory)@), input@, max_steps as nat),
            decreases remaining,
        {
            let offered = if consumed < input.len() {
                Some(input[consumed])
            } else {
                None
            };
            let event = self.step(&mut machine, memory, offered);
            match event {
                Event::Halted => {
                    return Execution { status: Status::Halted, machine, consumed, output };
                },
                Event::Faulted(fault) => {
                    return Execution { status: Status::Faulted(fault), machine, consumed, output };
                },
                Event::Stalled => {
                    return Execution { status: Status::Stalled, machine, consumed, output };
                },
                Event::Input => {
                    consumed = consumed + 1;
                },
                Event::Output(byte) => {
                    output.push(byte);
                },
                Event::Advanced => {},
            }
            remaining = remaining - 1;
        }
        Execution { status: Status::OutOfSteps, machine, consumed, output }
    }
}

} // verus!

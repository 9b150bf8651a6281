use brainfuck::machine::{wrapping_decrement, wrapping_increment};
use brainfuck::{help, run, Event, Fault, Machine, Program, Status, DEFAULT_MEMORY_CAPACITY};

const PLENTY: usize = 1_000_000;

fn program(code: &str) -> Program {
    Program::parse(code).expect("balanced source")
}

#[test]
fn transfer_loop_moves_cell_zero_into_cell_one() {
    let transfer = program("++>+<[->+<]");
    for size in [3usize, 4, 10, 1000] {
        let mut memory = vec![0u8; size];
        let outcome = transfer.run(&mut memory, &[], PLENTY);
        assert_eq!(outcome.status, Status::Halted);
        assert_eq!(memory[0], 0);
        assert_eq!(memory[1], 3);
        assert!(memory[2..].iter().all(|cell| *cell == 0));
        assert_eq!(outcome.machine.dp, 0);
        assert_eq!(outcome.machine.ip, 10);
        assert!(outcome.output.is_empty());
        assert_eq!(outcome.consumed, 0);
    }
}

#[test]
fn transfer_loop_on_three_cells_is_exact() {
    let mut memory = vec![0u8; 3];
    program("++>+<[->+<]").run(&mut memory, &[], PLENTY);
    assert_eq!(memory, vec![0, 3, 0]);
}

#[test]
fn clear_loop_ends_after_one_iteration() {
    let clear = program("+[-]");
    let mut memory = vec![0u8; 1];
    // increment, loop head, decrement, loop end, and the cycle that halts
    let outcome = clear.run(&mut memory, &[], 5);
    assert_eq!(outcome.status, Status::Halted);
    assert_eq!(memory, vec![0]);
    assert_eq!(outcome.machine.ip, 4);

    let mut memory = vec![0u8; 1];
    let outcome = clear.run(&mut memory, &[], 4);
    assert_eq!(outcome.status, Status::OutOfSteps);
    assert_eq!(memory, vec![0]);
}

#[test]
fn loop_is_skipped_when_cell_is_zero() {
    let mut memory = vec![0u8; 2];
    let outcome = program("[>+<]>++").run(&mut memory, &[], PLENTY);
    assert_eq!(outcome.status, Status::Halted);
    assert_eq!(memory, vec![0, 2]);
}

#[test]
fn incrementing_255_yields_0() {
    assert_eq!(wrapping_increment(255, 1), 0);
    let mut memory = vec![255u8; 1];
    let outcome = program("+").run(&mut memory, &[], PLENTY);
    assert_eq!(outcome.status, Status::Halted);
    assert_eq!(memory, vec![0]);
}

#[test]
fn decrementing_0_yields_255() {
    assert_eq!(wrapping_decrement(0, 1), 255);
    let mut memory = vec![0u8; 1];
    let outcome = program("-").run(&mut memory, &[], PLENTY);
    assert_eq!(outcome.status, Status::Halted);
    assert_eq!(memory, vec![255]);
}

#[test]
fn counted_value_changes_wrap_modulo_256() {
    assert_eq!(wrapping_increment(250, 10), 4);
    assert_eq!(wrapping_increment(7, 256), 7);
    assert_eq!(wrapping_increment(7, 513), 8);
    assert_eq!(wrapping_increment(0, usize::MAX), 255);
    assert_eq!(wrapping_decrement(3, 10), 249);
    assert_eq!(wrapping_decrement(7, 256), 7);
    assert_eq!(wrapping_decrement(7, 513), 6);
    assert_eq!(wrapping_decrement(0, usize::MAX), 1);

    let many_plus = "+".repeat(300);
    let mut memory = vec![0u8; 1];
    program(&many_plus).run(&mut memory, &[], PLENTY);
    assert_eq!(memory, vec![44]);

    let many_minus = "-".repeat(300);
    let mut memory = vec![0u8; 1];
    program(&many_minus).run(&mut memory, &[], PLENTY);
    assert_eq!(memory, vec![212]);
}

#[test]
fn moving_to_the_last_cell_does_not_fault() {
    let mut memory = vec![0u8; 3];
    let outcome = program(">>+").run(&mut memory, &[], PLENTY);
    assert_eq!(outcome.status, Status::Halted);
    assert_eq!(outcome.machine.dp, 2);
    assert_eq!(memory, vec![0, 0, 1]);
}

#[test]
fn moving_one_past_the_end_faults() {
    let mut memory = vec![0u8; 3];
    let outcome = program("+>>>+").run(&mut memory, &[], PLENTY);
    assert_eq!(outcome.status, Status::Faulted(Fault::Overflow));
    assert_eq!(memory, vec![1, 0, 0]);

    let mut memory = vec![0u8; 3];
    let outcome = program(">.>.>.").run(&mut memory, &[], PLENTY);
    assert_eq!(outcome.status, Status::Faulted(Fault::Overflow));
    assert_eq!(outcome.output, vec![0, 0]);
}

#[test]
fn moving_before_the_start_faults() {
    let mut memory = vec![0u8; 3];
    let outcome = program("+<").run(&mut memory, &[], PLENTY);
    assert_eq!(outcome.status, Status::Faulted(Fault::Underflow));
    assert_eq!(memory, vec![1, 0, 0]);

    let mut memory = vec![0u8; 3];
    let outcome = program(">><<<").run(&mut memory, &[], PLENTY);
    assert_eq!(outcome.status, Status::Faulted(Fault::Underflow));

    let mut memory = vec![0u8; 3];
    let outcome = program(">><<").run(&mut memory, &[], PLENTY);
    assert_eq!(outcome.status, Status::Halted);
    assert_eq!(outcome.machine.dp, 0);
}

#[test]
fn empty_tape_has_no_cell_to_touch() {
    let mut memory: Vec<u8> = Vec::new();
    assert_eq!(program("").run(&mut memory, &[], PLENTY).status, Status::Halted);
    for code in ["+", "-", ".", ",", "[]", ">"] {
        let outcome = program(code).run(&mut memory, &[1], PLENTY);
        assert_eq!(outcome.status, Status::Faulted(Fault::Overflow));
    }
    let outcome = program("<").run(&mut memory, &[], PLENTY);
    assert_eq!(outcome.status, Status::Faulted(Fault::Underflow));
}

#[test]
fn output_is_collected_in_order() {
    let mut memory = vec![0u8; 2];
    let outcome = program("+++.>++.<-.").run(&mut memory, &[], PLENTY);
    assert_eq!(outcome.status, Status::Halted);
    assert_eq!(outcome.output, vec![3, 2, 2]);
}

#[test]
fn input_is_read_byte_by_byte() {
    let mut memory = vec![0u8; 3];
    let outcome = program(",>,>,").run(&mut memory, &[10, 20, 30, 40], PLENTY);
    assert_eq!(outcome.status, Status::Halted);
    assert_eq!(memory, vec![10, 20, 30]);
    assert_eq!(outcome.consumed, 3);
}

#[test]
fn echo_until_zero_byte() {
    let mut memory = vec![0u8; 1];
    let outcome = program(",[.,]").run(&mut memory, b"hi\0rest", PLENTY);
    assert_eq!(outcome.status, Status::Halted);
    assert_eq!(outcome.output, b"hi".to_vec());
    assert_eq!(outcome.consumed, 3);
}

#[test]
fn exhausted_input_stalls_and_changes_nothing() {
    let mut memory = vec![0u8; 2];
    let outcome = program(",>+,+").run(&mut memory, &[9], PLENTY);
    assert_eq!(outcome.status, Status::Stalled);
    assert_eq!(memory, vec![9, 1]);
    assert_eq!(outcome.consumed, 1);
    assert_eq!(outcome.machine.ip, 3);
    assert_eq!(outcome.machine.dp, 1);
}

#[test]
fn endless_loop_runs_out_of_steps() {
    let mut memory = vec![0u8; 1];
    let outcome = program("+[]").run(&mut memory, &[], 1000);
    assert_eq!(outcome.status, Status::OutOfSteps);
    assert_eq!(memory, vec![1]);
}

#[test]
fn no_steps_allowed_means_nothing_happens() {
    let mut memory = vec![5u8; 1];
    let outcome = program("+").run(&mut memory, &[], 0);
    assert_eq!(outcome.status, Status::OutOfSteps);
    assert_eq!(memory, vec![5]);
    assert_eq!(outcome.machine, Machine { ip: 0, dp: 0 });
}

#[test]
fn single_cycles_report_what_happened() {
    let echo = program("+.,>[<]");
    let mut memory = vec![0u8; 2];
    let mut machine = Machine::new();
    assert_eq!(machine, Machine { ip: 0, dp: 0 });

    assert!(!echo.wants_input(&machine));
    assert_eq!(echo.step(&mut machine, &mut memory, None), Event::Advanced);
    assert_eq!(echo.step(&mut machine, &mut memory, Some(77)), Event::Output(1));
    assert_eq!(memory, vec![1, 0]);

    assert!(echo.wants_input(&machine));
    assert_eq!(echo.step(&mut machine, &mut memory, None), Event::Stalled);
    assert_eq!(machine, Machine { ip: 2, dp: 0 });
    assert_eq!(echo.step(&mut machine, &mut memory, Some(77)), Event::Input);
    assert_eq!(memory, vec![77, 0]);

    assert_eq!(echo.step(&mut machine, &mut memory, None), Event::Advanced);
    assert_eq!(machine, Machine { ip: 4, dp: 1 });
    // the cell is zero: jump behind the loop end
    assert_eq!(echo.step(&mut machine, &mut memory, None), Event::Advanced);
    assert_eq!(machine, Machine { ip: 7, dp: 1 });
    assert_eq!(echo.step(&mut machine, &mut memory, None), Event::Halted);
    assert_eq!(machine, Machine { ip: 7, dp: 1 });
}

#[test]
fn loop_end_jumps_back_while_cell_is_non_zero() {
    let countdown = program("[-]");
    let mut memory = vec![2u8; 1];
    let mut machine = Machine::new();
    assert_eq!(countdown.step(&mut machine, &mut memory, None), Event::Advanced);
    assert_eq!(machine.ip, 1);
    assert_eq!(countdown.step(&mut machine, &mut memory, None), Event::Advanced);
    assert_eq!(countdown.step(&mut machine, &mut memory, None), Event::Advanced);
    assert_eq!(machine.ip, 0);
    assert_eq!(memory, vec![1]);
}

#[test]
fn faulting_cycle_leaves_the_machine_alone() {
    let off = program(">>");
    let mut memory = vec![0u8; 2];
    let mut machine = Machine::new();
    assert_eq!(off.step(&mut machine, &mut memory, None), Event::Faulted(Fault::Overflow));
    assert_eq!(machine, Machine { ip: 0, dp: 0 });
    let back = program("<");
    assert_eq!(back.step(&mut machine, &mut memory, None), Event::Faulted(Fault::Underflow));
    assert_eq!(machine, Machine { ip: 0, dp: 0 });
}

#[test]
fn compression_does_not_change_behaviour() {
    let sources = [
        "",
        "+++",
        "++>+<[->+<]",
        "+[-]",
        "++++++++[>++++[>++>+++>+++>+<<<<-]>+>+>->>+[<]<-]",
        ">>>>",
        "+>>><<<<",
        "----[---->+<]>++",
        "+++[>+++[>+++<-]<-]>>",
        "-[>-<---]>>>",
        "<",
    ];
    for code in sources {
        for size in [0usize, 1, 3, 4, 8] {
            let fast = Program::parse(code).expect("balanced source");
            let slow = Program::parse_unoptimized(code).expect("balanced source");
            let mut fast_memory = vec![0u8; size];
            let mut slow_memory = vec![0u8; size];
            let fast_outcome = fast.run(&mut fast_memory, &[], PLENTY);
            let slow_outcome = slow.run(&mut slow_memory, &[], PLENTY);
            assert_ne!(slow_outcome.status, Status::OutOfSteps);
            assert_eq!(fast_outcome.status, slow_outcome.status);
            assert_eq!(fast_memory, slow_memory);
            assert_eq!(fast_outcome.output, slow_outcome.output);
        }
    }
}

#[test]
fn compression_does_not_change_behaviour_with_input_and_output() {
    let code = ",[>+++<-]>..<,,.";
    let fast = Program::parse(code).expect("balanced source");
    let slow = Program::parse_unoptimized(code).expect("balanced source");
    for input in [&[][..], &[3][..], &[3, 1][..], &[3, 1, 9, 9][..]] {
        let mut fast_memory = vec![0u8; 2];
        let mut slow_memory = vec![0u8; 2];
        let fast_outcome = fast.run(&mut fast_memory, input, PLENTY);
        let slow_outcome = slow.run(&mut slow_memory, input, PLENTY);
        assert_eq!(fast_outcome.status, slow_outcome.status);
        assert_eq!(fast_memory, slow_memory);
        assert_eq!(fast_outcome.output, slow_outcome.output);
        assert_eq!(fast_outcome.consumed, slow_outcome.consumed);
    }
}

#[test]
fn run_compiles_and_executes() {
    let done = run("++>+<[->+<]", Some(3), &[], PLENTY).expect("balanced source");
    assert_eq!(done.memory, vec![0, 3, 0]);
    assert_eq!(done.execution.status, Status::Halted);

    let done = run(",+.", Some(1), &[41], PLENTY).expect("balanced source");
    assert_eq!(done.execution.output, vec![42]);
}

#[test]
fn run_uses_the_default_capacity() {
    assert_eq!(DEFAULT_MEMORY_CAPACITY, 1048576);
    let done = run(">+", None, &[], PLENTY).expect("balanced source");
    assert_eq!(done.memory.len(), 1048576);
    assert_eq!(done.memory[1], 1);
    assert_eq!(done.execution.status, Status::Halted);
}

#[test]
fn run_does_nothing_for_unbalanced_source() {
    assert!(run("]", Some(3), &[], PLENTY).is_none());
    assert!(run("+[", None, &[], PLENTY).is_none());
}

#[test]
fn run_faults_on_too_small_a_tape() {
    let done = run(">>>", Some(3), &[], PLENTY).expect("balanced source");
    assert_eq!(done.execution.status, Status::Faulted(Fault::Overflow));
}

#[test]
fn usage_text() {
    assert_eq!(
        help("./brainfuck"),
        "Usage:\n\t./brainfuck <program.bf> [memory-size]\n\nMemory size in bytes. Defaults to 1MiB (1048576 bytes)"
    );
    assert_eq!(
        help(""),
        "Usage:\n\t <program.bf> [memory-size]\n\nMemory size in bytes. Defaults to 1MiB (1048576 bytes)"
    );
}

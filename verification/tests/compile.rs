use brainfuck::{Instruction, OpCode, Program};

fn compiled(code: &str) -> Vec<Instruction> {
    Program::parse(code).expect("balanced source").instructions().clone()
}

#[test]
fn every_operation_character_is_recognised() {
    assert_eq!(OpCode::parse('>'), Some(OpCode::IncrementPointer));
    assert_eq!(OpCode::parse('<'), Some(OpCode::DecrementPointer));
    assert_eq!(OpCode::parse('+'), Some(OpCode::IncrementValue));
    assert_eq!(OpCode::parse('-'), Some(OpCode::DecrementValue));
    assert_eq!(OpCode::parse('.'), Some(OpCode::PutChar));
    assert_eq!(OpCode::parse(','), Some(OpCode::GetChar));
    assert_eq!(OpCode::parse('['), Some(OpCode::LoopHead));
    assert_eq!(OpCode::parse(']'), Some(OpCode::LoopEnd));
}

#[test]
fn other_characters_are_comments() {
    for c in ['a', ' ', '\n', '(', ')', '{', '}', '0', '#', 'é'] {
        assert_eq!(OpCode::parse(c), None);
    }
}

#[test]
fn only_pointer_and_value_operations_collapse() {
    assert!(OpCode::IncrementPointer.is_run_length_optimizable());
    assert!(OpCode::DecrementPointer.is_run_length_optimizable());
    assert!(OpCode::IncrementValue.is_run_length_optimizable());
    assert!(OpCode::DecrementValue.is_run_length_optimizable());
    assert!(!OpCode::PutChar.is_run_length_optimizable());
    assert!(!OpCode::GetChar.is_run_length_optimizable());
    assert!(!OpCode::LoopHead.is_run_length_optimizable());
    assert!(!OpCode::LoopEnd.is_run_length_optimizable());
}

#[test]
fn unit_instructions() {
    assert_eq!(OpCode::IncrementPointer.as_instruction(), Instruction::IncrementPointer(1));
    assert_eq!(OpCode::DecrementPointer.as_instruction(), Instruction::DecrementPointer(1));
    assert_eq!(OpCode::IncrementValue.as_instruction(), Instruction::IncrementValue(1));
    assert_eq!(OpCode::DecrementValue.as_instruction(), Instruction::DecrementValue(1));
    assert_eq!(OpCode::PutChar.as_instruction(), Instruction::PutChar);
    assert_eq!(OpCode::GetChar.as_instruction(), Instruction::GetChar);
    assert_eq!(OpCode::LoopHead.as_instruction(), Instruction::LoopHead(usize::MAX));
    assert_eq!(OpCode::LoopEnd.as_instruction(), Instruction::LoopEnd(usize::MAX));
}

#[test]
fn counted_instructions() {
    assert_eq!(
        OpCode::IncrementPointer.create_optimized_instruction(2),
        Instruction::IncrementPointer(2)
    );
    assert_eq!(
        OpCode::DecrementPointer.create_optimized_instruction(7),
        Instruction::DecrementPointer(7)
    );
    assert_eq!(
        OpCode::IncrementValue.create_optimized_instruction(300),
        Instruction::IncrementValue(300)
    );
    assert_eq!(
        OpCode::DecrementValue.create_optimized_instruction(3),
        Instruction::DecrementValue(3)
    );
}

#[test]
fn scanning_drops_comments() {
    assert_eq!(
        brainfuck::syntax::scan("a+b-\n[ ]x"),
        vec![OpCode::IncrementValue, OpCode::DecrementValue, OpCode::LoopHead, OpCode::LoopEnd]
    );
    assert_eq!(brainfuck::syntax::scan("no operations here"), vec![]);
}

#[test]
fn source_without_brackets_always_compiles() {
    assert!(Program::parse("").is_some());
    assert!(Program::parse("+-<>.,").is_some());
    assert!(Program::parse("hello, world. (this + that) {x} <y>").is_some());
    assert!(Program::parse("日本語 ++ текст --").is_some());
}

#[test]
fn unmatched_end_fails_compilation() {
    assert!(Program::parse("]").is_none());
}

#[test]
fn unbalanced_brackets_fail_compilation() {
    assert!(Program::parse("[").is_none());
    assert!(Program::parse("][").is_none());
    assert!(Program::parse("[[]").is_none());
    assert!(Program::parse("[]]").is_none());
    assert!(Program::parse("+[-]]+[").is_none());
    assert!(Program::parse_unoptimized("][").is_none());
    assert!(Program::parse_unoptimized("[[]").is_none());
}

#[test]
fn balanced_brackets_compile() {
    assert!(Program::parse("[]").is_some());
    assert!(Program::parse("[[][]]").is_some());
    assert!(Program::parse("a[b[c]d]e[]").is_some());
    assert!(Program::parse_unoptimized("[[][]]").is_some());
}

#[test]
fn balance_check_on_operations() {
    assert!(Program::has_balanced_brackets(&[]));
    let head = OpCode::LoopHead;
    let end = OpCode::LoopEnd;
    assert!(Program::has_balanced_brackets(&[head, OpCode::IncrementValue, end]));
    assert!(!Program::has_balanced_brackets(&[end, head]));
    assert!(!Program::has_balanced_brackets(&[head, head, end]));
    assert!(Program::check(&[head, head, end, end]));
    assert!(!Program::check(&[head, end, end]));
}

#[test]
fn runs_collapse_into_counted_instructions() {
    assert_eq!(compiled("+++"), vec![Instruction::IncrementValue(3)]);
    assert_eq!(
        compiled("+++>>-<<<<"),
        vec![
            Instruction::IncrementValue(3),
            Instruction::IncrementPointer(2),
            Instruction::DecrementValue(1),
            Instruction::DecrementPointer(4),
        ]
    );
}

#[test]
fn comments_do_not_break_runs() {
    assert_eq!(compiled("+ + x +"), vec![Instruction::IncrementValue(3)]);
}

#[test]
fn input_output_and_loops_do_not_collapse() {
    assert_eq!(compiled(".."), vec![Instruction::PutChar, Instruction::PutChar]);
    assert_eq!(
        compiled(",,,"),
        vec![Instruction::GetChar, Instruction::GetChar, Instruction::GetChar]
    );
    assert_eq!(
        compiled("[[]]"),
        vec![
            Instruction::LoopHead(3),
            Instruction::LoopHead(2),
            Instruction::LoopEnd(1),
            Instruction::LoopEnd(0),
        ]
    );
}

#[test]
fn jumps_point_at_positions_in_the_compressed_program() {
    assert_eq!(
        compiled("++>+<[->+<]"),
        vec![
            Instruction::IncrementValue(2),
            Instruction::IncrementPointer(1),
            Instruction::IncrementValue(1),
            Instruction::DecrementPointer(1),
            Instruction::LoopHead(9),
            Instruction::DecrementValue(1),
            Instruction::IncrementPointer(1),
            Instruction::IncrementValue(1),
            Instruction::DecrementPointer(1),
            Instruction::LoopEnd(4),
        ]
    );
}

#[test]
fn optimize_leaves_targets_unresolved() {
    assert_eq!(
        Program::optimize(&[
            OpCode::IncrementValue,
            OpCode::IncrementValue,
            OpCode::LoopHead,
            OpCode::DecrementValue,
            OpCode::LoopEnd,
        ]),
        vec![
            Instruction::IncrementValue(2),
            Instruction::LoopHead(usize::MAX),
            Instruction::DecrementValue(1),
            Instruction::LoopEnd(usize::MAX),
        ]
    );
    assert_eq!(Program::optimize(&[]), vec![]);
}

#[test]
fn resolve_links_partners() {
    let unlinked = vec![
        Instruction::LoopHead(usize::MAX),
        Instruction::LoopHead(usize::MAX),
        Instruction::LoopEnd(usize::MAX),
        Instruction::PutChar,
        Instruction::LoopEnd(usize::MAX),
        Instruction::LoopHead(usize::MAX),
        Instruction::LoopEnd(usize::MAX),
    ];
    assert_eq!(
        Program::resolve(unlinked),
        vec![
            Instruction::LoopHead(4),
            Instruction::LoopHead(2),
            Instruction::LoopEnd(1),
            Instruction::PutChar,
            Instruction::LoopEnd(0),
            Instruction::LoopHead(6),
            Instruction::LoopEnd(5),
        ]
    );
}

#[test]
fn bind_compresses_and_links() {
    assert_eq!(
        Program::bind(&[
            OpCode::IncrementPointer,
            OpCode::IncrementPointer,
            OpCode::LoopHead,
            OpCode::DecrementValue,
            OpCode::LoopEnd,
        ]),
        vec![
            Instruction::IncrementPointer(2),
            Instruction::LoopHead(3),
            Instruction::DecrementValue(1),
            Instruction::LoopEnd(1),
        ]
    );
}

#[test]
fn unoptimized_form_has_one_instruction_per_operation() {
    let program = Program::parse_unoptimized("++[->>+<<]").expect("balanced source");
    assert_eq!(
        program.instructions().clone(),
        vec![
            Instruction::IncrementValue(1),
            Instruction::IncrementValue(1),
            Instruction::LoopHead(9),
            Instruction::DecrementValue(1),
            Instruction::IncrementPointer(1),
            Instruction::IncrementPointer(1),
            Instruction::IncrementValue(1),
            Instruction::DecrementPointer(1),
            Instruction::DecrementPointer(1),
            Instruction::LoopEnd(2),
        ]
    );
}

#[test]
fn jumps_are_symmetric() {
    for code in ["[]", "[[-]>[+]]", "+[>[-]<[->+<]]", "[[[[]]]][][[]]", ",[.,]"] {
        for program in [Program::parse(code), Program::parse_unoptimized(code)] {
            let program = program.expect("balanced source");
            let instructions = program.instructions();
            let mut loops = 0;
            for (p, instruction) in instructions.iter().enumerate() {
                match *instruction {
                    Instruction::LoopHead(e) => {
                        loops += 1;
                        assert!(p < e);
                        assert_eq!(instructions[e], Instruction::LoopEnd(p));
                    }
                    Instruction::LoopEnd(h) => {
                        assert!(h < p);
                        assert_eq!(instructions[h], Instruction::LoopHead(p));
                    }
                    _ => {}
                }
            }
            assert!(loops > 0);
        }
    }
}

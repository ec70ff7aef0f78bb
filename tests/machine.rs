use brain_fck::compiler::{compile, CompileError, Config};
use brain_fck::machine::{run, Machine, RunStatus, Status, TAPE_LEN};
use brain_fck::op::{Op, OpKind};
use brain_fck::pipeline::interpret;

const CHAR_ONLY: Config = Config { numeric_output: false, fold_io: false };
const NUMERIC: Config = Config { numeric_output: true, fold_io: false };

fn op(kind: OpKind, operand: usize) -> Op {
    Op { kind, operand }
}

#[test]
fn increment_past_255_wraps_to_zero_and_back() {
    let program = vec![op(OpKind::Decrement, 1), op(OpKind::Increment, 1)];
    let mut m = Machine::new();
    let mut out = vec![];
    assert_eq!(m.step(&program, None, &mut out), Status::Running);
    assert_eq!(m.cell(0), 255);
    assert_eq!(m.step(&program, None, &mut out), Status::Running);
    assert_eq!(m.cell(0), 0);
    assert_eq!(m.step(&program, None, &mut out), Status::Halted);
    assert!(out.is_empty());
}

#[test]
fn large_operands_add_modulo_256() {
    let program = vec![op(OpKind::Increment, 300), op(OpKind::Decrement, 600)];
    let mut m = Machine::new();
    let mut out = vec![];
    m.step(&program, None, &mut out);
    assert_eq!(m.cell(0), 44);
    m.step(&program, None, &mut out);
    assert_eq!(m.cell(0), 212);
}

#[test]
fn pointer_wraps_at_both_ends() {
    let program = vec![op(OpKind::MoveLeft, 1), op(OpKind::MoveRight, 1)];
    let mut m = Machine::new();
    let mut out = vec![];
    m.step(&program, None, &mut out);
    assert_eq!(m.pointer(), TAPE_LEN - 1);
    assert_eq!(m.pointer(), 29999);
    m.step(&program, None, &mut out);
    assert_eq!(m.pointer(), 0);
}

#[test]
fn wrap_from_boundary_ignores_the_operand() {
    let program = vec![op(OpKind::MoveLeft, 5), op(OpKind::MoveRight, 9)];
    let mut m = Machine::new();
    let mut out = vec![];
    m.step(&program, None, &mut out);
    assert_eq!(m.pointer(), 29999);
    m.step(&program, None, &mut out);
    assert_eq!(m.pointer(), 0);
}

#[test]
fn overshooting_move_right_is_out_of_range() {
    let program = vec![op(OpKind::MoveLeft, 1), op(OpKind::MoveLeft, 1), op(OpKind::MoveRight, 2)];
    let mut m = Machine::new();
    let mut out = vec![];
    m.step(&program, None, &mut out);
    m.step(&program, None, &mut out);
    assert_eq!(m.pointer(), 29998);
    assert_eq!(m.step(&program, None, &mut out), Status::PointerOutOfRange);
    assert_eq!(m.pointer(), 29998);
    assert_eq!(m.ip(), 2);
}

#[test]
fn overshooting_move_left_is_out_of_range() {
    let r = run(&compile(">+<<", CHAR_ONLY).unwrap(), &vec![], 100);
    assert_eq!(r.status, RunStatus::PointerOutOfRange);
}

#[test]
fn moves_within_the_tape_add_the_operand() {
    let program = compile(">>>>>+<<", CHAR_ONLY).unwrap();
    let mut m = Machine::new();
    let mut out = vec![];
    m.step(&program, None, &mut out);
    assert_eq!(m.pointer(), 5);
    m.step(&program, None, &mut out);
    assert_eq!(m.cell(5), 1);
    m.step(&program, None, &mut out);
    assert_eq!(m.pointer(), 3);
}

#[test]
fn read_at_end_of_input_leaves_cell_unchanged() {
    let r = run(&compile("+++,.", CHAR_ONLY).unwrap(), &vec![], 100);
    assert_eq!(r.status, RunStatus::Finished);
    assert_eq!(r.output, vec![3]);
}

#[test]
fn reads_consume_input_in_order() {
    let r = run(&compile(",.,.,.", CHAR_ONLY).unwrap(), &vec![1, 2], 100);
    assert_eq!(r.output, vec![1, 2, 2]);
}

#[test]
fn needs_input_only_before_a_read() {
    let program = compile("+,", CHAR_ONLY).unwrap();
    let mut m = Machine::new();
    let mut out = vec![];
    assert!(!m.needs_input(&program));
    m.step(&program, Some(9), &mut out);
    assert_eq!(m.cell(0), 1);
    assert!(m.needs_input(&program));
    m.step(&program, Some(9), &mut out);
    assert_eq!(m.cell(0), 9);
    assert!(!m.needs_input(&program));
}

#[test]
fn hello_world() {
    let source = "++++++++[>++++[>++>+++>+++>+<<<<-]>+>+>->>+[<]<-]>>.>---.+++++++..+++.>>.<-.<.+++.------.--------.>>+.>++.";
    let r = interpret(source, CHAR_ONLY, &vec![], 100_000).unwrap();
    assert_eq!(r.status, RunStatus::Finished);
    assert_eq!(r.output, b"Hello World!\n".to_vec());
}

#[test]
fn echo_one_byte_as_char() {
    let r = interpret(",.", CHAR_ONLY, &vec![65], 100).unwrap();
    assert_eq!(r.status, RunStatus::Finished);
    assert_eq!(String::from_utf8(r.output).unwrap(), "A");
}

#[test]
fn empty_program_prints_nothing() {
    let r = interpret("", CHAR_ONLY, &vec![], 100).unwrap();
    assert_eq!(r.status, RunStatus::Finished);
    assert!(r.output.is_empty());
}

#[test]
fn numeric_output_writes_decimal_text() {
    let r = interpret(",*", NUMERIC, &vec![7], 100).unwrap();
    assert_eq!(r.status, RunStatus::Finished);
    assert_eq!(String::from_utf8(r.output).unwrap(), "7");
    let r = interpret(",*", NUMERIC, &vec![42], 100).unwrap();
    assert_eq!(String::from_utf8(r.output).unwrap(), "42");
    let r = interpret(",*", NUMERIC, &vec![255], 100).unwrap();
    assert_eq!(String::from_utf8(r.output).unwrap(), "255");
    let r = interpret("*", NUMERIC, &vec![], 100).unwrap();
    assert_eq!(String::from_utf8(r.output).unwrap(), "0");
}

#[test]
fn repeated_writes_follow_the_operand() {
    let program = vec![op(OpKind::Increment, 5), op(OpKind::WriteByteAsChar, 3), op(OpKind::WriteByteAsNumber, 2)];
    let r = run(&program, &vec![], 100);
    assert_eq!(r.output, vec![5, 5, 5, b'5', b'5']);
}

#[test]
fn star_without_numeric_output_is_a_comment() {
    let r = interpret(",*", CHAR_ONLY, &vec![7], 100).unwrap();
    assert!(r.output.is_empty());
}

#[test]
fn loop_is_skipped_on_zero_cell() {
    let r = interpret("[.]+.", CHAR_ONLY, &vec![], 100).unwrap();
    assert_eq!(r.output, vec![1]);
}

#[test]
fn loop_runs_until_cell_is_zero() {
    let r = interpret("+++[>++<-]>.", CHAR_ONLY, &vec![], 1000).unwrap();
    assert_eq!(r.output, vec![6]);
}

#[test]
fn endless_loop_runs_out_of_fuel() {
    let r = interpret("+[]", CHAR_ONLY, &vec![], 50).unwrap();
    assert_eq!(r.status, RunStatus::OutOfFuel);
}

#[test]
fn broken_source_is_never_run() {
    assert!(matches!(
        interpret(".]", CHAR_ONLY, &vec![], 100),
        Err(CompileError::UnmatchedCloseBracket { source_index: 1 })
    ));
    assert!(matches!(
        interpret("[", CHAR_ONLY, &vec![], 100),
        Err(CompileError::UnclosedOpenBracket)
    ));
}

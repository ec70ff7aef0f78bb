use brain_fck::compiler::{compile, CompileError, Config};
use brain_fck::op::{Op, OpKind};

const CHAR_ONLY: Config = Config { numeric_output: false, fold_io: false };
const NUMERIC: Config = Config { numeric_output: true, fold_io: false };

fn op(kind: OpKind, operand: usize) -> Op {
    Op { kind, operand }
}

#[test]
fn run_of_plus_folds_into_one_instruction() {
    assert_eq!(compile("+++++", CHAR_ONLY).unwrap(), vec![op(OpKind::Increment, 5)]);
}

#[test]
fn runs_of_each_folded_operator() {
    assert_eq!(compile("---", CHAR_ONLY).unwrap(), vec![op(OpKind::Decrement, 3)]);
    assert_eq!(compile("<<", CHAR_ONLY).unwrap(), vec![op(OpKind::MoveLeft, 2)]);
    assert_eq!(compile(">>>>", CHAR_ONLY).unwrap(), vec![op(OpKind::MoveRight, 4)]);
    assert_eq!(
        compile("++--", CHAR_ONLY).unwrap(),
        vec![op(OpKind::Increment, 2), op(OpKind::Decrement, 2)]
    );
}

#[test]
fn runs_longer_than_a_byte_keep_their_count() {
    let source = "+".repeat(300);
    assert_eq!(compile(&source, CHAR_ONLY).unwrap(), vec![op(OpKind::Increment, 300)]);
}

#[test]
fn comments_do_not_break_a_run() {
    assert_eq!(compile("+ + x +", CHAR_ONLY).unwrap(), vec![op(OpKind::Increment, 3)]);
}

#[test]
fn read_and_write_are_never_folded() {
    assert_eq!(
        compile(",,..", CHAR_ONLY).unwrap(),
        vec![
            op(OpKind::ReadByte, 1),
            op(OpKind::ReadByte, 1),
            op(OpKind::WriteByteAsChar, 1),
            op(OpKind::WriteByteAsChar, 1),
        ]
    );
}

#[test]
fn star_depends_on_numeric_output() {
    assert_eq!(compile("*", CHAR_ONLY).unwrap(), vec![]);
    assert_eq!(
        compile("**", NUMERIC).unwrap(),
        vec![op(OpKind::WriteByteAsNumber, 1), op(OpKind::WriteByteAsNumber, 1)]
    );
}

#[test]
fn loop_targets_point_at_each_other() {
    assert_eq!(
        compile("+[-]", CHAR_ONLY).unwrap(),
        vec![
            op(OpKind::Increment, 1),
            op(OpKind::BranchIfZero, 3),
            op(OpKind::Decrement, 1),
            op(OpKind::BranchIfNonZero, 1),
        ]
    );
}

#[test]
fn nested_loops_are_matched_inside_out() {
    assert_eq!(
        compile("[[]]", CHAR_ONLY).unwrap(),
        vec![
            op(OpKind::BranchIfZero, 3),
            op(OpKind::BranchIfZero, 2),
            op(OpKind::BranchIfNonZero, 1),
            op(OpKind::BranchIfNonZero, 0),
        ]
    );
}

#[test]
fn empty_source_compiles_to_nothing() {
    assert_eq!(compile("", CHAR_ONLY).unwrap(), vec![]);
}

#[test]
fn close_without_open_is_reported_at_its_index() {
    assert_eq!(
        compile("]", CHAR_ONLY),
        Err(CompileError::UnmatchedCloseBracket { source_index: 0 })
    );
    assert_eq!(
        compile("+a]", CHAR_ONLY),
        Err(CompileError::UnmatchedCloseBracket { source_index: 2 })
    );
    assert_eq!(
        compile("[]]]", CHAR_ONLY),
        Err(CompileError::UnmatchedCloseBracket { source_index: 2 })
    );
}

#[test]
fn close_index_counts_characters_not_bytes() {
    assert_eq!(
        compile("é]", CHAR_ONLY),
        Err(CompileError::UnmatchedCloseBracket { source_index: 1 })
    );
}

#[test]
fn open_without_close_is_unclosed() {
    assert_eq!(compile("[", CHAR_ONLY), Err(CompileError::UnclosedOpenBracket));
    assert_eq!(compile("[[]+", CHAR_ONLY), Err(CompileError::UnclosedOpenBracket));
}

#[test]
fn push_folds_into_same_kind() {
    let mut ops = vec![];
    Op::push(&mut ops, OpKind::Increment);
    Op::push(&mut ops, OpKind::Increment);
    Op::push(&mut ops, OpKind::MoveLeft);
    assert_eq!(ops, vec![op(OpKind::Increment, 2), op(OpKind::MoveLeft, 1)]);
}

#[test]
fn push_custom_starts_at_its_operand_and_then_counts_by_one() {
    let mut ops = vec![];
    Op::push_custom(&mut ops, OpKind::Decrement, 7);
    assert_eq!(ops, vec![op(OpKind::Decrement, 7)]);
    Op::push_custom(&mut ops, OpKind::Decrement, 7);
    assert_eq!(ops, vec![op(OpKind::Decrement, 8)]);
}

#[test]
fn push_custom_op_folds_into_same_kind() {
    let mut ops = vec![];
    Op::push_custom_op(&mut ops, OpKind::ReadByte, 1);
    Op::push_custom_op(&mut ops, OpKind::ReadByte, 1);
    assert_eq!(ops, vec![op(OpKind::ReadByte, 2)]);
}

#[test]
fn push_custom_op_past_255_keeps_counting() {
    let mut ops = vec![op(OpKind::Increment, 255)];
    Op::push_custom_op(&mut ops, OpKind::Increment, 1);
    assert_eq!(ops, vec![op(OpKind::Increment, 256)]);
    Op::push_custom_op(&mut ops, OpKind::BranchIfNonZero, 3);
    assert_eq!(ops, vec![op(OpKind::Increment, 256), op(OpKind::BranchIfNonZero, 3)]);
    assert_eq!(Op::new(OpKind::BranchIfZero, 4), op(OpKind::BranchIfZero, 4));
}

#[test]
fn fold_io_folds_reads_and_writes() {
    let config = Config { numeric_output: true, fold_io: true };
    assert_eq!(
        compile(",,..**+", config).unwrap(),
        vec![
            op(OpKind::ReadByte, 2),
            op(OpKind::WriteByteAsChar, 2),
            op(OpKind::WriteByteAsNumber, 2),
            op(OpKind::Increment, 1),
        ]
    );
}

#[test]
fn named_configurations() {
    assert_eq!(Config::char_only(), CHAR_ONLY);
    assert_eq!(Config::with_numeric_output(), NUMERIC);
}

use bfi::instruction::Instruction;
use bfi::lexer::{parse_source_code, CompileError};

#[test]
fn empty_source_compiles_to_empty_stream() {
    assert_eq!(parse_source_code(""), Ok(vec![]));
}

#[test]
fn comments_only_compiles_to_empty_stream() {
    assert_eq!(parse_source_code("hello world\nsecond line"), Ok(vec![]));
}

#[test]
fn single_operator() {
    assert_eq!(parse_source_code("+"), Ok(vec![Instruction::Inc(1)]));
}

#[test]
fn run_folds_to_one_counted_instruction() {
    assert_eq!(parse_source_code("+++++"), Ok(vec![Instruction::Inc(5)]));
}

#[test]
fn every_foldable_operator_folds() {
    assert_eq!(
        parse_source_code("++--<<>>..,,"),
        Ok(vec![
            Instruction::Inc(2),
            Instruction::Dec(2),
            Instruction::DecMemPtr(2),
            Instruction::IncMemPtr(2),
            Instruction::PutChar(2),
            Instruction::GetChar(2),
        ])
    );
}

#[test]
fn bracket_pair_targets_point_at_each_other() {
    assert_eq!(
        parse_source_code("++[->+<]"),
        Ok(vec![
            Instruction::Inc(2),
            Instruction::JmpToIfZero(6),
            Instruction::Dec(1),
            Instruction::IncMemPtr(1),
            Instruction::Inc(1),
            Instruction::DecMemPtr(1),
            Instruction::JmpBackIfNonZero(1),
        ])
    );
}

#[test]
fn nested_brackets_nest_strictly() {
    assert_eq!(
        parse_source_code("[[]]"),
        Ok(vec![
            Instruction::JmpToIfZero(3),
            Instruction::JmpToIfZero(2),
            Instruction::JmpBackIfNonZero(1),
            Instruction::JmpBackIfNonZero(0),
        ])
    );
}

#[test]
fn brackets_break_runs() {
    // Two brackets plus three maximal runs: five instructions.
    assert_eq!(
        parse_source_code("+[+]+"),
        Ok(vec![
            Instruction::Inc(1),
            Instruction::JmpToIfZero(3),
            Instruction::Inc(1),
            Instruction::JmpBackIfNonZero(1),
            Instruction::Inc(1),
        ])
    );
}

#[test]
fn stripping_comments_then_compiling_matches() {
    assert_eq!(parse_source_code("a+b+c"), parse_source_code("++"));
}

#[test]
fn comments_anywhere_do_not_change_the_stream() {
    assert_eq!(parse_source_code("+ [ - ] ."), parse_source_code("+[-]."));
    assert_eq!(
        parse_source_code("++++ add four\n[ loop\n- sub\n] end"),
        parse_source_code("++++[-]")
    );
}

#[test]
fn lone_open_bracket_is_reported() {
    assert_eq!(
        parse_source_code("["),
        Err(CompileError::UnmatchedOpenBracket)
    );
}

#[test]
fn lone_close_bracket_is_reported() {
    assert_eq!(
        parse_source_code("]"),
        Err(CompileError::UnmatchedCloseBracket)
    );
}

#[test]
fn close_bracket_fault_is_found_first() {
    assert_eq!(
        parse_source_code("]["),
        Err(CompileError::UnmatchedCloseBracket)
    );
}

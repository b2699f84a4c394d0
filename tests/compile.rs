use bf_interp::compile::{extract_operators, CompileError};
use bf_interp::op::Op;

fn compile(src: &str) -> Result<Vec<Op>, CompileError> {
    extract_operators(src.as_bytes())
}

#[test]
fn folds_runs_of_one_kind() {
    let ops = compile("+++>>--").unwrap();
    assert_eq!(ops, vec![Op::Increment(3), Op::MoveRight(2), Op::Decrement(2)]);
}

#[test]
fn brackets_break_runs() {
    let ops = compile("+[+]+").unwrap();
    assert_eq!(
        ops,
        vec![
            Op::Increment(1),
            Op::LoopOpen(3),
            Op::Increment(1),
            Op::LoopClose(1),
            Op::Increment(1),
        ]
    );
}

#[test]
fn comments_are_dropped_and_do_not_break_runs() {
    let ops = compile("+ a +\n<<x.").unwrap();
    assert_eq!(ops, vec![Op::Increment(2), Op::MoveLeft(2), Op::Output(1)]);
}

#[test]
fn every_simple_kind_folds() {
    let ops = compile(",,..<<>>--++").unwrap();
    assert_eq!(
        ops,
        vec![
            Op::Input(2),
            Op::Output(2),
            Op::MoveLeft(2),
            Op::MoveRight(2),
            Op::Decrement(2),
            Op::Increment(2),
        ]
    );
}

#[test]
fn empty_source_compiles_to_empty_program() {
    assert_eq!(compile(""), Ok(vec![]));
    assert_eq!(compile("only comments"), Ok(vec![]));
}

#[test]
fn nested_and_sibling_loops_are_paired() {
    let ops = compile("[[]][]").unwrap();
    assert_eq!(
        ops,
        vec![
            Op::LoopOpen(3),
            Op::LoopOpen(2),
            Op::LoopClose(1),
            Op::LoopClose(0),
            Op::LoopOpen(5),
            Op::LoopClose(4),
        ]
    );
}

#[test]
fn adjacent_brackets_do_not_fold() {
    let ops = compile("[[]]").unwrap();
    assert_eq!(ops.len(), 4);
}

#[test]
fn unmatched_close_is_rejected() {
    assert_eq!(compile("]"), Err(CompileError::UnbalancedBrackets));
    assert_eq!(compile("+[]]"), Err(CompileError::UnbalancedBrackets));
    assert_eq!(compile("]["), Err(CompileError::UnbalancedBrackets));
}

#[test]
fn unclosed_open_is_rejected() {
    assert_eq!(compile("["), Err(CompileError::UnbalancedBrackets));
    assert_eq!(compile("[[]"), Err(CompileError::UnbalancedBrackets));
    assert_eq!(compile("+[-"), Err(CompileError::UnbalancedBrackets));
}

#[test]
fn compiling_twice_gives_the_same_program() {
    let src = b"++[>+[-<]>.,]<<".to_vec();
    let first = extract_operators(&src);
    let second = extract_operators(&src);
    assert!(first.is_ok());
    assert_eq!(first, second);
}

#[test]
fn from_byte_maps_each_command() {
    assert_eq!(Op::from_byte(b'<', 4), Some(Op::MoveLeft(4)));
    assert_eq!(Op::from_byte(b'>', 1), Some(Op::MoveRight(1)));
    assert_eq!(Op::from_byte(b'+', 2), Some(Op::Increment(2)));
    assert_eq!(Op::from_byte(b'-', 3), Some(Op::Decrement(3)));
    assert_eq!(Op::from_byte(b'.', 5), Some(Op::Output(5)));
    assert_eq!(Op::from_byte(b',', 6), Some(Op::Input(6)));
    assert_eq!(Op::from_byte(b'[', 7), Some(Op::LoopOpen(7)));
    assert_eq!(Op::from_byte(b']', 8), Some(Op::LoopClose(8)));
    assert_eq!(Op::from_byte(b'a', 1), None);
    assert_eq!(Op::from_byte(b' ', 1), None);
}

#[test]
fn op_reports_its_byte_and_value() {
    assert_eq!(Op::Increment(3).source_byte(), b'+');
    assert_eq!(Op::LoopClose(9).source_byte(), b']');
    assert_eq!(Op::MoveRight(3).value(), 3);
    assert_eq!(Op::LoopOpen(12).value(), 12);
}

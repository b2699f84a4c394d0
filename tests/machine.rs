use bf_interp::compile::extract_operators;
use bf_interp::machine::{Action, Machine, RuntimeError};
use bf_interp::op::Op;

fn program(src: &str) -> Vec<Op> {
    extract_operators(src.as_bytes()).unwrap()
}

#[test]
fn new_machine_has_one_zero_cell() {
    let m = Machine::new();
    assert_eq!(m.tape(), &vec![0]);
    assert_eq!(m.cell_pointer(), 0);
    assert_eq!(m.instruction_pointer(), 0);
}

#[test]
fn move_left_from_first_cell_is_a_range_error() {
    let prog = program("<");
    let mut m = Machine::new();
    assert_eq!(m.step(&prog), Err(RuntimeError::RangeError));
    assert_eq!(m.cell_pointer(), 0);
    assert_eq!(m.tape(), &vec![0]);
}

#[test]
fn move_left_past_zero_by_a_count_is_a_range_error() {
    let prog = program("><<");
    let mut m = Machine::new();
    assert_eq!(m.step(&prog), Ok(Action::Continue));
    assert_eq!(m.cell_pointer(), 1);
    assert_eq!(m.step(&prog), Err(RuntimeError::RangeError));
    assert_eq!(m.cell_pointer(), 1);
}

#[test]
fn move_right_grows_the_tape() {
    let prog = program(">>><");
    let mut m = Machine::new();
    assert_eq!(m.step(&prog), Ok(Action::Continue));
    assert_eq!(m.tape(), &vec![0, 0, 0, 0]);
    assert_eq!(m.cell_pointer(), 3);
    assert_eq!(m.step(&prog), Ok(Action::Continue));
    assert_eq!(m.cell_pointer(), 2);
    assert_eq!(m.tape().len(), 4);
    assert_eq!(m.step(&prog), Ok(Action::Halt));
}

#[test]
fn decrement_below_zero_wraps_to_negative() {
    let prog = program("--");
    let mut m = Machine::new();
    assert_eq!(m.step(&prog), Ok(Action::Continue));
    assert_eq!(m.tape(), &vec![-2]);
}

#[test]
fn cells_hold_more_than_a_byte() {
    let src = "+".repeat(300);
    let prog = program(&src);
    let mut m = Machine::new();
    assert_eq!(m.step(&prog), Ok(Action::Continue));
    assert_eq!(m.tape(), &vec![300]);
}

#[test]
fn increment_wraps_at_the_cell_width() {
    let prog = vec![Op::Increment(i32::MAX as usize), Op::Increment(1), Op::Decrement(1)];
    let mut m = Machine::new();
    assert_eq!(m.step(&prog), Ok(Action::Continue));
    assert_eq!(m.tape(), &vec![i32::MAX]);
    assert_eq!(m.step(&prog), Ok(Action::Continue));
    assert_eq!(m.tape(), &vec![i32::MIN]);
    assert_eq!(m.step(&prog), Ok(Action::Continue));
    assert_eq!(m.tape(), &vec![i32::MAX]);
}

#[test]
fn output_of_a_valid_code_point_asks_to_write_it() {
    let src = format!("{}..", "+".repeat(66));
    let prog = program(&src);
    let mut m = Machine::new();
    m.step(&prog).unwrap();
    assert_eq!(m.step(&prog), Ok(Action::Write('B', 2)));
    assert_eq!(m.step(&prog), Ok(Action::Halt));
}

#[test]
fn output_of_an_invalid_code_point_is_skipped() {
    let prog = program("-.");
    let mut m = Machine::new();
    m.step(&prog).unwrap();
    assert_eq!(m.step(&prog), Ok(Action::Continue));
    assert_eq!(m.instruction_pointer(), 2);

    let prog = vec![Op::Increment(0xD800), Op::Output(1)];
    let mut m = Machine::new();
    m.step(&prog).unwrap();
    assert_eq!(m.step(&prog), Ok(Action::Continue));
}

#[test]
fn input_asks_for_bytes_and_keeps_the_last() {
    let prog = program(",,,");
    let mut m = Machine::new();
    assert_eq!(m.step(&prog), Ok(Action::Read(3)));
    assert_eq!(m.instruction_pointer(), 0);
    assert_eq!(m.supply_input(&prog, &[1, 2, 3]), Ok(()));
    assert_eq!(m.tape(), &vec![3]);
    assert_eq!(m.instruction_pointer(), 1);
}

#[test]
fn input_with_too_few_bytes_is_an_input_error() {
    let prog = program(",,");
    let mut m = Machine::new();
    assert_eq!(m.step(&prog), Ok(Action::Read(2)));
    assert_eq!(m.supply_input(&prog, &[9]), Err(RuntimeError::InputError));
    assert_eq!(m.supply_input(&prog, &[]), Err(RuntimeError::InputError));
    assert_eq!(m.tape(), &vec![0]);
    assert_eq!(m.instruction_pointer(), 0);
}

#[test]
fn loop_open_on_zero_jumps_past_its_close() {
    let prog = program("[-]+");
    let mut m = Machine::new();
    assert_eq!(m.step(&prog), Ok(Action::Continue));
    assert_eq!(m.instruction_pointer(), 3);
}

#[test]
fn loop_close_on_nonzero_jumps_back_into_the_body() {
    let prog = program("+[-]");
    let mut m = Machine::new();
    m.step(&prog).unwrap();
    m.step(&prog).unwrap();
    assert_eq!(m.instruction_pointer(), 2);
    m.step(&prog).unwrap();
    m.step(&prog).unwrap();
    assert_eq!(m.instruction_pointer(), 4);
    assert_eq!(m.step(&prog), Ok(Action::Halt));
}

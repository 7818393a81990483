use bfi::instruction::Instruction;
use bfi::lexer::parse_source_code;
use bfi::machine::{Machine, RuntimeError};

const BUDGET: usize = 10_000_000;

fn compile(src: &str) -> Vec<Instruction> {
    parse_source_code(src).expect("source should compile")
}

#[test]
fn empty_stream_halts_immediately() {
    let mut m = Machine::new(compile(""));
    assert_eq!(m.run_next(), Ok(None));
    assert_eq!(m.run_to_end(BUDGET), Ok(true));
    assert_eq!(m.instruction_ptr(), 0);
}

#[test]
fn empty_loop_halts_after_two_steps_with_no_side_effects() {
    let mut m = Machine::new(compile("[]"));
    assert_eq!(m.run_next(), Ok(Some(())));
    assert_eq!(m.run_next(), Ok(Some(())));
    assert_eq!(m.run_next(), Ok(None));
    assert_eq!(m.current_cell(), 0);
    assert_eq!(m.mem_ptr(), 0);
    assert!(m.output().is_empty());
}

#[test]
fn increment_wraps_at_256() {
    let src: String = std::iter::repeat('+').take(256).collect();
    let mut m = Machine::new(compile(&src));
    assert_eq!(m.run_to_end(BUDGET), Ok(true));
    assert_eq!(m.current_cell(), 0);
}

#[test]
fn decrement_wraps_below_zero() {
    let mut m = Machine::new(compile("-"));
    assert_eq!(m.run_to_end(BUDGET), Ok(true));
    assert_eq!(m.current_cell(), 255);
}

#[test]
fn hello_world_prints_exactly() {
    let src = "++++++++[>++++[>++>+++>+++>+<<<<-]>+>+>->>+[<]<-]>>.>---.+++++++..+++.>>.<-.<.+++.------.--------.>>+.>++.";
    let mut m = Machine::new(compile(src));
    assert_eq!(m.run_to_end(BUDGET), Ok(true));
    assert_eq!(m.output().as_slice(), b"Hello World!\n");
}

#[test]
fn echo_one_byte() {
    let mut m = Machine::with_input(compile(",."), vec![0x41]);
    assert_eq!(m.run_to_end(BUDGET), Ok(true));
    assert_eq!(m.output().as_slice(), &[0x41]);
}

#[test]
fn echo_until_zero_byte() {
    let mut m = Machine::with_input(compile(",[.,]"), b"ABC\0".to_vec());
    assert_eq!(m.run_to_end(BUDGET), Ok(true));
    assert_eq!(m.output().as_slice(), b"ABC");
}

#[test]
fn infinite_loop_exhausts_any_budget() {
    let mut m = Machine::new(compile("+[]"));
    assert_eq!(m.run_to_end(1000), Ok(false));
    assert_eq!(m.run_to_end(1000), Ok(false));
}

#[test]
fn infinite_loop_oscillates_between_the_brackets() {
    let mut m = Machine::new(compile("+[]"));
    assert_eq!(m.run_next(), Ok(Some(())));
    for _ in 0..100 {
        assert_eq!(m.run_next(), Ok(Some(())));
        let pc = m.instruction_ptr();
        assert!(pc == 1 || pc == 2);
        assert_eq!(m.current_cell(), 1);
    }
}

#[test]
fn cursor_moves_right_then_back() {
    let mut m = Machine::new(compile("><"));
    assert_eq!(m.run_next(), Ok(Some(())));
    assert_eq!(m.mem_ptr(), 1);
    assert_eq!(m.run_next(), Ok(Some(())));
    assert_eq!(m.mem_ptr(), 0);
    assert_eq!(m.run_next(), Ok(None));
}

#[test]
fn moving_left_of_the_first_cell_underflows() {
    let mut m = Machine::new(compile("<"));
    assert_eq!(m.run_to_end(BUDGET), Err(RuntimeError::TapeUnderflow));
}

#[test]
fn moving_past_the_last_cell_overflows() {
    let src: String = std::iter::repeat('>').take(30000).collect();
    let mut m = Machine::new(compile(&src));
    assert_eq!(m.run_to_end(BUDGET), Err(RuntimeError::TapeOverflow));
}

#[test]
fn the_last_cell_is_reachable() {
    let src: String = std::iter::repeat('>').take(29999).collect();
    let mut m = Machine::new(compile(&src));
    assert_eq!(m.run_to_end(BUDGET), Ok(true));
    assert_eq!(m.mem_ptr(), 29999);
}

#[test]
fn reading_past_the_input_is_an_error() {
    let mut m = Machine::new(compile(","));
    assert_eq!(m.run_to_end(BUDGET), Err(RuntimeError::InputExhausted));
}

#[test]
fn folded_read_consumes_every_byte_and_keeps_the_last() {
    let mut m = Machine::with_input(compile(",,"), vec![1, 2]);
    assert_eq!(m.run_to_end(BUDGET), Ok(true));
    assert_eq!(m.current_cell(), 2);
}

#[test]
fn counted_instruction_equals_the_unfolded_run() {
    let mut folded = Machine::new(compile("+++++"));
    let mut unfolded = Machine::new(vec![Instruction::Inc(1); 5]);
    assert_eq!(folded.run_to_end(BUDGET), Ok(true));
    assert_eq!(unfolded.run_to_end(BUDGET), Ok(true));
    assert_eq!(folded.current_cell(), unfolded.current_cell());
    assert_eq!(folded.current_cell(), 5);
}

use brainfuck::interpreter::Interpreter;
use brainfuck::interpreter::RuntimeError;
use brainfuck::interpreter::TAPE_LEN;
use brainfuck::lexer::Lexer;
use brainfuck::parser::Instruction;
use brainfuck::parser::Parser;
use brainfuck::parser::Program;

const FUEL: usize = 10_000_000;

fn parse(source: &[u8]) -> Program {
    let mut lexer = Lexer::new(source.to_vec());
    let mut parser = Parser::default();
    parser.parse_program(&mut lexer).unwrap()
}

#[test]
fn empty_program_halts_immediately() {
    let mut interpreter = Interpreter::new(vec![]);
    assert_eq!(interpreter.run(FUEL), Ok(true));
    assert!(interpreter.halted());
    assert!(interpreter.output().is_empty());
}

#[test]
fn increment_and_move_update_tape_and_pointer() {
    let mut interpreter = Interpreter::new(parse(b"++>+++"));
    assert_eq!(interpreter.run(FUEL), Ok(true));
    assert_eq!(interpreter.cell_at(0), 2);
    assert_eq!(interpreter.cell_at(1), 3);
    assert_eq!(interpreter.data_pointer(), 1);
}

#[test]
fn incrementing_256_times_returns_cell_to_its_value() {
    let mut source = b"+++><".to_vec();
    source.extend(std::iter::repeat(b'+').take(256));
    let program = parse(&source);
    assert_eq!(
        program,
        vec![
            Instruction::Inc(3),
            Instruction::AddressRight(1),
            Instruction::AddressLeft(1),
            Instruction::Inc(256),
        ]
    );
    let mut interpreter = Interpreter::new(program);
    assert_eq!(interpreter.run(FUEL), Ok(true));
    assert_eq!(interpreter.cell_at(0), 3);
}

#[test]
fn decrement_wraps_below_zero() {
    let mut interpreter = Interpreter::new(parse(b"-"));
    assert_eq!(interpreter.run(FUEL), Ok(true));
    assert_eq!(interpreter.cell_at(0), 255);
}

#[test]
fn plus_loop_minus_drains_cell_and_halts() {
    let program = parse(b"+[-]");
    let len = program.len();
    let mut interpreter = Interpreter::new(program);
    assert_eq!(interpreter.run(FUEL), Ok(true));
    assert_eq!(interpreter.cell_at(0), 0);
    assert!(interpreter.instruction_pointer() >= len);
}

#[test]
fn forward_jump_skips_loop_body_on_zero_cell() {
    let mut interpreter = Interpreter::new(parse(b"[+++]>+"));
    assert_eq!(interpreter.run(FUEL), Ok(true));
    assert_eq!(interpreter.cell_at(0), 0);
    assert_eq!(interpreter.cell_at(1), 1);
}

#[test]
fn output_repeats_the_cell_byte() {
    let mut interpreter = Interpreter::new(parse(b"++.."));
    assert_eq!(interpreter.run(FUEL), Ok(true));
    assert_eq!(interpreter.output().as_slice(), &[2, 2]);
}

#[test]
fn input_reads_bytes_and_last_one_wins() {
    let mut interpreter = Interpreter::new_with_input(parse(b","), vec![65]);
    assert_eq!(interpreter.run(FUEL), Ok(true));
    assert_eq!(interpreter.cell_at(0), 65);

    let mut interpreter = Interpreter::new_with_input(parse(b",,,"), vec![1, 2]);
    assert_eq!(interpreter.run(FUEL), Ok(true));
    assert_eq!(interpreter.cell_at(0), 2);
}

#[test]
fn input_at_end_of_stream_leaves_cell_unchanged() {
    let mut interpreter = Interpreter::new_with_input(parse(b"+++,"), vec![]);
    assert_eq!(interpreter.run(FUEL), Ok(true));
    assert_eq!(interpreter.cell_at(0), 3);
}

#[test]
fn moving_left_off_the_tape_faults() {
    let mut interpreter = Interpreter::new(parse(b"<"));
    assert_eq!(
        interpreter.run(FUEL),
        Err(RuntimeError::TapeOutOfBounds { address: -1 })
    );
}

#[test]
fn moving_right_off_the_tape_faults() {
    let mut interpreter = Interpreter::new(vec![Instruction::AddressRight(TAPE_LEN)]);
    assert_eq!(
        interpreter.run(FUEL),
        Err(RuntimeError::TapeOutOfBounds { address: TAPE_LEN as i128 })
    );
}

#[test]
fn infinite_loop_runs_out_of_fuel() {
    let mut interpreter = Interpreter::new(parse(b"+[]"));
    assert_eq!(interpreter.run(10), Ok(false));
    assert_eq!(interpreter.run(1000), Ok(false));
    assert!(!interpreter.halted());
}

#[test]
fn take_output_drains_the_buffer() {
    let mut interpreter = Interpreter::new(parse(b"+."));
    assert_eq!(interpreter.run(FUEL), Ok(true));
    assert_eq!(interpreter.take_output(), vec![1]);
    assert!(interpreter.output().is_empty());
    assert_eq!(interpreter.take_output(), vec![]);
}

#[test]
fn hello_world_produces_the_exact_bytes() {
    let source = b"++++++++[>++++[>++>+++>+++>+<<<<-]>+>+>->>+[<]<-]>>.>---.+++++++..+++.>>.<-.<.+++.------.--------.>>+.>++.";
    let mut interpreter = Interpreter::new(parse(source));
    assert_eq!(interpreter.run(FUEL), Ok(true));
    assert_eq!(interpreter.output().as_slice(), b"Hello World!\n");
}

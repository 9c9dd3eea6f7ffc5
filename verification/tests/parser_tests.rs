use brainfuck::lexer::Lexer;
use brainfuck::parser::Instruction;
use brainfuck::parser::ParseError;
use brainfuck::parser::Parser;
use brainfuck::parser::Program;

fn parse(source: &[u8]) -> Result<Program, ParseError> {
    let mut lexer = Lexer::new(source.to_vec());
    let mut parser = Parser::default();
    parser.parse_program(&mut lexer)
}

#[test]
fn empty_source_parses_to_empty_program() {
    assert_eq!(parse(b"").unwrap(), vec![]);
    assert_eq!(parse(b"just a comment").unwrap(), vec![]);
}

#[test]
fn runs_compress_to_one_counted_instruction() {
    assert_eq!(parse(b"+++++++").unwrap(), vec![Instruction::Inc(7)]);
    assert_eq!(parse(b">>>").unwrap(), vec![Instruction::AddressRight(3)]);
    assert_eq!(parse(b"<<").unwrap(), vec![Instruction::AddressLeft(2)]);
    assert_eq!(parse(b"--").unwrap(), vec![Instruction::Dec(2)]);
    assert_eq!(parse(b"..").unwrap(), vec![Instruction::Output(2)]);
    assert_eq!(parse(b",,").unwrap(), vec![Instruction::Input(2)]);
    let long_run = vec![b'-'; 254];
    assert_eq!(parse(&long_run).unwrap(), vec![Instruction::Dec(254)]);
}

#[test]
fn comments_do_not_break_a_run() {
    assert_eq!(parse(b"+ comment +\n+").unwrap(), vec![Instruction::Inc(3)]);
}

#[test]
fn distinct_symbols_stay_distinct_instructions() {
    assert_eq!(
        parse(b"+>-").unwrap(),
        vec![Instruction::Inc(1), Instruction::AddressRight(1), Instruction::Dec(1)]
    );
}

#[test]
fn loop_brackets_backpatch_targets() {
    assert_eq!(
        parse(b"+[-]").unwrap(),
        vec![
            Instruction::Inc(1),
            Instruction::JmpForward(3),
            Instruction::Dec(1),
            Instruction::JmpBackward(2),
        ]
    );
}

#[test]
fn nested_brackets_resolve_independently() {
    assert_eq!(
        parse(b"[[]]").unwrap(),
        vec![
            Instruction::JmpForward(3),
            Instruction::JmpForward(2),
            Instruction::JmpBackward(2),
            Instruction::JmpBackward(1),
        ]
    );
}

#[test]
fn balanced_program_has_all_jump_targets_in_bounds() {
    let program = parse(b"++[>+[-]<-]>[.]").unwrap();
    for instruction in &program {
        match instruction {
            Instruction::JmpForward(target) | Instruction::JmpBackward(target) => {
                assert!(*target < program.len());
            }
            _ => {}
        }
    }
}

#[test]
fn lone_close_bracket_reports_its_position() {
    match parse(b"]") {
        Err(ParseError::UnmatchedCloseBracket { position }) => {
            assert_eq!((position.line, position.column), (1, 1));
        }
        other => panic!("expected an unmatched close bracket, got {other:?}"),
    }
    match parse(b"ab\n+]x") {
        Err(ParseError::UnmatchedCloseBracket { position }) => {
            assert_eq!((position.line, position.column), (2, 2));
        }
        other => panic!("expected an unmatched close bracket, got {other:?}"),
    }
}

#[test]
fn close_after_matched_pair_is_still_unmatched() {
    match parse(b"[]]") {
        Err(ParseError::UnmatchedCloseBracket { position }) => {
            assert_eq!((position.line, position.column), (1, 3));
        }
        other => panic!("expected an unmatched close bracket, got {other:?}"),
    }
}

#[test]
fn trailing_open_bracket_reports_unmatched_open() {
    match parse(b"[+") {
        Err(ParseError::UnmatchedOpenBracket { positions }) => {
            assert_eq!(positions.len(), 1);
            assert_eq!((positions[0].line, positions[0].column), (1, 1));
        }
        other => panic!("expected an unmatched open bracket, got {other:?}"),
    }
}

#[test]
fn every_pending_open_bracket_is_listed() {
    match parse(b"[[+") {
        Err(ParseError::UnmatchedOpenBracket { positions }) => {
            assert_eq!(positions.len(), 2);
            assert_eq!((positions[0].line, positions[0].column), (1, 1));
            assert_eq!((positions[1].line, positions[1].column), (1, 2));
        }
        other => panic!("expected an unmatched open bracket, got {other:?}"),
    }
}

use brainfuck::lexer::Lexer;

#[test]
fn alphabet_membership() {
    for b in [b'<', b'>', b'+', b'-', b'.', b',', b'[', b']'] {
        assert!(Lexer::is_char_in_language(b));
    }
    for b in [b'a', b' ', b'\n', b'0', b'!', 0u8] {
        assert!(!Lexer::is_char_in_language(b));
    }
}

#[test]
fn tokens_carry_positions_and_comments_are_skipped() {
    let mut lexer = Lexer::new(b"a+\n<.".to_vec());
    let t = lexer.slice_token().unwrap();
    assert_eq!(t.symbol, b'+');
    assert_eq!((t.location.line, t.location.column), (1, 2));
    let t = lexer.slice_token().unwrap();
    assert_eq!(t.symbol, b'<');
    assert_eq!((t.location.line, t.location.column), (2, 1));
    let t = lexer.slice_token().unwrap();
    assert_eq!(t.symbol, b'.');
    assert_eq!((t.location.line, t.location.column), (2, 2));
    assert!(lexer.slice_token().is_none());
}

#[test]
fn comment_only_source_yields_no_tokens() {
    let mut lexer = Lexer::new(b"hello world\nno symbols here".to_vec());
    assert!(lexer.slice_token().is_none());
    assert!(lexer.nxt_token().is_none());
}

#[test]
fn peek_is_idempotent_and_feeds_next() {
    let mut lexer = Lexer::new(b"+-".to_vec());
    let p1 = lexer.nxt_token().unwrap();
    let p2 = lexer.nxt_token().unwrap();
    assert_eq!(p1, p2);
    let t = lexer.slice_token().unwrap();
    assert_eq!(t, p1);
    let t = lexer.slice_token().unwrap();
    assert_eq!(t.symbol, b'-');
    assert!(lexer.slice_token().is_none());
}

#[test]
fn count_while_consumes_exactly_the_run() {
    let mut lexer = Lexer::new(b"++++-".to_vec());
    let head = lexer.slice_token().unwrap();
    assert_eq!(head.symbol, b'+');
    let count = lexer.count_while(&head);
    assert_eq!(count, 3);
    let t = lexer.slice_token().unwrap();
    assert_eq!(t.symbol, b'-');
    let count = lexer.count_while(&t);
    assert_eq!(count, 0);
    assert!(lexer.slice_token().is_none());
}

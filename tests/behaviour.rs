use cmd_lexer::Lexer;

fn all(src: &[u8]) -> Vec<String> {
    Lexer::new(src).collect()
}

#[test]
fn valid_ws_other_bytes() {
    for b in [b"x", b"\"", b"\x0b", b"\x0c", b"0"] {
        assert!(!Lexer::new(b).valid_ws());
    }
    assert!(!Lexer::new(b"").valid_ws());
}

#[test]
fn empty_buffer_has_no_token() {
    let mut lexer = Lexer::new(b"");
    assert_eq!(None, lexer.next());
    assert!(lexer.eof());
}

#[test]
fn tokenize_exactly_five() {
    let tokens = all(b"foo bar baz \"a b\" zoz");
    assert_eq!(
        vec!["foo", "bar", "baz", "a b", "zoz"],
        tokens.iter().map(|s| s.as_str()).collect::<Vec<_>>()
    );
}

#[test]
fn empty_quotes_are_no_token() {
    let mut lexer = Lexer::new(b"\"\"");
    assert_eq!(None, lexer.next());
    assert!(lexer.eof());
    assert_eq!(Vec::<String>::new(), all(b"\"\""));
}

#[test]
fn empty_quotes_do_not_exhaust() {
    let mut lexer = Lexer::new(b"\"\" foo");
    assert_eq!(None, lexer.next());
    assert!(!lexer.eof());
    assert_eq!(Some("foo".to_string()), lexer.next());
    assert_eq!(None, lexer.next());
    assert_eq!(Vec::<String>::new(), all(b"\"\" foo"));
}

#[test]
fn unterminated_quote_runs_to_end() {
    let mut lexer = Lexer::new(b"\"unterminated");
    assert_eq!(Some("unterminated".to_string()), lexer.next());
    assert!(lexer.eof());
    assert_eq!(None, lexer.next());
}

#[test]
fn exhaustion_is_idempotent() {
    let mut lexer = Lexer::new(b" a  ");
    assert_eq!(Some("a".to_string()), lexer.next());
    for _ in 0..5 {
        assert_eq!(None, lexer.next());
        assert!(lexer.eof());
    }
}

#[test]
fn single_word_is_whole_input() {
    assert_eq!(vec!["hello-world_42".to_string()], all(b"hello-world_42"));
}

#[test]
fn only_whitespace_has_no_token() {
    let mut lexer = Lexer::new(b" \t\r\n ");
    assert_eq!(None, lexer.next());
    assert!(lexer.eof());
}

#[test]
fn quote_ends_a_word() {
    assert_eq!(vec!["a".to_string(), "b".to_string()], all(b"a\"b\""));
}

#[test]
fn quoted_span_keeps_whitespace() {
    assert_eq!(vec![" x\ty ".to_string(), "z".to_string()], all(b"\" x\ty \"z"));
}

#[test]
fn multibyte_text_is_decoded() {
    let src = "h\u{e9}llo \"w\u{f6}r ld\" \u{1f600}";
    assert_eq!(
        vec!["h\u{e9}llo".to_string(), "w\u{f6}r ld".to_string(), "\u{1f600}".to_string()],
        all(src.as_bytes())
    );
}

#[test]
fn every_whitespace_byte_separates() {
    assert_eq!(
        vec!["a", "b", "c", "d", "e"],
        all(b"a b\tc\nd\re").iter().map(|s| s.as_str()).collect::<Vec<_>>()
    );
}

use cmd_lexer::Lexer;

#[test]
fn eof() {
    assert!(Lexer::new(b"").eof());
    assert!(!Lexer::new(b"a").eof());
}

#[test]
fn valid_ws() {
    let tests = vec![
        (b" ", true),
        (b"\t", true),
        (b"\n", true),
        (b"\r", true),
        (b"a", false),
    ];

    let mut lexer;
    for (src, expected) in tests {
        lexer = Lexer::new(src);
        assert_eq!(expected, lexer.valid_ws());
    }
}

#[test]
fn tokenize() {
    let lexer = Lexer::new(b"foo bar baz \"a b\" zoz");
    let tokens: Vec<_> = lexer.collect();
    assert_eq!("foo".to_string(), tokens[0]);
    assert_eq!("bar".to_string(), tokens[1]);
    assert_eq!("baz".to_string(), tokens[2]);
    assert_eq!("a b".to_string(), tokens[3]);
    assert_eq!("zoz".to_string(), tokens[4]);
}

use perq::lexer::{copy_bytes, match_operator, match_word, parse_tokens, LexError, Operator, Token};

#[test]
fn lex_test_1() {
    let res = parse_tokens("let x := [7,22, 3]".as_bytes()).unwrap();
    let expected = [
        Token::Let,
        Token::Identifier(vec![b'x']),
        Token::Operator(Operator::DefineEqual),
        Token::OpenBracket,
        Token::Literal(vec![b'7']),
        Token::Comma,
        Token::Literal(vec![b'2', b'2']),
        Token::Comma,
        Token::Literal(vec![b'3']),
        Token::CloseBracket,
    ];
    assert!(res == expected);
}

#[test]
fn every_kind_of_token() {
    let res = parse_tokens(b"a_1+b-c*d/e^f@g.*h./i;(9)\nlet").unwrap();
    let expected = vec![
        Token::Identifier(b"a_1".to_vec()),
        Token::Operator(Operator::Add),
        Token::Identifier(b"b".to_vec()),
        Token::Operator(Operator::Sub),
        Token::Identifier(b"c".to_vec()),
        Token::Operator(Operator::Mul),
        Token::Identifier(b"d".to_vec()),
        Token::Operator(Operator::Div),
        Token::Identifier(b"e".to_vec()),
        Token::Operator(Operator::Pow),
        Token::Identifier(b"f".to_vec()),
        Token::Operator(Operator::Compose),
        Token::Identifier(b"g".to_vec()),
        Token::Operator(Operator::PointMul),
        Token::Identifier(b"h".to_vec()),
        Token::Operator(Operator::PointDiv),
        Token::Identifier(b"i".to_vec()),
        Token::Semicolon,
        Token::OpenParen,
        Token::Literal(b"9".to_vec()),
        Token::CloseParen,
        Token::Semicolon,
        Token::Let,
    ];
    assert_eq!(res, expected);
}

#[test]
fn the_keyword_is_a_prefix() {
    let res = parse_tokens(b"letrec").unwrap();
    assert_eq!(res, vec![Token::Let, Token::Identifier(b"rec".to_vec())]);
    assert_eq!(parse_tokens(b"").unwrap(), vec![]);
    assert_eq!(parse_tokens(b" \t ").unwrap(), vec![]);
}

#[test]
fn unexpected_bytes_are_reported_with_their_position() {
    assert_eq!(parse_tokens(b"x = 1"), Err(LexError { position: 2 }));
    assert_eq!(parse_tokens(b"1 . 2"), Err(LexError { position: 2 }));
    assert_eq!(parse_tokens(b"a:"), Err(LexError { position: 1 }));
    assert_eq!(parse_tokens(b"#"), Err(LexError { position: 0 }));
}

#[test]
fn lexer_helpers() {
    assert!(match_word(b"abcdef", 2, b"cd"));
    assert!(!match_word(b"abcdef", 2, b"ce"));
    assert!(!match_word(b"abcdef", 5, b"fg"));
    assert!(match_word(b"abc", 3, b""));
    assert_eq!(copy_bytes(b"abcdef", 1, 4), b"bcd".to_vec());
    assert_eq!(match_operator(b"a:=b", 1), Some((Operator::DefineEqual, 3)));
    assert_eq!(match_operator(b"a:b", 1), None);
}

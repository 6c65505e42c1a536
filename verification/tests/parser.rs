use perq::lexer::{parse_tokens, Operator, Token};
use perq::parser::{
    parse_chain, parse_command, parse_commands, parse_level, parse_list, same_node, Level,
    ParseError, SyntaxNode,
};

fn tokens(text: &str) -> Vec<Token> {
    parse_tokens(text.as_bytes()).unwrap()
}

fn name(text: &str) -> SyntaxNode {
    SyntaxNode::Identifier(text.as_bytes().to_vec())
}

fn number(text: &str) -> SyntaxNode {
    SyntaxNode::Constant(text.as_bytes().to_vec())
}

fn binary(a: SyntaxNode, op: Operator, b: SyntaxNode) -> SyntaxNode {
    SyntaxNode::BinaryOp(Box::new(a), op, Box::new(b))
}

fn one(text: &str) -> SyntaxNode {
    let mut all = parse_commands(&tokens(text)).unwrap();
    assert_eq!(all.len(), 1);
    all.remove(0)
}

fn failure(text: &str) -> ParseError {
    parse_commands(&tokens(text)).unwrap_err()
}

#[test]
fn parser_test_1() {
    let tok = parse_tokens("let x := [7, 2, 3]".as_bytes()).unwrap();
    let res = parse_commands(&tok).unwrap();
    let expected = [SyntaxNode::LetStatement(
        vec![b'x'],
        Box::new(SyntaxNode::Series(vec![
            SyntaxNode::Constant(vec![b'7']),
            SyntaxNode::Constant(vec![b'2']),
            SyntaxNode::Constant(vec![b'3']),
        ])),
    )];
    assert!(res == expected);
}

#[test]
fn chains_associate_to_the_right() {
    assert_eq!(
        one("a - b - c"),
        binary(name("a"), Operator::Sub, binary(name("b"), Operator::Sub, name("c")))
    );
    assert_eq!(
        one("a + b * c"),
        binary(name("a"), Operator::Add, binary(name("b"), Operator::Mul, name("c")))
    );
    assert_eq!(
        one("a * b + c"),
        binary(binary(name("a"), Operator::Mul, name("b")), Operator::Add, name("c"))
    );
    assert_eq!(
        one("a ^ b @ c ./ d .* e"),
        binary(
            binary(name("a"), Operator::Pow, binary(name("b"), Operator::Compose, name("c"))),
            Operator::PointDiv,
            binary(name("d"), Operator::PointMul, name("e"))
        )
    );
    assert_eq!(
        one("1 + 2 ^ 3 / 4"),
        binary(
            number("1"),
            Operator::Add,
            binary(binary(number("2"), Operator::Pow, number("3")), Operator::Div, number("4"))
        )
    );
}

#[test]
fn parentheses_and_brackets_hide_operators() {
    assert_eq!(
        one("(a + b) * c"),
        binary(binary(name("a"), Operator::Add, name("b")), Operator::Mul, name("c"))
    );
    assert_eq!(
        one("f(a + b, c)"),
        SyntaxNode::Application(
            b"f".to_vec(),
            vec![binary(name("a"), Operator::Add, name("b")), name("c")]
        )
    );
    assert_eq!(
        one("f(g(a, b), c)"),
        SyntaxNode::Application(
            b"f".to_vec(),
            vec![SyntaxNode::Application(b"g".to_vec(), vec![name("a"), name("b")]), name("c")]
        )
    );
    assert_eq!(one("f x"), SyntaxNode::Application(b"f".to_vec(), vec![name("x")]));
    assert_eq!(one("f()"), SyntaxNode::Application(b"f".to_vec(), vec![]));
    assert_eq!(one("[]"), SyntaxNode::Series(vec![]));
    assert_eq!(
        one("[1 + 2, 3,]"),
        SyntaxNode::Series(vec![binary(number("1"), Operator::Add, number("2")), number("3")])
    );
}

#[test]
fn the_negative_of_an_operand() {
    let tok = tokens("- b");
    assert_eq!(
        parse_level(&tok, 0, 2, Level::Operand).unwrap(),
        SyntaxNode::UnaryOp(Operator::Sub, Box::new(name("b")))
    );
    let tok = tokens("- - 4 ^ 2");
    assert_eq!(
        parse_level(&tok, 0, 5, Level::ConstantOperand).unwrap(),
        SyntaxNode::UnaryOp(
            Operator::Sub,
            Box::new(SyntaxNode::UnaryOp(
                Operator::Sub,
                Box::new(binary(number("4"), Operator::Pow, number("2")))
            ))
        )
    );
    assert_eq!(parse_level(&tok, 0, 1, Level::Operand).unwrap_err(), ParseError::Empty);
    // a summand is split at every `-` outside of parentheses
    assert_eq!(failure("-a"), ParseError::Empty);
    assert_eq!(failure("a * -b"), ParseError::Empty);
    assert_eq!(failure("a ^ -b"), ParseError::Empty);
}

#[test]
fn commands_end_at_semicolons() {
    let mut tok = tokens("a; let b := 2\n");
    tok.push(Token::LetRec);
    tok.extend(tokens("f(n) := n * f(n - 1);"));
    let all = parse_commands(&tok).unwrap();
    assert_eq!(all.len(), 3);
    assert_eq!(all[0], name("a"));
    assert_eq!(all[1], SyntaxNode::LetStatement(b"b".to_vec(), Box::new(number("2"))));
    assert_eq!(
        all[2],
        SyntaxNode::RecStatement(
            Box::new(SyntaxNode::Application(b"f".to_vec(), vec![name("n")])),
            Box::new(binary(
                name("n"),
                Operator::Mul,
                SyntaxNode::Application(
                    b"f".to_vec(),
                    vec![binary(name("n"), Operator::Sub, number("1"))]
                )
            ))
        )
    );
    assert!(parse_commands(&[]).unwrap().is_empty());
    assert_eq!(failure(";a"), ParseError::Empty);
    assert_eq!(failure("a;;b"), ParseError::Empty);
}

#[test]
fn every_error_of_the_parser() {
    assert_eq!(failure("a +"), ParseError::Empty);
    assert_eq!(failure("[1 2]"), ParseError::NotSingleLiteral);
    assert_eq!(failure("[a]"), ParseError::NotLiteral);
    assert_eq!(failure("f("), ParseError::NoClosingParen);
    assert_eq!(failure("("), ParseError::NoClosingParen);
    assert_eq!(failure("["), ParseError::NoClosingBracket);
    assert_eq!(failure("let x :="), ParseError::LetTooShort);
    assert_eq!(failure("let 1 := 2"), ParseError::LetNoName);
    assert_eq!(failure("let x + 2 3"), ParseError::LetNoDefine);
    let mut tok = vec![Token::LetRec];
    tok.extend(tokens("f 1"));
    assert_eq!(parse_commands(&tok).unwrap_err(), ParseError::LetRecNoDefine);
    tok.extend(tokens(":="));
    assert_eq!(parse_commands(&tok).unwrap_err(), ParseError::Empty);
    assert_eq!(failure("a + ) * ("), ParseError::NotSingleLiteral);
    // what closes a pair is not looked at
    assert_eq!(one("[2"), SyntaxNode::Series(vec![]));
    assert_eq!(one("(a + b]"), binary(name("a"), Operator::Add, name("b")));
}

#[test]
fn the_last_link_of_a_chain_is_read_first() {
    assert_eq!(failure("[1 2] + [a]"), ParseError::NotLiteral);
    assert_eq!(failure("[a] + [1 2]"), ParseError::NotSingleLiteral);
    assert_eq!(failure("[a] * [1 2] * ("), ParseError::NoClosingParen);
}

#[test]
fn levels_on_a_part_of_the_tokens() {
    let tok = tokens("x, a * b, [1, 2]");
    assert_eq!(
        parse_level(&tok, 2, 5, Level::Factor).unwrap(),
        binary(name("a"), Operator::Mul, name("b"))
    );
    assert_eq!(
        parse_chain(&tok, 2, 5, Level::Factor).unwrap(),
        binary(name("a"), Operator::Mul, name("b"))
    );
    assert_eq!(parse_level(&tok, 2, 5, Level::Expression).unwrap_err(), ParseError::NotLiteral);
    assert_eq!(parse_level(&tok, 2, 2, Level::ConstantLiteral).unwrap_err(), ParseError::NotSingleLiteral);
    assert_eq!(parse_level(&tok, 2, 2, Level::Summand).unwrap_err(), ParseError::Empty);
    let items = parse_list(&tok, 0, tok.len(), Level::Summand).unwrap();
    assert_eq!(items.len(), 3);
    assert_eq!(items[0], name("x"));
    assert_eq!(items[2], SyntaxNode::Series(vec![number("1"), number("2")]));
    assert_eq!(parse_command(&tok, 0, 1).unwrap(), name("x"));
    assert_eq!(parse_command(&tok, 0, 0).unwrap_err(), ParseError::Empty);
}

#[test]
fn equality_of_syntax_nodes() {
    assert!(same_node(&name("a"), &name("a")));
    assert!(!same_node(&name("a"), &name("b")));
    assert!(!same_node(&name("1"), &number("1")));
    assert!(!same_node(
        &binary(name("a"), Operator::Add, name("b")),
        &binary(name("a"), Operator::Sub, name("b"))
    ));
    assert!(SyntaxNode::Series(vec![number("1")]) != SyntaxNode::Series(vec![number("1"), number("1")]));
    assert!(SyntaxNode::Paren(Box::new(name("a"))) == SyntaxNode::Paren(Box::new(name("a"))));
}

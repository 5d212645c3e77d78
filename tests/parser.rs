use ts_parser::ast::{
    build_ast, parse_const_ast, parse_if_statement_ast, BinaryOperator, Expected, Expression,
    ParseError, Statement, VariableDeclaration,
};
use ts_parser::tokenizer::{LexError, Token, Tokenizer};

fn ident(name: &str) -> Expression {
    Expression::Identifier(name.as_bytes().to_vec())
}

fn num(n: i32) -> Expression {
    Expression::NumberLiteral(n)
}

fn bin(left: Expression, operator: BinaryOperator, right: Expression) -> Expression {
    Expression::BinaryOp { left: Box::new(left), operator, right: Box::new(right) }
}

fn eq(left: Expression, right: Expression, strict: bool) -> Expression {
    Expression::Equality { left: Box::new(left), right: Box::new(right), strict }
}

fn var(name: &str, value: Expression) -> Statement {
    Statement::VariableStatement {
        declarations: vec![VariableDeclaration { identifier: name.as_bytes().to_vec(), value }],
    }
}

fn parse(input: &str) -> Result<Vec<Statement>, ParseError> {
    build_ast(input.to_string()).map(|ast| ast.root.statements)
}

fn value_of(input: &str) -> Expression {
    match parse(input).expect("input should parse").remove(0) {
        Statement::VariableStatement { mut declarations } => declarations.remove(0).value,
        other => panic!("not a declaration: {:?}", other),
    }
}

#[test]
fn whitespace_only_input_has_no_statements() {
    for input in ["", "   ", "\n\t \r\n"] {
        assert_eq!(parse(input), Ok(vec![]));
    }
}

#[test]
fn parse_const_declaration() {
    assert_eq!(parse("const x = 1;"), Ok(vec![var("x", num(1))]));
}

#[test]
fn parse_if_statement_with_strict_equality() {
    assert_eq!(
        parse("if (x === 1) { const y = 2; }"),
        Ok(vec![Statement::IfStatement {
            condition: eq(ident("x"), num(1), true),
            body: vec![var("y", num(2))],
        }])
    );
}

#[test]
fn missing_expression_is_expected_token() {
    assert_eq!(
        parse("const x = ;"),
        Err(ParseError::ExpectedToken {
            expected: Expected::Expression,
            found: Token::Semicolon,
            offset: 10,
        })
    );
}

#[test]
fn unterminated_if_body_is_unexpected_end() {
    assert_eq!(parse("if (x) { "), Err(ParseError::UnexpectedEndOfInput));
}

#[test]
fn multiplication_binds_tighter_than_addition() {
    assert_eq!(
        value_of("const v = 1 + 2 * 3;"),
        bin(num(1), BinaryOperator::Add, bin(num(2), BinaryOperator::Multiply, num(3)))
    );
    assert_eq!(
        value_of("const v = 8 / 4 - 1;"),
        bin(bin(num(8), BinaryOperator::Divide, num(4)), BinaryOperator::Subtract, num(1))
    );
}

#[test]
fn operators_group_to_the_left() {
    assert_eq!(
        value_of("const v = 1 - 2 - 3;"),
        bin(bin(num(1), BinaryOperator::Subtract, num(2)), BinaryOperator::Subtract, num(3))
    );
    assert_eq!(
        value_of("const v = a == b === c;"),
        eq(eq(ident("a"), ident("b"), false), ident("c"), true)
    );
}

#[test]
fn parentheses_override_precedence() {
    assert_eq!(
        value_of("const v = (1 + 2) * 3;"),
        bin(bin(num(1), BinaryOperator::Add, num(2)), BinaryOperator::Multiply, num(3))
    );
}

#[test]
fn equality_binds_weakest() {
    assert_eq!(
        value_of("const v = a + 1 == 2 * b;"),
        eq(
            bin(ident("a"), BinaryOperator::Add, num(1)),
            bin(num(2), BinaryOperator::Multiply, ident("b")),
            false
        )
    );
}

#[test]
fn several_and_nested_statements() {
    assert_eq!(
        parse("const a = 1; if (a) { if (a == 1) { } const b = a; } const c = 3;"),
        Ok(vec![
            var("a", num(1)),
            Statement::IfStatement {
                condition: ident("a"),
                body: vec![
                    Statement::IfStatement { condition: eq(ident("a"), num(1), false), body: vec![] },
                    var("b", ident("a")),
                ],
            },
            var("c", num(3)),
        ])
    );
}

#[test]
fn statement_must_start_with_a_keyword() {
    assert_eq!(
        parse("x = 1;"),
        Err(ParseError::UnexpectedToken { found: Token::Identifier(b"x".to_vec()), offset: 0 })
    );
    assert_eq!(
        parse("const a = 1; }"),
        Err(ParseError::UnexpectedToken { found: Token::RightBrace, offset: 13 })
    );
    assert_eq!(
        parse("return 1;"),
        Err(ParseError::UnexpectedToken { found: Token::Return, offset: 0 })
    );
}

#[test]
fn declaration_errors_name_what_was_expected() {
    assert_eq!(
        parse("const 1 = 2;"),
        Err(ParseError::ExpectedToken {
            expected: Expected::Identifier,
            found: Token::Number(1),
            offset: 6,
        })
    );
    assert_eq!(
        parse("const x 1;"),
        Err(ParseError::ExpectedToken {
            expected: Expected::Equals,
            found: Token::Number(1),
            offset: 8,
        })
    );
    assert_eq!(
        parse("const x = 1 const"),
        Err(ParseError::ExpectedToken {
            expected: Expected::Semicolon,
            found: Token::Const,
            offset: 12,
        })
    );
    assert_eq!(parse("const x = 1"), Err(ParseError::UnexpectedEndOfInput));
    assert_eq!(parse("const"), Err(ParseError::UnexpectedEndOfInput));
}

#[test]
fn if_errors_name_what_was_expected() {
    assert_eq!(
        parse("if x"),
        Err(ParseError::ExpectedToken {
            expected: Expected::LeftParen,
            found: Token::Identifier(b"x".to_vec()),
            offset: 3,
        })
    );
    assert_eq!(
        parse("if (x { }"),
        Err(ParseError::ExpectedToken {
            expected: Expected::RightParen,
            found: Token::LeftBrace,
            offset: 6,
        })
    );
    assert_eq!(
        parse("if (x) const"),
        Err(ParseError::ExpectedToken {
            expected: Expected::LeftBrace,
            found: Token::Const,
            offset: 7,
        })
    );
    assert_eq!(
        parse("if (x) { 5 }"),
        Err(ParseError::ExpectedToken {
            expected: Expected::RightBrace,
            found: Token::Number(5),
            offset: 9,
        })
    );
    assert_eq!(parse("if (x"), Err(ParseError::UnexpectedEndOfInput));
    assert_eq!(parse("if (x) { const y = 1;"), Err(ParseError::UnexpectedEndOfInput));
}

#[test]
fn lex_errors_stop_the_parse() {
    assert_eq!(
        parse("const x = 1 @;"),
        Err(ParseError::Lex(LexError::UnexpectedCharacter(b'@', 12)))
    );
    assert_eq!(
        parse("const x = 3000000000;"),
        Err(ParseError::Lex(LexError::InvalidNumber))
    );
}

#[test]
fn parse_const_ast_reads_after_the_keyword() {
    let mut tokenizer = Tokenizer::new("const x = 2 * y; if");
    assert_eq!(tokenizer.consume_token(), Ok(Token::Const));
    assert_eq!(
        parse_const_ast(&mut tokenizer),
        Ok(var("x", bin(num(2), BinaryOperator::Multiply, ident("y"))))
    );
    assert_eq!(tokenizer.offset(), 16);
    assert_eq!(tokenizer.consume_token(), Ok(Token::If));
}

#[test]
fn parse_const_ast_error_leaves_the_tokenizer() {
    let mut tokenizer = Tokenizer::new("const = 1;");
    assert_eq!(tokenizer.consume_token(), Ok(Token::Const));
    assert_eq!(
        parse_const_ast(&mut tokenizer),
        Err(ParseError::ExpectedToken { expected: Expected::Identifier, found: Token::Equals, offset: 6 })
    );
    assert_eq!(tokenizer.offset(), 5);
}

#[test]
fn parse_if_statement_ast_reads_after_the_keyword() {
    let mut tokenizer = Tokenizer::new("if (a === 1) { const b = 2; } const");
    assert_eq!(tokenizer.consume_token(), Ok(Token::If));
    assert_eq!(
        parse_if_statement_ast(&mut tokenizer),
        Ok(Statement::IfStatement {
            condition: eq(ident("a"), num(1), true),
            body: vec![var("b", num(2))],
        })
    );
    assert_eq!(tokenizer.offset(), 29);
    assert_eq!(tokenizer.consume_token(), Ok(Token::Const));
}

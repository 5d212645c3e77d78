use ts_parser::tokenizer::{LexError, Token, Tokenizer};

fn tokens(input: &str) -> Vec<Token> {
    let mut tokenizer = Tokenizer::new(input);
    let mut out = Vec::new();
    loop {
        let token = tokenizer.consume_token().expect("input should lex");
        let done = token == Token::EndOfInput;
        out.push(token);
        if done {
            return out;
        }
    }
}

fn ident(name: &str) -> Token {
    Token::Identifier(name.as_bytes().to_vec())
}

#[test]
fn whitespace_only_input_is_one_end_of_input() {
    for input in ["", " ", "\t\n  \r\n", "\n\n\n"] {
        assert_eq!(tokens(input), vec![Token::EndOfInput]);
        let mut tokenizer = Tokenizer::new(input);
        assert_eq!(tokenizer.consume_token(), Ok(Token::EndOfInput));
        assert_eq!(tokenizer.offset(), input.len());
    }
}

#[test]
fn end_of_input_repeats() {
    let mut tokenizer = Tokenizer::new("x");
    assert_eq!(tokenizer.consume_token(), Ok(ident("x")));
    for _ in 0..3 {
        assert_eq!(tokenizer.consume_token(), Ok(Token::EndOfInput));
    }
}

#[test]
fn tokenize_const_declaration() {
    assert_eq!(
        tokens("const x = 1;"),
        vec![
            Token::Const,
            ident("x"),
            Token::Equals,
            Token::Number(1),
            Token::Semicolon,
            Token::EndOfInput
        ]
    );
}

#[test]
fn tokenizing_ignores_whitespace() {
    assert_eq!(tokens("const x=1;"), tokens("const x = 1 ;"));
    assert_eq!(tokens("  if(a===b){}  "), tokens("if ( a === b ) { }"));
}

#[test]
fn equals_signs_take_the_longest_match() {
    assert_eq!(
        tokens("= == === ==== ="),
        vec![
            Token::Equals,
            Token::DoubleEquals,
            Token::TripleEquals,
            Token::TripleEquals,
            Token::Equals,
            Token::Equals,
            Token::EndOfInput
        ]
    );
}

#[test]
fn punctuation_is_one_byte_each() {
    assert_eq!(
        tokens("{}();+-/*,.\""),
        vec![
            Token::LeftBrace,
            Token::RightBrace,
            Token::LeftParen,
            Token::RightParen,
            Token::Semicolon,
            Token::Plus,
            Token::Minus,
            Token::Slash,
            Token::Star,
            Token::Comma,
            Token::Dot,
            Token::DoubleQuote,
            Token::EndOfInput
        ]
    );
}

#[test]
fn keywords_are_case_sensitive() {
    assert_eq!(
        tokens("const if return function Const IF constant iff"),
        vec![
            Token::Const,
            Token::If,
            Token::Return,
            Token::Function,
            ident("Const"),
            ident("IF"),
            ident("constant"),
            ident("iff"),
            Token::EndOfInput
        ]
    );
}

#[test]
fn words_and_numbers_are_maximal_runs() {
    assert_eq!(
        tokens("abc123def 007 0"),
        vec![
            ident("abc"),
            Token::Number(123),
            ident("def"),
            Token::Number(7),
            Token::Number(0),
            Token::EndOfInput
        ]
    );
}

#[test]
fn largest_number_fits() {
    assert_eq!(tokens("2147483647"), vec![Token::Number(2147483647), Token::EndOfInput]);
}

#[test]
fn number_overflow_is_invalid() {
    let mut tokenizer = Tokenizer::new("  2147483648");
    assert_eq!(tokenizer.consume_token(), Err(LexError::InvalidNumber));
    assert_eq!(tokenizer.offset(), 0);
    let mut tokenizer = Tokenizer::new("99999999999999999999999");
    assert_eq!(tokenizer.consume_token(), Err(LexError::InvalidNumber));
}

#[test]
fn unknown_byte_is_unexpected_character() {
    let mut tokenizer = Tokenizer::new("x @");
    assert_eq!(tokenizer.consume_token(), Ok(ident("x")));
    assert_eq!(tokenizer.consume_token(), Err(LexError::UnexpectedCharacter(b'@', 2)));
    assert_eq!(tokenizer.offset(), 1);
    let mut tokenizer = Tokenizer::new("é");
    assert_eq!(tokenizer.consume_token(), Err(LexError::UnexpectedCharacter(0xC3, 0)));
}

#[test]
fn peek_does_not_consume() {
    let mut tokenizer = Tokenizer::new("  if (");
    assert_eq!(tokenizer.peek_token(), Ok((Token::If, 2, 4)));
    assert_eq!(tokenizer.offset(), 0);
    assert_eq!(tokenizer.consume_token(), Ok(Token::If));
    assert_eq!(tokenizer.offset(), 4);
    assert_eq!(tokenizer.peek_token(), Ok((Token::LeftParen, 5, 6)));
}

#[test]
fn relexing_each_span_reconstructs_the_input() {
    let input = "  const answer = (40 + 2) * 1;\n if (answer === 42) { const ok = 1; }\t";
    let mut tokenizer = Tokenizer::new(input);
    let mut rebuilt = String::new();
    loop {
        let from = tokenizer.offset();
        let token = tokenizer.consume_token().expect("input should lex");
        let to = tokenizer.offset();
        let piece = &input[from..to];
        rebuilt.push_str(piece);
        let mut again = Tokenizer::new(piece);
        assert_eq!(again.consume_token().as_ref(), Ok(&token));
        assert_eq!(again.offset(), piece.len());
        if token == Token::EndOfInput {
            break;
        }
    }
    assert_eq!(rebuilt, input);
}

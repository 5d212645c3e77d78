//! The syntax tree and the recursive-descent parser that builds it.

use vstd::prelude::*;
use vstd::utf8::encode_utf8;
use crate::tokenizer::{
    LexError, Token, TokenView, Tokenizer, is_whitespace, lex_at, lex_span, lemma_lex_at_bounds,
    lemma_whitespace_is_end_of_input,
};

verus! {

#[derive(Debug, Clone, Copy, PartialEq, Eq, Structural)]
pub enum BinaryOperator {
    Add,
    Subtract,
    Multiply,
    Divide,
}

#[derive(Debug, PartialEq, Eq)]
pub enum Expression {
    NumberLiteral(i32),
    Identifier(Vec<u8>),
    BinaryOp { left: Box<Expression>, operator: BinaryOperator, right: Box<Expression> },
    /// `===` when `strict`, else `==`.
    Equality { left: Box<Expression>, right: Box<Expression>, strict: bool },
}

pub enum ExpressionView {
    NumberLiteral(i32),
    Identifier(Seq<u8>),
    BinaryOp { left: Box<ExpressionView>, operator: BinaryOperator, right: Box<ExpressionView> },
    Equality { left: Box<ExpressionView>, right: Box<ExpressionView>, strict: bool },
}

impl View for Expression {
    type V = ExpressionView;

    open spec fn view(&self) -> ExpressionView
        decreases self,
    {
        match self {
            Expression::NumberLiteral(n) => ExpressionView::NumberLiteral(*n),
            Expression::Identifier(w) => ExpressionView::Identifier(w@),
            Expression::BinaryOp { left, operator, right } => ExpressionView::BinaryOp {
                left: Box::new((**left).view()),
                operator: *operator,
                right: Box::new((**right).view()),
            },
            Expression::Equality { left, right, strict } => ExpressionView::Equality {
                left: Box::new((**left).view()),
                right: Box::new((**right).view()),
                strict: *strict,
            },
        }
    }
}

/// One `name = value` of a `const` statement.
#[derive(Debug, PartialEq, Eq)]
pub struct VariableDeclaration {
    pub identifier: Vec<u8>,
    pub value: Expression,
}

pub struct DeclarationView {
    pub identifier: Seq<u8>,
    pub value: ExpressionView,
}

impl View for VariableDeclaration {
    type V = DeclarationView;

    open spec fn view(&self) -> DeclarationView {
        DeclarationView { identifier: self.identifier@, value: self.value@ }
    }
}

#[derive(Debug, PartialEq, Eq)]
pub enum Statement {
    VariableStatement { declarations: Vec<VariableDeclaration> },
    IfStatement { condition: Expression, body: Vec<Statement> },
}

pub enum StatementView {
    VariableStatement { declarations: Seq<DeclarationView> },
    IfStatement { condition: ExpressionView, body: Seq<StatementView> },
}

impl View for Statement {
    type V = StatementView;

    open spec fn view(&self) -> StatementView {
        statement_view(*self)
    }
}

pub open spec fn statement_view(st: Statement) -> StatementView
    decreases st, 0nat,
{
    match st {
        Statement::VariableStatement { declarations } => StatementView::VariableStatement {
            declarations: declarations@.map_values(|d: VariableDeclaration| d@),
        },
        Statement::IfStatement { condition, body } => StatementView::IfStatement {
            condition: condition@,
            body: body_view(body, body@.len()),
        },
    }
}

/// The views of the first `n` statements of a body.
pub open spec fn body_view(body: Vec<Statement>, n: nat) -> Seq<StatementView>
    decreases body, n,
{
    if n == 0 || n > body@.len() {
        seq![]
    } else {
        proof {
            vstd::std_specs::vec::axiom_vec_index_decreases(body, n - 1);
        }
        body_view(body, (n - 1) as nat).push(statement_view(body@[n - 1]))
    }
}

pub proof fn lemma_body_view(body: Vec<Statement>, n: nat)
    requires
        n <= body@.len(),
    ensures
        body_view(body, n) == statements_view(body@.take(n as int)),
    decreases n,
{
    if n > 0 {
        lemma_body_view(body, (n - 1) as nat);
        assert(statements_view(body@.take(n as int)) =~= statements_view(
            body@.take(n - 1),
        ).push(statement_view(body@[n - 1])));
    } else {
        assert(statements_view(body@.take(0)) =~= seq![]);
    }
}

/// The views of a sequence of statements.
pub open spec fn statements_view(v: Seq<Statement>) -> Seq<StatementView> {
    v.map_values(|st: Statement| st@)
}

#[derive(Debug, PartialEq, Eq)]
pub struct ASTRootNode {
    pub statements: Vec<Statement>,
}

/// The tree of one whole input: its top-level statements in order.
#[derive(Debug, PartialEq, Eq)]
pub struct AST {
    pub root: ASTRootNode,
}

impl View for AST {
    type V = Seq<StatementView>;

    open spec fn view(&self) -> Seq<StatementView> {
        statements_view(self.root.statements@)
    }
}

/// What the parser was looking for when it met another token.
#[derive(Debug, Clone, Copy, PartialEq, Eq, Structural)]
pub enum Expected {
    Identifier,
    Equals,
    Expression,
    Semicolon,
    LeftParen,
    RightParen,
    LeftBrace,
    RightBrace,
}

#[derive(Debug, PartialEq, Eq)]
pub enum ParseError {
    /// A token other than the one the grammar asks for, with its start offset.
    ExpectedToken { expected: Expected, found: Token, offset: usize },
    /// The input ended inside a construct.
    UnexpectedEndOfInput,
    /// A token that cannot start a statement, with its start offset.
    UnexpectedToken { found: Token, offset: usize },
    /// The input could not be split into tokens.
    Lex(LexError),
}

pub enum ParseErrorView {
    ExpectedToken { expected: Expected, found: TokenView, offset: nat },
    UnexpectedEndOfInput,
    UnexpectedToken { found: TokenView, offset: nat },
    Lex(LexError),
}

impl View for ParseError {
    type V = ParseErrorView;

    open spec fn view(&self) -> ParseErrorView {
        match self {
            ParseError::ExpectedToken { expected, found, offset } => ParseErrorView::ExpectedToken {
                expected: *expected,
                found: found@,
                offset: *offset as nat,
            },
            ParseError::UnexpectedEndOfInput => ParseErrorView::UnexpectedEndOfInput,
            ParseError::UnexpectedToken { found, offset } => ParseErrorView::UnexpectedToken {
                found: found@,
                offset: *offset as nat,
            },
            ParseError::Lex(e) => ParseErrorView::Lex(*e),
        }
    }
}

// The grammar, as spec functions over the input bytes. Each rule reads from a
// position and gives the tree it built with the number of bytes it consumed.

/// How much of `s` lies at or after `pos`; every rule that recurses consumes some of it.
pub open spec fn remaining(s: Seq<u8>, pos: nat) -> nat {
    if pos < s.len() {
        (s.len() - pos) as nat
    } else {
        0
    }
}

/// The error for `found` where `expected` was due: running out of input is its own error.
pub open spec fn mismatch(expected: Expected, found: TokenView, offset: nat) -> ParseErrorView {
    if found is EndOfInput {
        ParseErrorView::UnexpectedEndOfInput
    } else {
        ParseErrorView::ExpectedToken { expected, found, offset }
    }
}

/// The punctuation token that meets an expectation. Only the punctuation expectations are
/// checked this way: an identifier or an expression is not a single fixed token.
pub open spec fn punctuation_of(e: Expected) -> TokenView {
    match e {
        Expected::Equals => TokenView::Equals,
        Expected::Semicolon => TokenView::Semicolon,
        Expected::LeftParen => TokenView::LeftParen,
        Expected::RightParen => TokenView::RightParen,
        Expected::LeftBrace => TokenView::LeftBrace,
        _ => TokenView::RightBrace,
    }
}

/// Reads the token at `pos`, which must be the punctuation `e` asks for; gives its end.
pub open spec fn expect_at(s: Seq<u8>, pos: nat, e: Expected) -> Result<nat, ParseErrorView> {
    match lex_at(s, pos) {
        Err(le) => Err(ParseErrorView::Lex(le)),
        Ok((t, start, end)) => if t == punctuation_of(e) {
            Ok(end)
        } else {
            Err(mismatch(e, t, start))
        },
    }
}

/// The number of bytes from offset `from` up to offset `to`.
pub open spec fn span(from: nat, to: nat) -> nat {
    (to - from) as nat
}

/// A number, an identifier, or an expression in parentheses.
pub open spec fn primary(s: Seq<u8>, pos: nat) -> Result<(ExpressionView, nat), ParseErrorView>
    decreases remaining(s, pos), 0nat,
{
    proof {
        lemma_lex_at_bounds(s, pos);
    }
    match lex_at(s, pos) {
        Err(le) => Err(ParseErrorView::Lex(le)),
        Ok((t, start, end)) => match t {
            TokenView::Number(n) => Ok((ExpressionView::NumberLiteral(n), span(pos, end))),
            TokenView::Identifier(w) => Ok((ExpressionView::Identifier(w), span(pos, end))),
            TokenView::LeftParen => match equality(s, end) {
                Err(e) => Err(e),
                Ok((inner, k)) => match expect_at(s, end + k, Expected::RightParen) {
                    Err(e) => Err(e),
                    Ok(close) => Ok((inner, span(pos, close))),
                },
            },
            _ => Err(mismatch(Expected::Expression, t, start)),
        },
    }
}

/// Primaries joined by `*` and `/`, grouped to the left.
pub open spec fn multiplicative(s: Seq<u8>, pos: nat) -> Result<(ExpressionView, nat), ParseErrorView>
    decreases remaining(s, pos), 1nat,
{
    match primary(s, pos) {
        Err(e) => Err(e),
        Ok((left, k)) => match multiplicative_rest(s, left, pos + k) {
            Err(e) => Err(e),
            Ok((x, k2)) => Ok((x, k + k2)),
        },
    }
}

/// Given `left` and the position after it, the operators `*` and `/` that follow.
pub open spec fn multiplicative_rest(s: Seq<u8>, left: ExpressionView, pos: nat) -> Result<
    (ExpressionView, nat),
    ParseErrorView,
>
    decreases remaining(s, pos), 0nat,
{
    proof {
        lemma_lex_at_bounds(s, pos);
    }
    match lex_at(s, pos) {
        Err(le) => Err(ParseErrorView::Lex(le)),
        Ok((t, _start, end)) => if t is Star || t is Slash {
            let operator = if t is Star {
                BinaryOperator::Multiply
            } else {
                BinaryOperator::Divide
            };
            match primary(s, end) {
                Err(e) => Err(e),
                Ok((right, k)) => {
                    let joined = ExpressionView::BinaryOp {
                        left: Box::new(left),
                        operator,
                        right: Box::new(right),
                    };
                    match multiplicative_rest(s, joined, end + k) {
                        Err(e) => Err(e),
                        Ok((x, k2)) => Ok((x, span(pos, end + k + k2))),
                    }
                },
            }
        } else {
            Ok((left, 0))
        },
    }
}

/// Products joined by `+` and `-`, grouped to the left.
pub open spec fn additive(s: Seq<u8>, pos: nat) -> Result<(ExpressionView, nat), ParseErrorView>
    decreases remaining(s, pos), 2nat,
{
    match multiplicative(s, pos) {
        Err(e) => Err(e),
        Ok((left, k)) => match additive_rest(s, left, pos + k) {
            Err(e) => Err(e),
            Ok((x, k2)) => Ok((x, k + k2)),
        },
    }
}

pub open spec fn additive_rest(s: Seq<u8>, left: ExpressionView, pos: nat) -> Result<
    (ExpressionView, nat),
    ParseErrorView,
>
    decreases remaining(s, pos), 0nat,
{
    proof {
        lemma_lex_at_bounds(s, pos);
    }
    match lex_at(s, pos) {
        Err(le) => Err(ParseErrorView::Lex(le)),
        Ok((t, _start, end)) => if t is Plus || t is Minus {
            let operator = if t is Plus {
                BinaryOperator::Add
            } else {
                BinaryOperator::Subtract
            };
            match multiplicative(s, end) {
                Err(e) => Err(e),
                Ok((right, k)) => {
                    let joined = ExpressionView::BinaryOp {
                        left: Box::new(left),
                        operator,
                        right: Box::new(right),
                    };
                    match additive_rest(s, joined, end + k) {
                        Err(e) => Err(e),
                        Ok((x, k2)) => Ok((x, span(pos, end + k + k2))),
                    }
                },
            }
        } else {
            Ok((left, 0))
        },
    }
}

/// A full expression: sums joined by `==` and `===`, grouped to the left.
pub open spec fn equality(s: Seq<u8>, pos: nat) -> Result<(ExpressionView, nat), ParseErrorView>
    decreases remaining(s, pos), 3nat,
{
    match additive(s, pos) {
        Err(e) => Err(e),
        Ok((left, k)) => match equality_rest(s, left, pos + k) {
            Err(e) => Err(e),
            Ok((x, k2)) => Ok((x, k + k2)),
        },
    }
}

pub open spec fn equality_rest(s: Seq<u8>, left: ExpressionView, pos: nat) -> Result<
    (ExpressionView, nat),
    ParseErrorView,
>
    decreases remaining(s, pos), 0nat,
{
    proof {
        lemma_lex_at_bounds(s, pos);
    }
    match lex_at(s, pos) {
        Err(le) => Err(ParseErrorView::Lex(le)),
        Ok((t, _start, end)) => if t is DoubleEquals || t is TripleEquals {
            match additive(s, end) {
                Err(e) => Err(e),
                Ok((right, k)) => {
                    let joined = ExpressionView::Equality {
                        left: Box::new(left),
                        right: Box::new(right),
                        strict: t is TripleEquals,
                    };
                    match equality_rest(s, joined, end + k) {
                        Err(e) => Err(e),
                        Ok((x, k2)) => Ok((x, span(pos, end + k + k2))),
                    }
                },
            }
        } else {
            Ok((left, 0))
        },
    }
}

/// What follows `const`: a name, `=`, an expression and `;`.
pub open spec fn variable_statement(s: Seq<u8>, pos: nat) -> Result<
    (StatementView, nat),
    ParseErrorView,
> {
    match lex_at(s, pos) {
        Err(le) => Err(ParseErrorView::Lex(le)),
        Ok((t, start, end)) => match t {
            TokenView::Identifier(name) => match expect_at(s, end, Expected::Equals) {
                Err(e) => Err(e),
                Ok(p) => match equality(s, p) {
                    Err(e) => Err(e),
                    Ok((value, k)) => match expect_at(s, p + k, Expected::Semicolon) {
                        Err(e) => Err(e),
                        Ok(q) => Ok(
                            (
                                StatementView::VariableStatement {
                                    declarations: seq![DeclarationView { identifier: name, value }],
                                },
                                span(pos, q),
                            ),
                        ),
                    },
                },
            },
            _ => Err(mismatch(Expected::Identifier, t, start)),
        },
    }
}

/// Input made only of whitespace holds exactly one token, `EndOfInput`, and parses to
/// a tree with no statements.
pub proof fn lemma_whitespace_parses_empty(s: Seq<u8>)
    requires
        forall|k: int| 0 <= k < s.len() ==> is_whitespace(#[trigger] s[k]),
    ensures
        lex_at(s, 0) == Ok::<(TokenView, nat, nat), LexError>((TokenView::EndOfInput, s.len(), s.len())),
        lex_at(s, s.len()) == Ok::<(TokenView, nat, nat), LexError>(
            (TokenView::EndOfInput, s.len(), s.len()),
        ),
        parse_program(s) == Ok::<Seq<StatementView>, ParseErrorView>(Seq::empty()),
{
    lemma_whitespace_is_end_of_input(s);
}

pub proof fn lemma_expect_at_advances(s: Seq<u8>, pos: nat, e: Expected)
    ensures
        expect_at(s, pos, e) matches Ok(p) ==> pos < p <= s.len(),
{
    lemma_lex_at_bounds(s, pos);
}

/// What follows `if`: a condition in parentheses and a body in braces.
pub open spec fn if_statement(s: Seq<u8>, pos: nat) -> Result<(StatementView, nat), ParseErrorView>
    decreases remaining(s, pos), 1nat,
{
    proof {
        lemma_expect_at_advances(s, pos, Expected::LeftParen);
    }
    match expect_at(s, pos, Expected::LeftParen) {
        Err(e) => Err(e),
        Ok(p1) => match equality(s, p1) {
            Err(e) => Err(e),
            Ok((condition, k)) => match expect_at(s, p1 + k, Expected::RightParen) {
                Err(e) => Err(e),
                Ok(p2) => match expect_at(s, p2, Expected::LeftBrace) {
                    Err(e) => Err(e),
                    Ok(p3) => {
                        proof {
                            lemma_expect_at_advances(s, p1 + k, Expected::RightParen);
                            lemma_expect_at_advances(s, p2, Expected::LeftBrace);
                        }
                        match statement_list(s, p3, true) {
                            Err(e) => Err(e),
                            Ok((body, k2)) => Ok(
                                (StatementView::IfStatement { condition, body }, span(pos, p3 + k2)),
                            ),
                        }
                    },
                },
            },
        },
    }
}

/// Statements up to the end of the input, or, in a body, up to and including `}`.
pub open spec fn statement_list(s: Seq<u8>, pos: nat, in_body: bool) -> Result<
    (Seq<StatementView>, nat),
    ParseErrorView,
>
    decreases remaining(s, pos), 0nat,
{
    proof {
        lemma_lex_at_bounds(s, pos);
    }
    match lex_at(s, pos) {
        Err(le) => Err(ParseErrorView::Lex(le)),
        Ok((t, start, end)) => if t is EndOfInput {
            if in_body {
                Err(ParseErrorView::UnexpectedEndOfInput)
            } else {
                Ok((seq![], span(pos, end)))
            }
        } else if in_body && t is RightBrace {
            Ok((seq![], span(pos, end)))
        } else if t is Const || t is If {
            let first = if t is Const {
                variable_statement(s, end)
            } else {
                if_statement(s, end)
            };
            match first {
                Err(e) => Err(e),
                Ok((st, k)) => match statement_list(s, end + k, in_body) {
                    Err(e) => Err(e),
                    Ok((rest, k2)) => Ok((seq![st] + rest, span(pos, end + k + k2))),
                },
            }
        } else if in_body {
            Err(ParseErrorView::ExpectedToken { expected: Expected::RightBrace, found: t, offset: start })
        } else {
            Err(ParseErrorView::UnexpectedToken { found: t, offset: start })
        },
    }
}

/// The statements of a whole input.
pub open spec fn parse_program(s: Seq<u8>) -> Result<Seq<StatementView>, ParseErrorView> {
    match statement_list(s, 0, false) {
        Ok((statements, _)) => Ok(statements),
        Err(e) => Err(e),
    }
}

/// How an executable parse from `pos` relates to a rule's result: the same tree, ending
/// where the rule's consumed bytes end, or the same error.
pub open spec fn parsed_as<T: View>(
    r: Result<(T, usize), ParseError>,
    pos: usize,
    m: Result<(T::V, nat), ParseErrorView>,
) -> bool {
    match (r, m) {
        (Ok((x, p)), Ok((v, k))) => x@ == v && p == pos + k,
        (Err(e), Err(f)) => e@ == f,
        _ => false,
    }
}

fn mismatch_error(expected: Expected, found: Token, offset: usize) -> (r: ParseError)
    ensures
        r@ == mismatch(expected, found@, offset as nat),
{
    match found {
        Token::EndOfInput => ParseError::UnexpectedEndOfInput,
        _ => ParseError::ExpectedToken { expected, found, offset },
    }
}

fn is_punctuation_of(t: &Token, e: Expected) -> (r: bool)
    ensures
        r == (t@ == punctuation_of(e)),
{
    match e {
        Expected::Equals => match t {
            Token::Equals => true,
            _ => false,
        },
        Expected::Semicolon => match t {
            Token::Semicolon => true,
            _ => false,
        },
        Expected::LeftParen => match t {
            Token::LeftParen => true,
            _ => false,
        },
        Expected::RightParen => match t {
            Token::RightParen => true,
            _ => false,
        },
        Expected::LeftBrace => match t {
            Token::LeftBrace => true,
            _ => false,
        },
        _ => match t {
            Token::RightBrace => true,
            _ => false,
        },
    }
}

fn expect(s: &Vec<u8>, pos: usize, e: Expected) -> (r: Result<usize, ParseError>)
    requires
        pos <= s@.len(),
    ensures
        match (r, expect_at(s@, pos as nat, e)) {
            (Ok(p), Ok(q)) => p == q && pos < p <= s@.len(),
            (Err(x), Err(y)) => x@ == y,
            _ => false,
        },
{
    proof {
        lemma_expect_at_advances(s@, pos as nat, e);
    }
    match lex_span(s, pos) {
        Err(le) => Err(ParseError::Lex(le)),
        Ok((t, start, end)) => if is_punctuation_of(&t, e) {
            Ok(end)
        } else {
            Err(mismatch_error(e, t, start))
        },
    }
}

fn parse_primary(s: &Vec<u8>, pos: usize) -> (r: Result<(Expression, usize), ParseError>)
    requires
        pos <= s@.len(),
    ensures
        parsed_as(r, pos, primary(s@, pos as nat)),
        r matches Ok((_, p)) ==> p <= s@.len(),
    decreases remaining(s@, pos as nat), 0nat,
{
    proof {
        lemma_lex_at_bounds(s@, pos as nat);
    }
    match lex_span(s, pos) {
        Err(le) => Err(ParseError::Lex(le)),
        Ok((t, start, end)) => match t {
            Token::Number(n) => Ok((Expression::NumberLiteral(n), end)),
            Token::Identifier(w) => Ok((Expression::Identifier(w), end)),
            Token::LeftParen => match parse_equality(s, end) {
                Err(e) => Err(e),
                Ok((inner, p)) => match expect(s, p, Expected::RightParen) {
                    Err(e) => Err(e),
                    Ok(close) => Ok((inner, close)),
                },
            },
            other => Err(mismatch_error(Expected::Expression, other, start)),
        },
    }
}

fn parse_multiplicative(s: &Vec<u8>, pos: usize) -> (r: Result<(Expression, usize), ParseError>)
    requires
        pos <= s@.len(),
    ensures
        parsed_as(r, pos, multiplicative(s@, pos as nat)),
        r matches Ok((_, p)) ==> p <= s@.len(),
    decreases remaining(s@, pos as nat), 1nat,
{
    match parse_primary(s, pos) {
        Err(e) => Err(e),
        Ok((left, p)) => parse_multiplicative_rest(s, left, p),
    }
}

fn parse_multiplicative_rest(s: &Vec<u8>, left: Expression, pos: usize) -> (r: Result<
    (Expression, usize),
    ParseError,
>)
    requires
        pos <= s@.len(),
    ensures
        parsed_as(r, pos, multiplicative_rest(s@, left@, pos as nat)),
        r matches Ok((_, p)) ==> p <= s@.len(),
    decreases remaining(s@, pos as nat), 0nat,
{
    proof {
        lemma_lex_at_bounds(s@, pos as nat);
    }
    match lex_span(s, pos) {
        Err(le) => Err(ParseError::Lex(le)),
        Ok((t, _start, end)) => {
            let operator = match t {
                Token::Star => BinaryOperator::Multiply,
                Token::Slash => BinaryOperator::Divide,
                _ => {
                    return Ok((left, pos));
                },
            };
            match parse_primary(s, end) {
                Err(e) => Err(e),
                Ok((right, p)) => {
                    let joined = Expression::BinaryOp {
                        left: Box::new(left),
                        operator,
                        right: Box::new(right),
                    };
                    parse_multiplicative_rest(s, joined, p)
                },
            }
        },
    }
}

fn parse_additive(s: &Vec<u8>, pos: usize) -> (r: Result<(Expression, usize), ParseError>)
    requires
        pos <= s@.len(),
    ensures
        parsed_as(r, pos, additive(s@, pos as nat)),
        r matches Ok((_, p)) ==> p <= s@.len(),
    decreases remaining(s@, pos as nat), 2nat,
{
    match parse_multiplicative(s, pos) {
        Err(e) => Err(e),
        Ok((left, p)) => parse_additive_rest(s, left, p),
    }
}

fn parse_additive_rest(s: &Vec<u8>, left: Expression, pos: usize) -> (r: Result<
    (Expression, usize),
    ParseError,
>)
    requires
        pos <= s@.len(),
    ensures
        parsed_as(r, pos, additive_rest(s@, left@, pos as nat)),
        r matches Ok((_, p)) ==> p <= s@.len(),
    decreases remaining(s@, pos as nat), 0nat,
{
    proof {
        lemma_lex_at_bounds(s@, pos as nat);
    }
    match lex_span(s, pos) {
        Err(le) => Err(ParseError::Lex(le)),
        Ok((t, _start, end)) => {
            let operator = match t {
                Token::Plus => BinaryOperator::Add,
                Token::Minus => BinaryOperator::Subtract,
                _ => {
                    return Ok((left, pos));
                },
            };
            match parse_multiplicative(s, end) {
                Err(e) => Err(e),
                Ok((right, p)) => {
                    let joined = Expression::BinaryOp {
                        left: Box::new(left),
                        operator,
                        right: Box::new(right),
                    };
                    parse_additive_rest(s, joined, p)
                },
            }
        },
    }
}

fn parse_equality(s: &Vec<u8>, pos: usize) -> (r: Result<(Expression, usize), ParseError>)
    requires
        pos <= s@.len(),
    ensures
        parsed_as(r, pos, equality(s@, pos as nat)),
        r matches Ok((_, p)) ==> p <= s@.len(),
    decreases remaining(s@, pos as nat), 3nat,
{
    match parse_additive(s, pos) {
        Err(e) => Err(e),
        Ok((left, p)) => parse_equality_rest(s, left, p),
    }
}

fn parse_equality_rest(s: &Vec<u8>, left: Expression, pos: usize) -> (r: Result<
    (Expression, usize),
    ParseError,
>)
    requires
        pos <= s@.len(),
    ensures
        parsed_as(r, pos, equality_rest(s@, left@, pos as nat)),
        r matches Ok((_, p)) ==> p <= s@.len(),
    decreases remaining(s@, pos as nat), 0nat,
{
    proof {
        lemma_lex_at_bounds(s@, pos as nat);
    }
    match lex_span(s, pos) {
        Err(le) => Err(ParseError::Lex(le)),
        Ok((t, _start, end)) => {
            let strict = match t {
                Token::TripleEquals => true,
                Token::DoubleEquals => false,
                _ => {
                    return Ok((left, pos));
                },
            };
            match parse_additive(s, end) {
                Err(e) => Err(e),
                Ok((right, p)) => {
                    let joined = Expression::Equality {
                        left: Box::new(left),
                        right: Box::new(right),
                        strict,
                    };
                    parse_equality_rest(s, joined, p)
                },
            }
        },
    }
}

fn parse_variable_statement(s: &Vec<u8>, pos: usize) -> (r: Result<(Statement, usize), ParseError>)
    requires
        pos <= s@.len(),
    ensures
        parsed_as(r, pos, variable_statement(s@, pos as nat)),
        r matches Ok((_, p)) ==> p <= s@.len(),
{
    proof {
        lemma_lex_at_bounds(s@, pos as nat);
    }
    match lex_span(s, pos) {
        Err(le) => Err(ParseError::Lex(le)),
        Ok((t, start, end)) => match t {
            Token::Identifier(identifier) => match expect(s, end, Expected::Equals) {
                Err(e) => Err(e),
                Ok(p) => match parse_equality(s, p) {
                    Err(e) => Err(e),
                    Ok((value, q)) => match expect(s, q, Expected::Semicolon) {
                        Err(e) => Err(e),
                        Ok(after) => {
                            let declarations = vec![VariableDeclaration { identifier, value }];
                            let st = Statement::VariableStatement { declarations };
                            proof {
                                assert(declarations@.map_values(|d: VariableDeclaration| d@)
                                    =~= seq![declarations@[0]@]);
                            }
                            Ok((st, after))
                        },
                    },
                },
            },
            other => Err(mismatch_error(Expected::Identifier, other, start)),
        },
    }
}

fn parse_if_statement(s: &Vec<u8>, pos: usize) -> (r: Result<(Statement, usize), ParseError>)
    requires
        pos <= s@.len(),
    ensures
        parsed_as(r, pos, if_statement(s@, pos as nat)),
        r matches Ok((_, p)) ==> p <= s@.len(),
    decreases remaining(s@, pos as nat), 1nat,
{
    match expect(s, pos, Expected::LeftParen) {
        Err(e) => Err(e),
        Ok(p1) => match parse_equality(s, p1) {
            Err(e) => Err(e),
            Ok((condition, q)) => match expect(s, q, Expected::RightParen) {
                Err(e) => Err(e),
                Ok(p2) => match expect(s, p2, Expected::LeftBrace) {
                    Err(e) => Err(e),
                    Ok(p3) => {
                        let mut body: Vec<Statement> = Vec::new();
                        match parse_statements_into(s, p3, true, &mut body) {
                            Err(e) => Err(e),
                            Ok(after) => {
                                let st = Statement::IfStatement { condition, body };
                                proof {
                                    lemma_body_view(body, body@.len());
                                    assert(body@.take(body@.len() as int) =~= body@);
                                }
                                Ok((st, after))
                            },
                        }
                    },
                },
            },
        },
    }
}

/// Parses the statement that follows a `const` or an `if` keyword.
fn parse_statement(s: &Vec<u8>, pos: usize, is_if: bool) -> (r: Result<(Statement, usize), ParseError>)
    requires
        pos <= s@.len(),
    ensures
        parsed_as(
            r,
            pos,
            if is_if {
                if_statement(s@, pos as nat)
            } else {
                variable_statement(s@, pos as nat)
            },
        ),
        r matches Ok((_, p)) ==> p <= s@.len(),
    decreases remaining(s@, pos as nat), 2nat,
{
    if is_if {
        parse_if_statement(s, pos)
    } else {
        parse_variable_statement(s, pos)
    }
}

proof fn lemma_statements_view_push(v: Seq<Statement>, st: Statement, list: Seq<StatementView>)
    ensures
        statements_view(v.push(st)) + list == statements_view(v) + (seq![st@] + list),
{
    assert(statements_view(v.push(st)) =~= statements_view(v).push(st@));
    assert(statements_view(v).push(st@) + list =~= statements_view(v) + (seq![st@] + list));
}

/// Parses a statement list from `pos` and appends its statements to `out`; gives the end.
#[verifier::rlimit(40)]
fn parse_statements_into(s: &Vec<u8>, pos: usize, in_body: bool, out: &mut Vec<Statement>) -> (r:
    Result<usize, ParseError>)
    requires
        pos <= s@.len(),
    ensures
        match (r, statement_list(s@, pos as nat, in_body)) {
            (Ok(p), Ok((list, k))) => {
                &&& p == pos + k
                &&& p <= s@.len()
                &&& statements_view(final(out)@) == statements_view(old(out)@) + list
            },
            (Err(e), Err(f)) => e@ == f,
            _ => false,
        },
    decreases remaining(s@, pos as nat), 0nat,
{
    proof {
        lemma_lex_at_bounds(s@, pos as nat);
    }
    match lex_span(s, pos) {
        Err(le) => Err(ParseError::Lex(le)),
        Ok((t, start, end)) => {
            let is_if = match t {
                Token::EndOfInput => {
                    if in_body {
                        return Err(ParseError::UnexpectedEndOfInput);
                    }
                    assert(statements_view(out@) + seq![] =~= statements_view(out@));
                    return Ok(end);
                },
                Token::RightBrace => {
                    if in_body {
                        assert(statements_view(out@) + seq![] =~= statements_view(out@));
                        return Ok(end);
                    }
                    return Err(ParseError::UnexpectedToken { found: t, offset: start });
                },
                Token::Const => false,
                Token::If => true,
                other => {
                    if in_body {
                        return Err(
                            ParseError::ExpectedToken {
                                expected: Expected::RightBrace,
                                found: other,
                                offset: start,
                            },
                        );
                    }
                    return Err(ParseError::UnexpectedToken { found: other, offset: start });
                },
            };
            match parse_statement(s, end, is_if) {
                Err(e) => Err(e),
                Ok((st, p)) => {
                    let ghost before = out@;
                    let ghost first = st;
                    out.push(st);
                    let r = parse_statements_into(s, p, in_body, out);
                    proof {
                        if r is Ok {
                            let list = statement_list(s@, p as nat, in_body)->Ok_0.0;
                            lemma_statements_view_push(before, first, list);
                        }
                    }
                    r
                },
            }
        },
    }
}

/// How a parse that starts at a tokenizer's offset relates to a rule's result: the same
/// tree, with the tokenizer moved past exactly the bytes the rule consumed, or the same
/// error, with the tokenizer where it was.
pub open spec fn advanced_as<T: View>(
    r: Result<T, ParseError>,
    before: crate::tokenizer::TokenizerView,
    after: crate::tokenizer::TokenizerView,
    m: Result<(T::V, nat), ParseErrorView>,
) -> bool {
    &&& after.input == before.input
    &&& match (r, m) {
        (Ok(x), Ok((v, k))) => x@ == v && after.pos == before.pos + k,
        (Err(e), Err(f)) => e@ == f && after.pos == before.pos,
        _ => false,
    }
}

/// Parses what follows a `const` keyword that `tokenizer` has just read:
/// `name = expression ;`.
pub fn parse_const_ast(tokenizer: &mut Tokenizer) -> (r: Result<Statement, ParseError>)
    requires
        old(tokenizer).wf(),
    ensures
        final(tokenizer).wf(),
        advanced_as(
            r,
            old(tokenizer)@,
            final(tokenizer)@,
            variable_statement(old(tokenizer)@.input, old(tokenizer)@.pos),
        ),
{
    match parse_variable_statement(tokenizer.source(), tokenizer.offset()) {
        Ok((st, p)) => {
            tokenizer.advance_to(p);
            Ok(st)
        },
        Err(e) => Err(e),
    }
}

/// Parses what follows an `if` keyword that `tokenizer` has just read:
/// `( expression ) { statements }`.
pub fn parse_if_statement_ast(tokenizer: &mut Tokenizer) -> (r: Result<Statement, ParseError>)
    requires
        old(tokenizer).wf(),
    ensures
        final(tokenizer).wf(),
        advanced_as(
            r,
            old(tokenizer)@,
            final(tokenizer)@,
            if_statement(old(tokenizer)@.input, old(tokenizer)@.pos),
        ),
{
    match parse_if_statement(tokenizer.source(), tokenizer.offset()) {
        Ok((st, p)) => {
            tokenizer.advance_to(p);
            Ok(st)
        },
        Err(e) => Err(e),
    }
}

/// Parses a whole input into its tree, or gives the first error met.
pub fn build_ast(input: String) -> (r: Result<AST, ParseError>)
    ensures
        match (r, parse_program(encode_utf8(input@))) {
            (Ok(ast), Ok(statements)) => ast@ == statements,
            (Err(e), Err(f)) => e@ == f,
            _ => false,
        },
{
    let tokenizer = Tokenizer::new(input.as_str());
    let mut statements: Vec<Statement> = Vec::new();
    match parse_statements_into(tokenizer.source(), 0, false, &mut statements) {
        Ok(_) => {
            assert(statements_view(Seq::<Statement>::empty()) =~= seq![]);
            Ok(AST { root: ASTRootNode { statements } })
        },
        Err(e) => Err(e),
    }
}

} // verus!

//! Lexing: turning source bytes into tokens, one token per call.

use vstd::prelude::*;
use vstd::slice::slice_to_vec;
use vstd::string::StringSliceAdditionalSpecFns;

verus! {

/// One lexical unit of the language.
#[derive(Debug, PartialEq, Eq)]
pub enum Token {
    Const,
    If,
    Return,
    Function,
    Equals,
    DoubleEquals,
    TripleEquals,
    Semicolon,
    LeftParen,
    RightParen,
    LeftBrace,
    RightBrace,
    Comma,
    Dot,
    Plus,
    Minus,
    Star,
    Slash,
    DoubleQuote,
    Identifier(Vec<u8>),
    Number(i32),
    EndOfInput,
}

/// The mathematical value of a token: identifiers carry their bytes as a sequence.
pub enum TokenView {
    Const,
    If,
    Return,
    Function,
    Equals,
    DoubleEquals,
    TripleEquals,
    Semicolon,
    LeftParen,
    RightParen,
    LeftBrace,
    RightBrace,
    Comma,
    Dot,
    Plus,
    Minus,
    Star,
    Slash,
    DoubleQuote,
    Identifier(Seq<u8>),
    Number(i32),
    EndOfInput,
}

impl View for Token {
    type V = TokenView;

    open spec fn view(&self) -> TokenView {
        match self {
            Token::Const => TokenView::Const,
            Token::If => TokenView::If,
            Token::Return => TokenView::Return,
            Token::Function => TokenView::Function,
            Token::Equals => TokenView::Equals,
            Token::DoubleEquals => TokenView::DoubleEquals,
            Token::TripleEquals => TokenView::TripleEquals,
            Token::Semicolon => TokenView::Semicolon,
            Token::LeftParen => TokenView::LeftParen,
            Token::RightParen => TokenView::RightParen,
            Token::LeftBrace => TokenView::LeftBrace,
            Token::RightBrace => TokenView::RightBrace,
            Token::Comma => TokenView::Comma,
            Token::Dot => TokenView::Dot,
            Token::Plus => TokenView::Plus,
            Token::Minus => TokenView::Minus,
            Token::Star => TokenView::Star,
            Token::Slash => TokenView::Slash,
            Token::DoubleQuote => TokenView::DoubleQuote,
            Token::Identifier(w) => TokenView::Identifier(w@),
            Token::Number(n) => TokenView::Number(*n),
            Token::EndOfInput => TokenView::EndOfInput,
        }
    }
}

/// Why a token could not be read.
#[derive(Debug, Clone, Copy, PartialEq, Eq, Structural)]
pub enum LexError {
    /// A run of digits whose value does not fit in an `i32`.
    InvalidNumber,
    /// A byte that starts no token, with its offset in the input.
    UnexpectedCharacter(u8, usize),
}

/// Space, tab, line feed, form feed and carriage return.
pub open spec fn is_whitespace(b: u8) -> bool {
    b == 0x20u8 || b == 0x09u8 || b == 0x0Au8 || b == 0x0Cu8 || b == 0x0Du8
}

pub open spec fn is_digit(b: u8) -> bool {
    0x30u8 <= b <= 0x39u8
}

pub open spec fn is_letter(b: u8) -> bool {
    (0x61u8 <= b <= 0x7Au8) || (0x41u8 <= b <= 0x5Au8)
}

/// The classes of bytes that form runs: the whitespace between tokens, and the bodies of
/// numbers and words.
pub enum ByteClass {
    Whitespace,
    Digit,
    Letter,
}

pub open spec fn in_class(class: ByteClass, b: u8) -> bool {
    match class {
        ByteClass::Whitespace => is_whitespace(b),
        ByteClass::Digit => is_digit(b),
        ByteClass::Letter => is_letter(b),
    }
}

/// End of the maximal run, starting at `i`, of bytes of `class`.
pub open spec fn run_end(s: Seq<u8>, i: nat, class: ByteClass) -> nat
    decreases s.len() - i,
{
    if i < s.len() && in_class(class, s[i as int]) {
        run_end(s, i + 1, class)
    } else {
        i
    }
}

pub open spec fn whitespace_end(s: Seq<u8>, i: nat) -> nat {
    run_end(s, i, ByteClass::Whitespace)
}

pub open spec fn digits_end(s: Seq<u8>, i: nat) -> nat {
    run_end(s, i, ByteClass::Digit)
}

pub open spec fn letters_end(s: Seq<u8>, i: nat) -> nat {
    run_end(s, i, ByteClass::Letter)
}

/// The base-10 value of a run of digits, most significant first.
pub open spec fn digits_value(d: Seq<u8>) -> nat
    decreases d.len(),
{
    if d.len() == 0 {
        0
    } else {
        digits_value(d.drop_last()) * 10 + (d.last() - 0x30u8) as nat
    }
}

/// The token of a byte that is a token by itself.
pub open spec fn punctuation(c: u8) -> Option<TokenView> {
    if c == 0x7Bu8 { // '{'
        Some(TokenView::LeftBrace)
    } else if c == 0x7Du8 { // '}'
        Some(TokenView::RightBrace)
    } else if c == 0x28u8 { // '('
        Some(TokenView::LeftParen)
    } else if c == 0x29u8 { // ')'
        Some(TokenView::RightParen)
    } else if c == 0x3Bu8 { // ';'
        Some(TokenView::Semicolon)
    } else if c == 0x2Bu8 { // '+'
        Some(TokenView::Plus)
    } else if c == 0x2Du8 { // '-'
        Some(TokenView::Minus)
    } else if c == 0x2Fu8 { // '/'
        Some(TokenView::Slash)
    } else if c == 0x2Au8 { // '*'
        Some(TokenView::Star)
    } else if c == 0x2Cu8 { // ','
        Some(TokenView::Comma)
    } else if c == 0x2Eu8 { // '.'
        Some(TokenView::Dot)
    } else if c == 0x22u8 { // '"'
        Some(TokenView::DoubleQuote)
    } else {
        None
    }
}

/// A run of letters is a keyword when it spells one exactly, else an identifier.
pub open spec fn word_token(w: Seq<u8>) -> TokenView {
    if w == seq![0x63u8, 0x6Fu8, 0x6Eu8, 0x73u8, 0x74u8] { // "const"
        TokenView::Const
    } else if w == seq![0x69u8, 0x66u8] { // "if"
        TokenView::If
    } else if w == seq![0x72u8, 0x65u8, 0x74u8, 0x75u8, 0x72u8, 0x6Eu8] { // "return"
        TokenView::Return
    } else if w == seq![0x66u8, 0x75u8, 0x6Eu8, 0x63u8, 0x74u8, 0x69u8, 0x6Fu8, 0x6Eu8] { // "function"
        TokenView::Function
    } else {
        TokenView::Identifier(w)
    }
}

/// The token that starts at or after `pos` in `s`, as `(token, start, end)`:
/// whitespace is skipped, then the longest token is taken.
pub open spec fn lex_at(s: Seq<u8>, pos: nat) -> Result<(TokenView, nat, nat), LexError> {
    let start = whitespace_end(s, pos);
    if start >= s.len() {
        Ok((TokenView::EndOfInput, start, start))
    } else {
        let c = s[start as int];
        if c == 0x3Du8 { // '='
            if start + 2 < s.len() && s[start + 1int] == 0x3Du8 && s[start + 2int] == 0x3Du8 {
                Ok((TokenView::TripleEquals, start, start + 3))
            } else if start + 1 < s.len() && s[start + 1int] == 0x3Du8 {
                Ok((TokenView::DoubleEquals, start, start + 2))
            } else {
                Ok((TokenView::Equals, start, start + 1))
            }
        } else if punctuation(c) is Some {
            Ok((punctuation(c)->Some_0, start, start + 1))
        } else if is_digit(c) {
            let end = digits_end(s, start);
            let value = digits_value(s.subrange(start as int, end as int));
            if value <= i32::MAX {
                Ok((TokenView::Number(value as i32), start, end))
            } else {
                Err(LexError::InvalidNumber)
            }
        } else if is_letter(c) {
            let end = letters_end(s, start);
            Ok((word_token(s.subrange(start as int, end as int)), start, end))
        } else {
            Err(LexError::UnexpectedCharacter(c, start as usize))
        }
    }
}

/// How an executable lexing result relates to `lex_at`.
pub open spec fn lexed_as(
    r: Result<(Token, usize, usize), LexError>,
    l: Result<(TokenView, nat, nat), LexError>,
) -> bool {
    match (r, l) {
        (Ok((t, a, b)), Ok((tv, sa, sb))) => t@ == tv && a == sa && b == sb,
        (Err(e), Err(f)) => e == f,
        _ => false,
    }
}

pub proof fn lemma_run_end_bounds(s: Seq<u8>, i: nat, class: ByteClass)
    ensures
        i <= run_end(s, i, class),
        i <= s.len() ==> run_end(s, i, class) <= s.len(),
        forall|k: int| i <= k < run_end(s, i, class) ==> in_class(class, #[trigger] s[k]),
        run_end(s, i, class) < s.len() ==> !in_class(class, s[run_end(s, i, class) as int]),
    decreases s.len() - i,
{
    if i < s.len() && in_class(class, s[i as int]) {
        lemma_run_end_bounds(s, i + 1, class);
    }
}

/// Where a token lies relative to the position it was read from.
pub proof fn lemma_lex_at_bounds(s: Seq<u8>, pos: nat)
    ensures
        lex_at(s, pos) matches Ok((t, start, end)) ==> {
            &&& pos <= start <= end
            &&& (t is EndOfInput <==> start == end)
            &&& (!(t is EndOfInput) ==> start < s.len() && end <= s.len())
            &&& (t is EndOfInput && pos <= s.len() ==> start == s.len())
            &&& forall|k: int| pos <= k < start ==> is_whitespace(#[trigger] s[k])
        },
{
    lemma_run_end_bounds(s, pos, ByteClass::Whitespace);
    let start = whitespace_end(s, pos);
    if start < s.len() {
        lemma_run_end_bounds(s, start, ByteClass::Digit);
        lemma_run_end_bounds(s, start, ByteClass::Letter);
    }
}

/// A run that is cut off at `hi`, past its end, ends where it did.
proof fn lemma_run_end_subrange(s: Seq<u8>, lo: nat, hi: nat, i: nat, class: ByteClass)
    requires
        lo <= i <= hi <= s.len(),
        run_end(s, i, class) <= hi,
    ensures
        run_end(s.subrange(lo as int, hi as int), (i - lo) as nat, class) == run_end(s, i, class)
            - lo,
    decreases hi - i,
{
    let sub = s.subrange(lo as int, hi as int);
    if i < hi && in_class(class, s[i as int]) {
        assert(sub[i - lo] == s[i as int]);
        lemma_run_end_subrange(s, lo, hi, i + 1, class);
        assert((i - lo) as nat + 1 == (i + 1 - lo) as nat);
    } else if i == hi {
        if hi < s.len() && in_class(class, s[hi as int]) {
            lemma_run_end_bounds(s, hi + 1, class);
        }
    } else {
        assert(sub[i - lo] == s[i as int]);
    }
}

/// A run that covers everything from `i` on ends at the end of the input.
proof fn lemma_run_end_whole(s: Seq<u8>, i: nat, class: ByteClass)
    requires
        i <= s.len(),
        forall|k: int| i <= k < s.len() ==> in_class(class, #[trigger] s[k]),
    ensures
        run_end(s, i, class) == s.len(),
    decreases s.len() - i,
{
    if i < s.len() {
        lemma_run_end_whole(s, i + 1, class);
    }
}

/// Input made only of whitespace reads as `EndOfInput` at its end, and again there
/// however often it is read: it holds exactly one token.
pub proof fn lemma_whitespace_is_end_of_input(s: Seq<u8>)
    requires
        forall|k: int| 0 <= k < s.len() ==> is_whitespace(#[trigger] s[k]),
    ensures
        lex_at(s, 0) == Ok::<(TokenView, nat, nat), LexError>((TokenView::EndOfInput, s.len(), s.len())),
        lex_at(s, s.len()) == Ok::<(TokenView, nat, nat), LexError>(
            (TokenView::EndOfInput, s.len(), s.len()),
        ),
{
    lemma_run_end_whole(s, 0, ByteClass::Whitespace);
    lemma_run_end_whole(s, s.len(), ByteClass::Whitespace);
}

/// Reading on their own the bytes that one read consumed (the whitespace before the
/// token and the token) gives the same token and consumes all of them. Since each read
/// starts where the previous one ended, the spans of successive reads put together are
/// the input, with no byte dropped or repeated.
pub proof fn lemma_relex_span(s: Seq<u8>, pos: nat)
    requires
        pos <= s.len(),
        lex_at(s, pos) is Ok,
    ensures
        ({
            let (t, start, end) = lex_at(s, pos)->Ok_0;
            lex_at(s.subrange(pos as int, end as int), 0) == Ok::<(TokenView, nat, nat), LexError>(
                (t, (start - pos) as nat, (end - pos) as nat),
            )
        }),
{
    lemma_lex_at_bounds(s, pos);
    let (t, start, end) = lex_at(s, pos)->Ok_0;
    let sub = s.subrange(pos as int, end as int);
    lemma_run_end_subrange(s, pos, end, pos, ByteClass::Whitespace);
    assert(whitespace_end(sub, 0) == start - pos);
    if start < s.len() {
        let c = s[start as int];
        assert(sub[start - pos] == c);
        if c == 0x3Du8 {
            if start + 1 < end {
                assert(sub[start - pos + 1] == s[start + 1int]);
            }
            if start + 2 < end {
                assert(sub[start - pos + 2] == s[start + 2int]);
            }
        } else if punctuation(c) is Some {
        } else if is_digit(c) {
            lemma_run_end_subrange(s, pos, end, start, ByteClass::Digit);
            assert(sub.subrange(start - pos, end - pos) =~= s.subrange(start as int, end as int));
        } else if is_letter(c) {
            lemma_run_end_subrange(s, pos, end, start, ByteClass::Letter);
            assert(sub.subrange(start - pos, end - pos) =~= s.subrange(start as int, end as int));
        }
    }
}

/// The tokenizer's state: the whole input and the offset of the first byte not yet read.
pub struct Tokenizer {
    input: Vec<u8>,
    pos: usize,
}

pub struct TokenizerView {
    pub input: Seq<u8>,
    pub pos: nat,
}

impl View for Tokenizer {
    type V = TokenizerView;

    closed spec fn view(&self) -> TokenizerView {
        TokenizerView { input: self.input@, pos: self.pos as nat }
    }
}

fn whitespace_byte(b: u8) -> (r: bool)
    ensures
        r == is_whitespace(b),
{
    b == 0x20u8 || b == 0x09u8 || b == 0x0Au8 || b == 0x0Cu8 || b == 0x0Du8
}

fn digit_byte(b: u8) -> (r: bool)
    ensures
        r == is_digit(b),
{
    0x30u8 <= b && b <= 0x39u8
}

fn letter_byte(b: u8) -> (r: bool)
    ensures
        r == is_letter(b),
{
    (0x61u8 <= b && b <= 0x7Au8) || (0x41u8 <= b && b <= 0x5Au8)
}

fn punctuation_token(c: u8) -> (r: Option<Token>)
    ensures
        match (r, punctuation(c)) {
            (Some(t), Some(tv)) => t@ == tv,
            (None, None) => true,
            _ => false,
        },
{
    if c == 0x7Bu8 {
        Some(Token::LeftBrace)
    } else if c == 0x7Du8 {
        Some(Token::RightBrace)
    } else if c == 0x28u8 {
        Some(Token::LeftParen)
    } else if c == 0x29u8 {
        Some(Token::RightParen)
    } else if c == 0x3Bu8 {
        Some(Token::Semicolon)
    } else if c == 0x2Bu8 {
        Some(Token::Plus)
    } else if c == 0x2Du8 {
        Some(Token::Minus)
    } else if c == 0x2Fu8 {
        Some(Token::Slash)
    } else if c == 0x2Au8 {
        Some(Token::Star)
    } else if c == 0x2Cu8 {
        Some(Token::Comma)
    } else if c == 0x2Eu8 {
        Some(Token::Dot)
    } else if c == 0x22u8 {
        Some(Token::DoubleQuote)
    } else {
        None
    }
}

/// Whether `s[start..end]` spells `w`.
fn span_spells(s: &Vec<u8>, start: usize, end: usize, w: &[u8]) -> (r: bool)
    requires
        start <= end <= s@.len(),
    ensures
        r == (s@.subrange(start as int, end as int) == w@),
{
    if end - start != w.len() {
        return false;
    }
    let mut i: usize = 0;
    while i < w.len()
        invariant
            start <= end <= s@.len(),
            end - start == w@.len(),
            i <= w@.len(),
            forall|k: int| 0 <= k < i ==> s@[start + k] == w@[k],
        decreases w@.len() - i,
    {
        if s[start + i] != w[i] {
            assert(s@.subrange(start as int, end as int)[i as int] != w@[i as int]);
            return false;
        }
        i = i + 1;
    }
    assert(s@.subrange(start as int, end as int) =~= w@);
    true
}

fn word_at(s: &Vec<u8>, start: usize, end: usize) -> (t: Token)
    requires
        start <= end <= s@.len(),
    ensures
        t@ == word_token(s@.subrange(start as int, end as int)),
{
    let kw_const: [u8; 5] = [0x63u8, 0x6Fu8, 0x6Eu8, 0x73u8, 0x74u8];
    let kw_if: [u8; 2] = [0x69u8, 0x66u8];
    let kw_return: [u8; 6] = [0x72u8, 0x65u8, 0x74u8, 0x75u8, 0x72u8, 0x6Eu8];
    let kw_function: [u8; 8] = [0x66u8, 0x75u8, 0x6Eu8, 0x63u8, 0x74u8, 0x69u8, 0x6Fu8, 0x6Eu8];
    assert(kw_const@ =~= seq![0x63u8, 0x6Fu8, 0x6Eu8, 0x73u8, 0x74u8]);
    assert(kw_if@ =~= seq![0x69u8, 0x66u8]);
    assert(kw_return@ =~= seq![0x72u8, 0x65u8, 0x74u8, 0x75u8, 0x72u8, 0x6Eu8]);
    assert(kw_function@ =~= seq![0x66u8, 0x75u8, 0x6Eu8, 0x63u8, 0x74u8, 0x69u8, 0x6Fu8, 0x6Eu8]);
    if span_spells(s, start, end, kw_const.as_slice()) {
        Token::Const
    } else if span_spells(s, start, end, kw_if.as_slice()) {
        Token::If
    } else if span_spells(s, start, end, kw_return.as_slice()) {
        Token::Return
    } else if span_spells(s, start, end, kw_function.as_slice()) {
        Token::Function
    } else {
        let mut w: Vec<u8> = Vec::new();
        let mut i: usize = start;
        while i < end
            invariant
                start <= i <= end <= s@.len(),
                w@ =~= s@.subrange(start as int, i as int),
            decreases end - i,
        {
            w.push(s[i]);
            i = i + 1;
        }
        Token::Identifier(w)
    }
}

proof fn lemma_digits_value_prefix(d: Seq<u8>, j: int)
    requires
        0 <= j <= d.len(),
        forall|k: int| 0 <= k < d.len() ==> is_digit(#[trigger] d[k]),
    ensures
        digits_value(d.subrange(0, j)) <= digits_value(d),
    decreases d.len(),
{
    if j == d.len() {
        assert(d.subrange(0, j) =~= d);
    } else {
        let p = d.drop_last();
        assert(p.subrange(0, j) =~= d.subrange(0, j));
        lemma_digits_value_prefix(p, j);
    }
}

/// Reads the digits of `s[start..end]` as a number, failing when it exceeds `i32::MAX`.
fn number_at(s: &Vec<u8>, start: usize, end: usize) -> (r: Result<i32, LexError>)
    requires
        start <= end <= s@.len(),
        forall|k: int| start <= k < end ==> is_digit(#[trigger] s@[k]),
    ensures
        match r {
            Ok(n) => 0 <= n && digits_value(s@.subrange(start as int, end as int)) == n as int,
            Err(e) => e == LexError::InvalidNumber && digits_value(
                s@.subrange(start as int, end as int),
            ) > i32::MAX,
        },
{
    let ghost run = s@.subrange(start as int, end as int);
    let mut value: u64 = 0;
    let mut i: usize = start;
    assert(s@.subrange(start as int, start as int) =~= Seq::<u8>::empty());
    while i < end
        invariant
            start <= i <= end <= s@.len(),
            run == s@.subrange(start as int, end as int),
            forall|k: int| start <= k < end ==> is_digit(#[trigger] s@[k]),
            value as nat == digits_value(s@.subrange(start as int, i as int)),
            value <= i32::MAX,
        decreases end - i,
    {
        let ghost prev = s@.subrange(start as int, i as int);
        let ghost next = s@.subrange(start as int, i + 1);
        assert(next.drop_last() =~= prev);
        let digit = (s[i] - 0x30u8) as u64;
        value = value * 10 + digit;
        i = i + 1;
        if value > 0x7FFF_FFFFu64 {
            proof {
                assert(run.subrange(0, i - start) =~= next);
                lemma_digits_value_prefix(run, i - start);
            }
            return Err(LexError::InvalidNumber);
        }
    }
    Ok(value as i32)
}

/// Reads the token at or after `pos`, without keeping any state.
pub(crate) fn lex_span(s: &Vec<u8>, pos: usize) -> (r: Result<(Token, usize, usize), LexError>)
    requires
        pos <= s@.len(),
    ensures
        lexed_as(r, lex_at(s@, pos as nat)),
{
    let mut start = pos;
    proof {
        lemma_run_end_bounds(s@, pos as nat, ByteClass::Whitespace);
    }
    while start < s.len() && whitespace_byte(s[start])
        invariant
            pos <= start <= s@.len(),
            whitespace_end(s@, pos as nat) == whitespace_end(s@, start as nat),
        decreases s@.len() - start,
    {
        start = start + 1;
    }
    let len = s.len();
    assert(whitespace_end(s@, pos as nat) == start);
    if start >= len {
        return Ok((Token::EndOfInput, start, start));
    }
    let c = s[start];
    if c == 0x3Du8 {
        if start + 1 < len && start + 2 < len && s[start + 1] == 0x3Du8 && s[start + 2] == 0x3Du8 {
            Ok((Token::TripleEquals, start, start + 3))
        } else if start + 1 < len && s[start + 1] == 0x3Du8 {
            Ok((Token::DoubleEquals, start, start + 2))
        } else {
            Ok((Token::Equals, start, start + 1))
        }
    } else if let Some(t) = punctuation_token(c) {
        Ok((t, start, start + 1))
    } else if digit_byte(c) {
        let mut end = start;
        while end < len && digit_byte(s[end])
            invariant
                start <= end <= len,
                len == s@.len(),
                digits_end(s@, start as nat) == digits_end(s@, end as nat),
                forall|k: int| start <= k < end ==> is_digit(#[trigger] s@[k]),
            decreases len - end,
        {
            end = end + 1;
        }
        assert(digits_end(s@, start as nat) == end);
        match number_at(s, start, end) {
            Ok(n) => {
                Ok((Token::Number(n), start, end))
            },
            Err(e) => Err(e),
        }
    } else if letter_byte(c) {
        let mut end = start;
        while end < len && letter_byte(s[end])
            invariant
                start <= end <= len,
                len == s@.len(),
                letters_end(s@, start as nat) == letters_end(s@, end as nat),
            decreases len - end,
        {
            end = end + 1;
        }
        assert(letters_end(s@, start as nat) == end);
        Ok((word_at(s, start, end), start, end))
    } else {
        Err(LexError::UnexpectedCharacter(c, start))
    }
}

impl Tokenizer {
    /// The bytes being read.
    pub fn source(&self) -> (r: &Vec<u8>)
        ensures
            r@ == self@.input,
    {
        &self.input
    }

    /// Moves the offset to `pos`, past what a parser has read.
    pub(crate) fn advance_to(&mut self, pos: usize)
        requires
            pos <= old(self)@.input.len(),
        ensures
            final(self)@.input == old(self)@.input,
            final(self)@.pos == pos,
    {
        self.pos = pos;
    }

    /// A tokenizer holds its input in a `Vec` whose offset never passes its end.
    pub open spec fn wf(&self) -> bool {
        self@.pos <= self@.input.len()
    }

    /// A tokenizer at the start of the UTF-8 bytes of `input`.
    pub fn new(input: &str) -> (t: Tokenizer)
        ensures
            t.wf(),
            t@.input == input.spec_bytes(),
            t@.pos == 0,
    {
        Tokenizer { input: slice_to_vec(input.as_bytes()), pos: 0 }
    }

    /// The offset of the first byte not yet read.
    pub fn offset(&self) -> (r: usize)
        ensures
            r == self@.pos,
    {
        self.pos
    }

    /// The next token with its start and end offsets, without consuming it.
    pub fn peek_token(&self) -> (r: Result<(Token, usize, usize), LexError>)
        requires
            self.wf(),
        ensures
            lexed_as(r, lex_at(self@.input, self@.pos)),
    {
        lex_span(&self.input, self.pos)
    }

    /// Reads the next token and moves past it and the whitespace before it.
    /// At the end of the input it returns `EndOfInput`, however often it is called.
    /// On an error the tokenizer is left as it was.
    pub fn consume_token(&mut self) -> (r: Result<Token, LexError>)
        requires
            old(self).wf(),
        ensures
            final(self).wf(),
            final(self)@.input == old(self)@.input,
            old(self)@.pos <= final(self)@.pos,
            match lex_at(old(self)@.input, old(self)@.pos) {
                Ok((tv, start, end)) => r matches Ok(t) && t@ == tv && final(self)@.pos == end,
                Err(e) => r == Err::<Token, LexError>(e) && final(self)@.pos == old(self)@.pos,
            },
    {
        proof {
            lemma_lex_at_bounds(self.input@, self.pos as nat);
        }
        match lex_span(&self.input, self.pos) {
            Ok((t, _start, end)) => {
                self.pos = end;
                Ok(t)
            },
            Err(e) => Err(e),
        }
    }
}

} // verus!

//! A lexer and recursive-descent parser for a small scripting language:
//! `const` declarations, `if` statements and arithmetic / equality expressions.
//! Both stages are specified by spec functions over the input bytes and the
//! executable code is proved to compute exactly what those functions describe.

pub mod tokenizer;
pub mod ast;

//! Arithmetic expressions over `+ - * / ^`, decimal numbers and parentheses:
//! a pull tokenizer with one token of lookahead, a recursive-descent parser
//! with three tiers of precedence, and two ways to draw the resulting tree.
//!
//! The grammar is stated twice: as the parser's rules over token sequences
//! (`parser`), which also say which error each malformed input gives, and as
//! the phrases that the rules accept (`grammar`), with the proof that the two
//! agree.
pub mod base;
pub mod grammar;
pub mod literal;
pub mod parser;
pub mod pipeline;
pub mod text;
pub mod tokenizer;
pub mod tree;

//! A small expression front end: a tokenizer that keeps quoted strings and
//! parenthesized groups whole, a parser that turns a line into a flat
//! expression tree, the AST those produce, and the menu decisions of the
//! dialogue that assembles a program from them.

pub mod ast;
pub mod dialogue;
pub mod numeric;
pub mod parser;
pub mod roundtrip;
pub mod text;
pub mod tokenizer;

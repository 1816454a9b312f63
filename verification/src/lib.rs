//! A parser for mixfix expressions over a precedence graph.
//!
//! A mixfix operator interleaves name parts with argument holes, as in
//! `if _ then _ else _`, `_+_` or `[_]`. The operators of a grammar stand at
//! the precedences of a graph whose edges say which precedence binds tighter
//! than which. [`parser::parse_expr`] reads a sequence of tokens as one
//! expression: beside an operator at a precedence `p` it admits only what
//! binds tighter than `p`, or a further link of a chain of operators at `p`
//! that associate the same way, and where several readings are there it
//! takes the longest.
//!
//! [`grammar`] says what each parser of the cascade reads, over sequences of
//! words; [`parser`] holds the parsers themselves, each with that as its
//! contract; [`laws`] holds what follows for every expression that is read.

pub mod combinator;
pub mod digraph;
pub mod discipline;
pub mod error;
pub mod expr;
pub mod fixity;
pub mod grammar;
pub mod graph;
pub mod laws;
pub mod operator;
pub mod parser;
pub mod shape;

//! A Parsing Expression Grammar (PEG) engine.
//!
//! A grammar is compiled from its textual form into a map of named [`rule::Rule`]
//! values and then interpreted over an input string by a backtracking
//! recursive-descent evaluator with packrat memoization, producing a concrete
//! syntax tree ([`parsing::ParseNode`]) or a structured error chain
//! ([`parsing::ParseError`]).

pub mod parsing;
pub mod render;
pub mod rule;
pub mod semantics;
pub mod grammar;
pub mod bootstrap;
pub mod interp;
pub mod laws;
pub mod transformer;

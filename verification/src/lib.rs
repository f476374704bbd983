//! A small backtracking regular-expression engine.
//!
//! A pattern is compiled into a sequence of [`RE`] nodes and then run against
//! a text by plain recursive backtracking.  Every executable function carries
//! a contract over the mathematical model of the pattern ([`Node`]) and of the
//! text (`Seq<char>`).
pub mod ast;
pub mod classes;
pub mod engine;
pub mod grammar;
pub mod laws;
pub mod matcher;
pub mod parser;
pub mod semantics;
pub mod text;

pub use ast::{Node, ParseError, RE};
pub use engine::{compile, find_captures, is_match, RegexEngine};
pub use matcher::MatchContext;
pub use parser::{parse_alternation, parse_char_class, parse_pattern, parse_sequence};

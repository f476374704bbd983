//! The entry points: compile a pattern, then ask whether and how it matches.
use std::collections::HashMap;
use vstd::prelude::*;
use crate::ast::{nodes_of, Node, ParseError, RE};
use crate::grammar::parse;
use crate::matcher::{captures_of, MatchContext};
use crate::parser::{parse_pattern, pattern_outcome};
use crate::semantics::{search, Captures};

verus! {

/// Whether `pat` matches somewhere in `text`.
pub open spec fn pattern_matches(pat: Seq<Node>, text: Seq<char>) -> bool {
    search(pat, text) is Some
}

/// The captures of the match of `pat` in `text`; none where it does not
/// match.
pub open spec fn pattern_captures(pat: Seq<Node>, text: Seq<char>) -> Captures {
    match search(pat, text) {
        Some(caps) => caps,
        None => Map::empty(),
    }
}

/// Compiles `source` into its pattern tree, or says why it is no pattern.
pub fn compile(source: &str) -> (r: Result<Vec<RE>, ParseError>)
    ensures
        pattern_outcome(r) == parse(source@),
{
    parse_pattern(source)
}

/// Whether the pattern `ast` matches somewhere in `text`.
pub fn is_match(ast: &[RE], text: &str) -> (ok: bool)
    ensures
        ok == pattern_matches(nodes_of(ast@), text@),
{
    let mut context = MatchContext::new(text);
    context.match_pattern(ast)
}

/// Whether the pattern `ast` matches somewhere in `text`, and the text that
/// each group captured in that match.
pub fn find_captures(ast: &[RE], text: &str) -> (r: (bool, HashMap<usize, String>))
    ensures
        r.0 == pattern_matches(nodes_of(ast@), text@),
        captures_of(r.1@) == pattern_captures(nodes_of(ast@), text@),
{
    let mut context = MatchContext::new(text);
    let ok = context.match_pattern(ast);
    (ok, context.captures)
}

/// A compiled pattern.
pub struct RegexEngine {
    pub pattern: Vec<RE>,
}

impl RegexEngine {
    /// Compiles `pattern`.
    pub fn new(pattern: &str) -> (r: Result<RegexEngine, ParseError>)
        ensures
            match r {
                Ok(engine) => parse(pattern@) == Ok::<Seq<Node>, ParseError>(
                    nodes_of(engine.pattern@),
                ),
                Err(e) => parse(pattern@) == Err::<Seq<Node>, ParseError>(e),
            },
    {
        match parse_pattern(pattern) {
            Ok(nodes) => Ok(RegexEngine { pattern: nodes }),
            Err(e) => Err(e),
        }
    }

    /// Whether the pattern matches somewhere in `text`.
    pub fn match_text(&self, text: &str) -> (ok: bool)
        ensures
            ok == pattern_matches(nodes_of(self.pattern@), text@),
    {
        is_match(self.pattern.as_slice(), text)
    }
}

} // verus!

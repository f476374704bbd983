//! The pattern compiler: one scan over the characters of a pattern, with a
//! recursive descent into groups.
use vstd::prelude::*;
use crate::ast::{lemma_nodes_of_push, node_of, nodes_of, Node, ParseError, RE};
use crate::grammar::{
    char_range, class_members, code_range, escape_node, is_scalar, lemma_class_progress,
    lemma_group_progress, lemma_parse_progress, parse, parse_group, parse_items, Parsed,
    ParsedGroup,
};
use crate::text::chars_of;

verus! {

/// `char::from_u32` gives the character with the code `i`, or `None` where
/// `i` is no Unicode scalar value.
pub assume_specification[ char::from_u32 ](i: u32) -> (r: Option<char>)
    ensures
        match r {
            Some(c) => is_scalar(i as int) && c as int == i as int,
            None => !is_scalar(i as int),
        },
;

/// The model of a parsed character class.
pub open spec fn class_outcome(r: Result<(Vec<char>, usize), ParseError>) -> Result<
    (Seq<char>, int),
    ParseError,
> {
    match r {
        Ok((members, close)) => Ok((members@, close as int)),
        Err(e) => Err(e),
    }
}

/// The model of a parsed sequence with the position and group count behind
/// it.
pub open spec fn items_outcome(r: Result<(Vec<RE>, usize, usize), ParseError>) -> Result<
    Parsed,
    ParseError,
> {
    match r {
        Ok((nodes, next, groups)) => Ok(
            Parsed { nodes: nodes_of(nodes@), next: next as int, groups: groups as int },
        ),
        Err(e) => Err(e),
    }
}

/// The model of a compiled pattern.
pub open spec fn pattern_outcome(r: Result<Vec<RE>, ParseError>) -> Result<Seq<Node>, ParseError> {
    match r {
        Ok(nodes) => Ok(nodes_of(nodes@)),
        Err(e) => Err(e),
    }
}

/// Whether a counter of `groups` groups cannot overflow while the rest of
/// `chars` from `pos` on is parsed: each character opens at most one group.
pub open spec fn groups_fit(chars: Seq<char>, pos: int, groups: int) -> bool {
    pos <= chars.len() ==> groups + (chars.len() - pos) <= usize::MAX
}

/// The character at position `i`.
pub fn nth_char(chars: &[char], i: usize) -> (c: char)
    requires
        i < chars@.len(),
    ensures
        c == chars@[i as int],
{
    chars[i]
}

/// Appends the characters from `lo` to `hi` inclusive to `class`.
pub fn push_range(class: &mut Vec<char>, lo: char, hi: char)
    ensures
        final(class)@ == old(class)@ + char_range(lo, hi),
{
    let first: u32 = lo as u32;
    let last: u32 = hi as u32;
    if first > last {
        return ;
    }
    let mut code: u32 = first;
    loop
        invariant
            first <= code <= last,
            first as int == lo as int,
            last as int == hi as int,
            class@ + code_range(code as int, last as int) == old(class)@ + code_range(
                first as int,
                last as int,
            ),
        decreases last - code,
    {
        match char::from_u32(code) {
            Some(c) => {
                class.push(c);
            },
            None => {},
        }
        if code == last {
            assert(class@ + code_range(code + 1, last as int) =~= class@);
            return ;
        }
        code += 1;
    }
}

/// Parses the members of a character class from `start`, behind the `[` or
/// `[^`, up to the closing `]`, whose position it returns.
pub fn parse_char_class(chars: &[char], start: usize) -> (r: Result<(Vec<char>, usize), ParseError>)
    ensures
        class_outcome(r) == class_members(chars@, start as int, Seq::empty()),
{
    let mut class: Vec<char> = Vec::new();
    let mut i: usize = start;
    while i < chars.len()
        invariant
            start <= i,
            class_members(chars@, start as int, Seq::empty()) == class_members(
                chars@,
                i as int,
                class@,
            ),
        decreases chars.len() - i,
    {
        let c = nth_char(chars, i);
        if c == ']' {
            return Ok((class, i));
        } else if chars.len() - i > 2 && chars[i + 1] == '-' && chars[i + 2] != ']' {
            push_range(&mut class, c, chars[i + 2]);
            i += 3;
        } else {
            class.push(c);
            i += 1;
        }
    }
    Err(ParseError::UnterminatedCharacterClass)
}

/// The node for the escape `\c`.
pub fn parse_escape(c: char) -> (r: Result<RE, ParseError>)
    ensures
        match r {
            Ok(node) => escape_node(c) == Ok::<Node, ParseError>(node@),
            Err(e) => escape_node(c) == Err::<Node, ParseError>(e),
        },
{
    if c == 'd' {
        Ok(RE::DigitClass)
    } else if c == 'w' {
        Ok(RE::WordClass)
    } else if '1' <= c && c <= '9' {
        let code: u32 = c as u32;
        Ok(RE::Backreference((code - 48) as usize))
    } else if c == '\\' {
        Ok(RE::Literal('\\'))
    } else {
        Err(ParseError::UnsupportedEscape(c))
    }
}

/// Parses nodes from `start` on: [`parse_items`].  Returns the nodes, the
/// position where parsing stopped and the number of groups opened so far.
pub fn parse_nodes(chars: &[char], start: usize, groups: usize, nested: bool) -> (r: Result<
    (Vec<RE>, usize, usize),
    ParseError,
>)
    requires
        groups_fit(chars@, start as int, groups as int),
    ensures
        items_outcome(r) == parse_items(chars@, start as int, groups as int, Seq::empty(), nested),
    decreases chars.len() - start, 0nat,
{
    let mut result: Vec<RE> = Vec::new();
    let mut i: usize = start;
    let mut opened: usize = groups;
    while i < chars.len()
        invariant
            start <= i,
            i <= chars.len() || i == start,
            groups <= opened,
            opened - groups <= i - start,
            groups_fit(chars@, start as int, groups as int),
            parse_items(chars@, start as int, groups as int, Seq::empty(), nested) == parse_items(
                chars@,
                i as int,
                opened as int,
                nodes_of(result@),
                nested,
            ),
        decreases chars.len() - i,
    {
        let c = nth_char(chars, i);
        let ghost acc = nodes_of(result@);
        let ghost whole = result@;
        if nested && (c == '|' || c == ')') {
            return Ok((result, i, opened));
        } else if c == '^' {
            proof {
                lemma_nodes_of_push(result@, RE::StartAnchor);
            }
            result.push(RE::StartAnchor);
            i += 1;
        } else if c == '$' {
            proof {
                lemma_nodes_of_push(result@, RE::EndAnchor);
            }
            result.push(RE::EndAnchor);
            i += 1;
        } else if c == '.' {
            proof {
                lemma_nodes_of_push(result@, RE::AnyChar);
            }
            result.push(RE::AnyChar);
            i += 1;
        } else if c == '\\' {
            if chars.len() - i > 1 {
                match parse_escape(chars[i + 1]) {
                    Ok(node) => {
                        proof {
                            lemma_nodes_of_push(result@, node);
                        }
                        result.push(node);
                        i += 2;
                    },
                    Err(e) => {
                        return Err(e);
                    },
                }
            } else {
                return Err(ParseError::IncompleteEscapeAtEndOfPattern);
            }
        } else if c == '[' {
            let negated = chars.len() - i > 1 && chars[i + 1] == '^';
            let from: usize = if negated {
                i + 2
            } else {
                i + 1
            };
            proof {
                lemma_class_progress(chars@, from as int, Seq::empty());
            }
            match parse_char_class(chars, from) {
                Ok((members, close)) => {
                    let node = RE::CharClass(members, negated);
                    proof {
                        lemma_nodes_of_push(result@, node);
                    }
                    result.push(node);
                    i = close + 1;
                },
                Err(e) => {
                    return Err(e);
                },
            }
        } else if c == '(' {
            proof {
                lemma_group_progress(chars@, i + 1, opened + 1);
            }
            let mut counter: usize = opened;
            match parse_alternation(chars, i + 1, &mut counter) {
                Ok((node, close)) => {
                    proof {
                        lemma_nodes_of_push(result@, node);
                    }
                    result.push(node);
                    opened = counter;
                    i = close + 1;
                },
                Err(e) => {
                    return Err(e);
                },
            }
        } else if c == '?' {
            match result.pop() {
                Some(last) => {
                    let node = RE::Optional(Box::new(last));
                    proof {
                        assert(whole =~= result@.push(last));
                        lemma_quantified(acc, result@, last, node);
                    }
                    result.push(node);
                    i += 1;
                },
                None => {
                    return Err(ParseError::DanglingQuantifier);
                },
            }
        } else if c == '+' {
            match result.pop() {
                Some(last) => {
                    let node = RE::OneOrMore(Box::new(last));
                    proof {
                        assert(whole =~= result@.push(last));
                        lemma_quantified(acc, result@, last, node);
                    }
                    result.push(node);
                    i += 1;
                },
                None => {
                    return Err(ParseError::DanglingQuantifier);
                },
            }
        } else {
            proof {
                lemma_nodes_of_push(result@, RE::Literal(c));
            }
            result.push(RE::Literal(c));
            i += 1;
        }
    }
    Ok((result, i, opened))
}

/// A sequence that lost its last node `last` and gets `node` in its place:
/// the model loses its last node and gets the model of `node`.
pub proof fn lemma_quantified(acc: Seq<Node>, front: Seq<RE>, last: RE, node: RE)
    requires
        acc == nodes_of(front.push(last)),
    ensures
        acc.len() > 0,
        acc.last() == node_of(last),
        nodes_of(front.push(node)) == acc.drop_last().push(node_of(node)),
{
    lemma_nodes_of_push(front, last);
    lemma_nodes_of_push(front, node);
}

/// Parses the inside of a group from `start`, behind its `(`, up to its
/// closing `)`, whose position it returns: [`parse_group`].  The group gets
/// the number after `groups`, which counts the groups opened so far; on
/// failure `groups` is left as it was.
pub fn parse_alternation(chars: &[char], start: usize, groups: &mut usize) -> (r: Result<
    (RE, usize),
    ParseError,
>)
    requires
        groups_fit(chars@, start as int, *old(groups) + 1),
    ensures
        match r {
            Ok((node, close)) => parse_group(chars@, start as int, *old(groups) + 1) == Ok::<
                ParsedGroup,
                ParseError,
            >(ParsedGroup { node: node@, close: close as int, groups: *final(groups) as int }),
            Err(e) => parse_group(chars@, start as int, *old(groups) + 1) == Err::<
                ParsedGroup,
                ParseError,
            >(e) && *final(groups) == *old(groups),
        },
    decreases chars.len() - start, 1nat,
{
    if start > chars.len() {
        return Err(ParseError::UnmatchedParenthesis);
    }
    let number: usize = *groups + 1;
    proof {
        lemma_parse_progress(chars@, start as int, number as int, Seq::empty(), true);
    }
    let (left, bar, opened) = match parse_nodes(chars, start, number, true) {
        Ok(parsed) => parsed,
        Err(e) => {
            return Err(e);
        },
    };
    if bar < chars.len() && chars[bar] == '|' {
        let (right, close, opened) = match parse_nodes(chars, bar + 1, opened, true) {
            Ok(parsed) => parsed,
            Err(e) => {
                return Err(e);
            },
        };
        if close < chars.len() && chars[close] == ')' {
            let mut inner: Vec<RE> = Vec::new();
            let arms = RE::Alternation(left, right);
            proof {
                lemma_nodes_of_push(inner@, arms);
            }
            inner.push(arms);
            *groups = opened;
            Ok((RE::Group(inner, number), close))
        } else if close < chars.len() {
            Err(ParseError::InvalidAlternationSyntax)
        } else {
            Err(ParseError::UnmatchedParenthesis)
        }
    } else if bar < chars.len() && chars[bar] == ')' {
        *groups = opened;
        Ok((RE::Group(left, number), bar))
    } else {
        Err(ParseError::UnmatchedParenthesis)
    }
}

/// Parses a sequence inside a group from `*i` on and stops in front of the
/// `|` or `)` that ends it, or at the end of `chars`: [`parse_items`].  On
/// success `*i` is the position where it stopped and `*groups` the number of
/// groups opened so far; on failure both are left as they were.
pub fn parse_sequence(chars: &[char], i: &mut usize, groups: &mut usize) -> (r: Result<
    Vec<RE>,
    ParseError,
>)
    requires
        groups_fit(chars@, *old(i) as int, *old(groups) as int),
    ensures
        match r {
            Ok(nodes) => parse_items(
                chars@,
                *old(i) as int,
                *old(groups) as int,
                Seq::empty(),
                true,
            ) == Ok::<Parsed, ParseError>(
                Parsed {
                    nodes: nodes_of(nodes@),
                    next: *final(i) as int,
                    groups: *final(groups) as int,
                },
            ),
            Err(e) => parse_items(
                chars@,
                *old(i) as int,
                *old(groups) as int,
                Seq::empty(),
                true,
            ) == Err::<Parsed, ParseError>(e) && *final(i) == *old(i) && *final(groups) == *old(
                groups,
            ),
        },
{
    match parse_nodes(chars, *i, *groups, true) {
        Ok((nodes, next, opened)) => {
            *i = next;
            *groups = opened;
            Ok(nodes)
        },
        Err(e) => Err(e),
    }
}

/// Compiles the characters of `pattern` into its pattern tree: [`parse`].
pub fn parse_pattern(pattern: &str) -> (r: Result<Vec<RE>, ParseError>)
    ensures
        pattern_outcome(r) == parse(pattern@),
{
    let chars = chars_of(pattern);
    match parse_nodes(chars.as_slice(), 0, 0, false) {
        Ok((nodes, _, _)) => Ok(nodes),
        Err(e) => Err(e),
    }
}

} // verus!

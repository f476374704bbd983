//! The pattern syntax, written as recursive functions from characters to the
//! model of the pattern tree.
use vstd::prelude::*;
use crate::ast::{Node, ParseError};

verus! {

/// Whether `code` is a Unicode scalar value, that is the code of a `char`.
pub open spec fn is_scalar(code: int) -> bool {
    0 <= code <= 0xD7FF || 0xE000 <= code <= 0x10FFFF
}

/// The characters with codes from `lo` to `hi` inclusive, in ascending
/// order; none where `lo > hi`.
pub open spec fn code_range(lo: int, hi: int) -> Seq<char>
    decreases hi - lo + 1,
{
    if lo > hi {
        Seq::empty()
    } else if is_scalar(lo) {
        seq![lo as char] + code_range(lo + 1, hi)
    } else {
        code_range(lo + 1, hi)
    }
}

/// The members of the range `lo-hi` of a character class.
pub open spec fn char_range(lo: char, hi: char) -> Seq<char> {
    code_range(lo as int, hi as int)
}

/// The members of a character class whose text starts at `pos`, appended to
/// `acc`, and the position of the closing `]`.
///
/// `]` closes the class wherever it stands.  `a-z` is a range unless the
/// character behind the `-` is `]`: then `a` and `-` are plain members.
pub open spec fn class_members(chars: Seq<char>, pos: int, acc: Seq<char>) -> Result<
    (Seq<char>, int),
    ParseError,
>
    decreases chars.len() - pos,
{
    if pos >= chars.len() {
        Err(ParseError::UnterminatedCharacterClass)
    } else if chars[pos] == ']' {
        Ok((acc, pos))
    } else if pos + 2 < chars.len() && chars[pos + 1] == '-' && chars[pos + 2] != ']' {
        class_members(chars, pos + 3, acc + char_range(chars[pos], chars[pos + 2]))
    } else {
        class_members(chars, pos + 1, acc.push(chars[pos]))
    }
}

/// The node for the escape `\c`.
pub open spec fn escape_node(c: char) -> Result<Node, ParseError> {
    if c == 'd' {
        Ok(Node::DigitClass)
    } else if c == 'w' {
        Ok(Node::WordClass)
    } else if '1' <= c && c <= '9' {
        Ok(Node::Backreference((c as int - '0' as int) as nat))
    } else if c == '\\' {
        Ok(Node::Literal('\\'))
    } else {
        Err(ParseError::UnsupportedEscape(c))
    }
}

/// A parsed sequence: its nodes, the position where parsing stopped, and the
/// number of groups opened so far.
pub ghost struct Parsed {
    pub nodes: Seq<Node>,
    pub next: int,
    pub groups: int,
}

/// A parsed group: its node, the position of its closing `)`, and the number
/// of groups opened so far.
pub ghost struct ParsedGroup {
    pub node: Node,
    pub close: int,
    pub groups: int,
}

/// Parses nodes from `pos` on and appends them to `acc`; `groups` groups
/// have been opened before `pos`.
///
/// With `nested` set, parsing stops in front of a `|` or `)`; without it the
/// two are literal characters and parsing runs to the end of `chars`.
/// A quantifier wraps the node in front of it.  The bounds tested
/// on a position handed back always hold ([`lemma_class_progress`],
/// [`lemma_group_progress`]).
pub open spec fn parse_items(
    chars: Seq<char>,
    pos: int,
    groups: int,
    acc: Seq<Node>,
    nested: bool,
) -> Result<Parsed, ParseError>
    decreases chars.len() - pos, 0nat,
{
    if pos >= chars.len() {
        Ok(Parsed { nodes: acc, next: pos, groups })
    } else {
        let c = chars[pos];
        if nested && (c == '|' || c == ')') {
            Ok(Parsed { nodes: acc, next: pos, groups })
        } else if c == '^' {
            parse_items(chars, pos + 1, groups, acc.push(Node::StartAnchor), nested)
        } else if c == '$' {
            parse_items(chars, pos + 1, groups, acc.push(Node::EndAnchor), nested)
        } else if c == '.' {
            parse_items(chars, pos + 1, groups, acc.push(Node::AnyChar), nested)
        } else if c == '\\' {
            if pos + 1 < chars.len() {
                match escape_node(chars[pos + 1]) {
                    Ok(node) => parse_items(chars, pos + 2, groups, acc.push(node), nested),
                    Err(e) => Err(e),
                }
            } else {
                Err(ParseError::IncompleteEscapeAtEndOfPattern)
            }
        } else if c == '[' {
            let negated = pos + 1 < chars.len() && chars[pos + 1] == '^';
            let start = if negated {
                pos + 2
            } else {
                pos + 1
            };
            match class_members(chars, start, Seq::empty()) {
                Ok((members, close)) if pos <= close < chars.len() => parse_items(
                    chars,
                    close + 1,
                    groups,
                    acc.push(Node::CharClass(members, negated)),
                    nested,
                ),
                Ok(_) => Err(ParseError::UnterminatedCharacterClass),
                Err(e) => Err(e),
            }
        } else if c == '(' {
            match parse_group(chars, pos + 1, groups + 1) {
                Ok(group) if pos <= group.close < chars.len() => parse_items(
                    chars,
                    group.close + 1,
                    group.groups,
                    acc.push(group.node),
                    nested,
                ),
                Ok(_) => Err(ParseError::UnmatchedParenthesis),
                Err(e) => Err(e),
            }
        } else if c == '?' {
            if acc.len() == 0 {
                Err(ParseError::DanglingQuantifier)
            } else {
                parse_items(
                    chars,
                    pos + 1,
                    groups,
                    acc.drop_last().push(Node::Optional(Box::new(acc.last()))),
                    nested,
                )
            }
        } else if c == '+' {
            if acc.len() == 0 {
                Err(ParseError::DanglingQuantifier)
            } else {
                parse_items(
                    chars,
                    pos + 1,
                    groups,
                    acc.drop_last().push(Node::OneOrMore(Box::new(acc.last()))),
                    nested,
                )
            }
        } else {
            parse_items(chars, pos + 1, groups, acc.push(Node::Literal(c)), nested)
        }
    }
}

/// Parses the inside of the group numbered `number`, whose text starts at
/// `start`, behind the `(`: one sequence, or two with a `|` between them,
/// and then the `)`.
///
/// With one sequence the group holds its nodes; with two it holds a single
/// `Alternation`.  A second `|` is `InvalidAlternationSyntax`; the end of
/// the pattern in place of the `)` is `UnmatchedParenthesis`.
pub open spec fn parse_group(chars: Seq<char>, start: int, number: int) -> Result<
    ParsedGroup,
    ParseError,
>
    decreases chars.len() - start, 1nat,
{
    match parse_items(chars, start, number, Seq::empty(), true) {
        Err(e) => Err(e),
        Ok(left) => if left.next < chars.len() && chars[left.next] == '|' {
            if left.next >= start {
                match parse_items(chars, left.next + 1, left.groups, Seq::empty(), true) {
                    Err(e) => Err(e),
                    Ok(right) => if right.next < chars.len() && chars[right.next] == ')' {
                        Ok(
                            ParsedGroup {
                                node: Node::Group(
                                    seq![Node::Alternation(left.nodes, right.nodes)],
                                    number as nat,
                                ),
                                close: right.next,
                                groups: right.groups,
                            },
                        )
                    } else if right.next < chars.len() {
                        Err(ParseError::InvalidAlternationSyntax)
                    } else {
                        Err(ParseError::UnmatchedParenthesis)
                    },
                }
            } else {
                Err(ParseError::UnmatchedParenthesis)
            }
        } else if left.next < chars.len() && chars[left.next] == ')' {
            Ok(ParsedGroup { node: Node::Group(left.nodes, number as nat), close: left.next, groups: left.groups })
        } else {
            Err(ParseError::UnmatchedParenthesis)
        },
    }
}

/// The pattern tree of `source`: its nodes parsed at the top level, where
/// `|` and `)` are literal characters, with groups numbered from 1 in the
/// order of their opening parentheses.
pub open spec fn parse(source: Seq<char>) -> Result<Seq<Node>, ParseError> {
    match parse_items(source, 0, 0, Seq::empty(), false) {
        Ok(parsed) => Ok(parsed.nodes),
        Err(e) => Err(e),
    }
}

/// The character at `pos`, as a value of its own.
pub proof fn char_at(chars: Seq<char>, pos: int) -> (c: char)
    requires
        0 <= pos < chars.len(),
    ensures
        c == chars[pos],
{
    chars[pos]
}

/// The closing `]` of a class stands at or behind the position where the
/// class began.
pub proof fn lemma_class_progress(chars: Seq<char>, pos: int, acc: Seq<char>)
    requires
        0 <= pos,
    ensures
        class_members(chars, pos, acc) matches Ok((_, close)) ==> pos <= close < chars.len()
            && chars[close] == ']',
    decreases chars.len() - pos,
{
    if pos >= chars.len() {
    } else if chars[pos] == ']' {
    } else if pos + 2 < chars.len() && chars[pos + 1] == '-' && chars[pos + 2] != ']' {
        lemma_class_progress(chars, pos + 3, acc + char_range(chars[pos], chars[pos + 2]));
    } else {
        lemma_class_progress(chars, pos + 1, acc.push(chars[pos]));
    }
}

/// Parsing never moves backwards, stops inside the pattern or at its end,
/// and opens at most one group per character it passes.
pub proof fn lemma_parse_progress(
    chars: Seq<char>,
    pos: int,
    groups: int,
    acc: Seq<Node>,
    nested: bool,
)
    requires
        0 <= pos,
    ensures
        parse_items(chars, pos, groups, acc, nested) matches Ok(parsed) ==> {
            &&& pos <= parsed.next
            &&& pos <= chars.len() ==> parsed.next <= chars.len()
            &&& groups <= parsed.groups
            &&& parsed.groups - groups <= parsed.next - pos
        },
    decreases chars.len() - pos, 0nat,
{
    if pos >= chars.len() {
    } else {
        let c = char_at(chars, pos);
        if nested && (c == '|' || c == ')') {
        } else if c == '^' {
            lemma_parse_progress(chars, pos + 1, groups, acc.push(Node::StartAnchor), nested);
        } else if c == '$' {
            lemma_parse_progress(chars, pos + 1, groups, acc.push(Node::EndAnchor), nested);
        } else if c == '.' {
            lemma_parse_progress(chars, pos + 1, groups, acc.push(Node::AnyChar), nested);
        } else if c == '\\' {
            if pos + 1 < chars.len() {
                match escape_node(chars[pos + 1]) {
                    Ok(node) => lemma_parse_progress(chars, pos + 2, groups, acc.push(node), nested),
                    Err(e) => {},
                }
            }
        } else if c == '[' {
            let negated = pos + 1 < chars.len() && chars[pos + 1] == '^';
            let start = if negated {
                pos + 2
            } else {
                pos + 1
            };
            lemma_class_progress(chars, start, Seq::empty());
            match class_members(chars, start, Seq::empty()) {
                Ok((members, close)) => {
                    lemma_parse_progress(
                        chars,
                        close + 1,
                        groups,
                        acc.push(Node::CharClass(members, negated)),
                        nested,
                    );
                },
                Err(e) => {},
            }
        } else if c == '(' {
            lemma_group_progress(chars, pos + 1, groups + 1);
            match parse_group(chars, pos + 1, groups + 1) {
                Ok(group) => {
                    lemma_parse_progress(
                        chars,
                        group.close + 1,
                        group.groups,
                        acc.push(group.node),
                        nested,
                    );
                },
                Err(e) => {},
            }
        } else if c == '?' {
            if acc.len() > 0 {
                lemma_parse_progress(
                    chars,
                    pos + 1,
                    groups,
                    acc.drop_last().push(Node::Optional(Box::new(acc.last()))),
                    nested,
                );
            }
        } else if c == '+' {
            if acc.len() > 0 {
                lemma_parse_progress(
                    chars,
                    pos + 1,
                    groups,
                    acc.drop_last().push(Node::OneOrMore(Box::new(acc.last()))),
                    nested,
                );
            }
        } else {
            lemma_parse_progress(chars, pos + 1, groups, acc.push(Node::Literal(c)), nested);
        }
    }
}

/// The closing `)` of a group stands at or behind the position where its
/// inside began, and the group opens at most one group per character.
pub proof fn lemma_group_progress(chars: Seq<char>, start: int, number: int)
    requires
        0 <= start,
    ensures
        parse_group(chars, start, number) matches Ok(group) ==> {
            &&& start <= group.close < chars.len()
            &&& chars[group.close] == ')'
            &&& number <= group.groups
            &&& group.groups - number <= group.close - start
        },
    decreases chars.len() - start, 1nat,
{
    lemma_parse_progress(chars, start, number, Seq::empty(), true);
    match parse_items(chars, start, number, Seq::empty(), true) {
        Err(e) => {},
        Ok(left) => {
            if left.next < chars.len() && chars[left.next] == '|' {
                lemma_parse_progress(chars, left.next + 1, left.groups, Seq::empty(), true);
            }
        },
    }
}

} // verus!

//! What holds of every pattern and every text, proved from the definitions.
use vstd::prelude::*;
use crate::ast::{nodes_of, Node, ParseError, RE};
use crate::classes::char_matches;
use crate::engine::{pattern_captures, pattern_matches};
use crate::grammar::{
    char_at, class_members, escape_node, lemma_class_progress, lemma_group_progress,
    lemma_parse_progress, parse, parse_group, parse_items,
};
use crate::parser::pattern_outcome;
use crate::semantics::{
    matches_arm, matches_at, matches_group, matches_group_len, search, search_from, Captures,
};

verus! {

/// Whether `needle` occurs in `text` as a contiguous substring.
pub open spec fn occurs_in(needle: Seq<char>, text: Seq<char>) -> bool {
    exists|i: int|
        0 <= i && i + needle.len() <= text.len() && #[trigger] text.subrange(i, i + needle.len())
            == needle
}

/// Whether every node of `pat` is a literal character.
pub open spec fn all_literals(pat: Seq<Node>) -> bool {
    forall|i: int| 0 <= i < pat.len() ==> #[trigger] pat[i] is Literal
}

/// The characters of a pattern of literals.
pub open spec fn literal_text(pat: Seq<Node>) -> Seq<char> {
    Seq::new(pat.len(), |i: int| pat[i]->Literal_0)
}

/// Whether `c` has a meaning of its own at the top level of a pattern.
pub open spec fn is_special(c: char) -> bool {
    c == '^' || c == '$' || c == '.' || c == '\\' || c == '[' || c == '(' || c == '?' || c == '+'
}

/// A pattern of literals matches at the start of a text exactly when the
/// text begins with its characters, and leaves the captures as they were.
pub proof fn lemma_literals_match_prefix(pat: Seq<Node>, text: Seq<char>, caps: Captures)
    requires
        all_literals(pat),
    ensures
        matches_at(pat, text, caps, false) == if literal_text(pat).is_prefix_of(text) {
            Some(caps)
        } else {
            None
        },
    decreases pat.len(),
{
    let word = literal_text(pat);
    if pat.len() == 0 {
        assert(word =~= text.subrange(0, 0));
    } else {
        let rest = pat.skip(1);
        assert(pat[0] is Literal);
        assert forall|i: int| 0 <= i < rest.len() implies #[trigger] rest[i] is Literal by {
            assert(pat[i + 1] is Literal);
        }
        assert(literal_text(rest) =~= word.skip(1));
        if text.len() > 0 && word[0] == text[0] {
            lemma_literals_match_prefix(rest, text.skip(1), caps);
            if word.skip(1).is_prefix_of(text.skip(1)) {
                assert(word =~= text.subrange(0, word.len() as int)) by {
                    assert forall|i: int| 0 <= i < word.len() implies word[i] == text[i] by {
                        if i > 0 {
                            assert(word.skip(1)[i - 1] == text.skip(1).subrange(
                                0,
                                word.len() - 1,
                            )[i - 1]);
                        }
                    }
                }
            } else {
                if word.is_prefix_of(text) {
                    assert(word.skip(1) =~= text.skip(1).subrange(0, word.len() - 1)) by {
                        assert forall|i: int| 0 <= i < word.len() - 1 implies word.skip(1)[i]
                            == text.skip(1)[i] by {
                            assert(word[i + 1] == text.subrange(0, word.len() as int)[i + 1]);
                        }
                    }
                }
            }
        } else {
            if word.is_prefix_of(text) {
                assert(word[0] == text.subrange(0, word.len() as int)[0]);
            }
        }
    }
}

/// The unanchored search for a pattern of literals from `offset` on succeeds
/// exactly when the text holds its characters at some later offset.
pub proof fn lemma_literals_search(pat: Seq<Node>, text: Seq<char>, offset: nat)
    requires
        all_literals(pat),
    ensures
        search_from(pat, text, offset) is Some <==> exists|i: int|
            offset <= i <= text.len() && literal_text(pat).is_prefix_of(#[trigger] text.skip(i)),
    decreases text.len() + 1 - offset,
{
    let word = literal_text(pat);
    if offset <= text.len() {
        lemma_literals_match_prefix(pat, text.skip(offset as int), Map::empty());
        lemma_literals_search(pat, text, offset + 1);
        if search_from(pat, text, offset) is Some {
            if word.is_prefix_of(text.skip(offset as int)) {
            } else {
                let i = choose|i: int|
                    offset + 1 <= i <= text.len() && word.is_prefix_of(#[trigger] text.skip(i));
                assert(offset <= i <= text.len() && word.is_prefix_of(text.skip(i)));
            }
        }
        if exists|i: int| offset <= i <= text.len() && word.is_prefix_of(#[trigger] text.skip(i)) {
            let i = choose|i: int|
                offset <= i <= text.len() && word.is_prefix_of(#[trigger] text.skip(i));
            if i != offset {
                assert(offset + 1 <= i <= text.len() && word.is_prefix_of(text.skip(i)));
            }
        }
    }
}

/// A pattern made of literal characters only matches a text exactly when
/// the text contains those characters as a contiguous substring.
pub proof fn law_literals_match_as_containment(pat: Seq<Node>, text: Seq<char>)
    requires
        all_literals(pat),
    ensures
        pattern_matches(pat, text) <==> occurs_in(literal_text(pat), text),
{
    let word = literal_text(pat);
    lemma_literals_search(pat, text, 0);
    if pat.len() > 0 {
        assert(pat[0] is Literal);
    }
    if pattern_matches(pat, text) {
        let i = choose|i: int| 0 <= i <= text.len() && word.is_prefix_of(#[trigger] text.skip(i));
        assert(text.subrange(i, i + word.len()) =~= text.skip(i).subrange(0, word.len() as int));
    }
    if occurs_in(word, text) {
        let i = choose|i: int|
            0 <= i && i + word.len() <= text.len() && #[trigger] text.subrange(i, i + word.len())
                == word;
        assert(text.subrange(i, i + word.len()) =~= text.skip(i).subrange(0, word.len() as int));
        assert(0 <= i <= text.len() && word.is_prefix_of(text.skip(i)));
    }
}

/// Parsing a stretch of characters without special meaning appends one
/// literal node for each of them.
pub proof fn lemma_plain_items(source: Seq<char>, pos: int, groups: int, acc: Seq<Node>)
    requires
        0 <= pos <= source.len(),
        forall|i: int| pos <= i < source.len() ==> !is_special(#[trigger] source[i]),
    ensures
        parse_items(source, pos, groups, acc, false) matches Ok(parsed) && {
            &&& parsed.next == source.len()
            &&& parsed.groups == groups
            &&& parsed.nodes.len() == acc.len() + source.len() - pos
            &&& parsed.nodes.subrange(0, acc.len() as int) == acc
            &&& forall|i: int|
                pos <= i < source.len() ==> (#[trigger] parsed.nodes[acc.len() + i - pos])
                    is Literal && parsed.nodes[acc.len() + i - pos]->Literal_0 == source[i]
        },
    decreases source.len() - pos,
{
    if pos >= source.len() {
        assert(acc.subrange(0, acc.len() as int) =~= acc);
    } else {
        let c = char_at(source, pos);
        let longer = acc.push(Node::Literal(c));
        assert(!is_special(source[pos]));
        lemma_plain_items(source, pos + 1, groups, longer);
        let parsed = parse_items(source, pos, groups, acc, false)->Ok_0;
        assert(parsed.nodes.subrange(0, acc.len() as int) =~= acc) by {
            assert forall|k: int| 0 <= k < acc.len() implies parsed.nodes[k] == acc[k] by {
                assert(parsed.nodes.subrange(0, longer.len() as int)[k] == longer[k]);
            }
        }
        assert forall|i: int| pos <= i < source.len() implies (
        #[trigger] parsed.nodes[acc.len() + i - pos]) is Literal && parsed.nodes[acc.len() + i
            - pos]->Literal_0 == source[i] by {
            if i == pos {
                assert(parsed.nodes.subrange(0, longer.len() as int)[acc.len() as int]
                    == longer[acc.len() as int]);
            } else {
                assert(parsed.nodes[longer.len() + i - (pos + 1)] is Literal);
            }
        }
    }
}

/// A source without special characters compiles to the pattern that spells
/// it with literal nodes, and so matches exactly the texts that contain it.
pub proof fn law_plain_source_matches_as_containment(source: Seq<char>, text: Seq<char>)
    requires
        forall|i: int| 0 <= i < source.len() ==> !is_special(#[trigger] source[i]),
    ensures
        parse(source) matches Ok(pat) && {
            &&& all_literals(pat)
            &&& literal_text(pat) == source
            &&& pattern_matches(pat, text) <==> occurs_in(source, text)
        },
{
    lemma_plain_items(source, 0, 0, Seq::empty());
    let pat = parse(source)->Ok_0;
    assert(all_literals(pat)) by {
        assert forall|i: int| 0 <= i < pat.len() implies #[trigger] pat[i] is Literal by {
            assert(pat[0 + i - 0] is Literal);
        }
    }
    assert(literal_text(pat) =~= source) by {
        assert forall|i: int| 0 <= i < pat.len() implies literal_text(pat)[i] == source[i] by {
            assert(pat[0 + i - 0]->Literal_0 == source[i]);
        }
    }
    law_literals_match_as_containment(pat, text);
}

/// A pattern of one node that stands for one character matches a text
/// exactly when the text holds a character that the node accepts.
pub proof fn law_single_node_matches_as_membership(node: Node, text: Seq<char>)
    requires
        node is Literal || node is AnyChar || node is DigitClass || node is WordClass
            || node is CharClass,
    ensures
        pattern_matches(seq![node], text) <==> exists|i: int|
            0 <= i < text.len() && char_matches(node, #[trigger] text[i]),
{
    lemma_single_node_search(node, text, 0);
}

/// The search for a one-character node from `offset` on.
pub proof fn lemma_single_node_search(node: Node, text: Seq<char>, offset: nat)
    requires
        node is Literal || node is AnyChar || node is DigitClass || node is WordClass
            || node is CharClass,
    ensures
        search_from(seq![node], text, offset) is Some <==> exists|i: int|
            offset <= i < text.len() && char_matches(node, #[trigger] text[i]),
    decreases text.len() + 1 - offset,
{
    if offset <= text.len() {
        let pat = seq![node];
        let here = text.skip(offset as int);
        lemma_single_node_search(node, text, offset + 1);
        assert(pat.skip(1).len() == 0);
        if here.len() > 0 {
            assert(here[0] == text[offset as int]);
            assert(matches_at(pat.skip(1), here.skip(1), Map::empty(), false) is Some);
        }
        if search_from(pat, text, offset) is Some {
            if matches_at(pat, here, Map::empty(), false) is Some {
                assert(char_matches(node, text[offset as int]));
            } else {
                let i = choose|i: int|
                    offset + 1 <= i < text.len() && char_matches(node, #[trigger] text[i]);
                assert(offset <= i < text.len() && char_matches(node, text[i]));
            }
        }
        if exists|i: int| offset <= i < text.len() && char_matches(node, #[trigger] text[i]) {
            let i = choose|i: int|
                offset <= i < text.len() && char_matches(node, #[trigger] text[i]);
            if i != offset {
                assert(offset + 1 <= i < text.len() && char_matches(node, text[i]));
            }
        }
    }
}

/// The numbers of the groups of a tree, in the order of their opening
/// parentheses.
pub open spec fn node_groups(n: Node) -> Seq<nat>
    decreases n,
{
    match n {
        Node::Optional(inner) => node_groups(*inner),
        Node::OneOrMore(inner) => node_groups(*inner),
        Node::Group(inner, number) => seq![number] + seq_groups(inner),
        Node::Alternation(left, right) => seq_groups(left) + seq_groups(right),
        _ => Seq::empty(),
    }
}

/// The numbers of the groups of a sequence of trees, in the order of their
/// opening parentheses.
pub open spec fn seq_groups(s: Seq<Node>) -> Seq<nat>
    decreases s,
{
    if s.len() == 0 {
        Seq::empty()
    } else {
        seq_groups(s.drop_last()) + node_groups(s.last())
    }
}

/// The numbers `lo + 1`, `lo + 2`, up to `hi`.
pub open spec fn numbers_between(lo: int, hi: int) -> Seq<nat> {
    Seq::new((hi - lo) as nat, |i: int| (lo + 1 + i) as nat)
}

/// Appending a tree appends its group numbers.
pub proof fn lemma_seq_groups_push(s: Seq<Node>, n: Node)
    ensures
        seq_groups(s.push(n)) == seq_groups(s) + node_groups(n),
{
    assert(s.push(n).drop_last() =~= s);
}

/// Wrapping the last tree in a quantifier keeps the group numbers.
pub proof fn lemma_seq_groups_quantified(s: Seq<Node>, wrapped: Node)
    requires
        s.len() > 0,
        node_groups(wrapped) == node_groups(s.last()),
    ensures
        seq_groups(s.drop_last().push(wrapped)) == seq_groups(s),
{
    lemma_seq_groups_push(s.drop_last(), wrapped);
}

/// Parsing appends to the group numbers of `acc` the numbers behind
/// `groups`, one by one, up to the count it hands back.
pub proof fn lemma_items_number_groups(
    chars: Seq<char>,
    pos: int,
    groups: int,
    acc: Seq<Node>,
    nested: bool,
)
    requires
        0 <= pos,
        0 <= groups,
    ensures
        parse_items(chars, pos, groups, acc, nested) matches Ok(parsed) ==> {
            &&& groups <= parsed.groups
            &&& seq_groups(parsed.nodes) == seq_groups(acc) + numbers_between(groups, parsed.groups)
        },
    decreases chars.len() - pos, 0nat,
{
    if pos >= chars.len() {
        assert(seq_groups(acc) + numbers_between(groups, groups) =~= seq_groups(acc));
    } else {
        let c = char_at(chars, pos);
        if nested && (c == '|' || c == ')') {
            assert(seq_groups(acc) + numbers_between(groups, groups) =~= seq_groups(acc));
        } else if c == '^' {
            lemma_seq_groups_push(acc, Node::StartAnchor);
            lemma_items_number_groups(chars, pos + 1, groups, acc.push(Node::StartAnchor), nested);
            assert(seq_groups(acc) + node_groups(Node::StartAnchor) =~= seq_groups(acc));
        } else if c == '$' {
            lemma_seq_groups_push(acc, Node::EndAnchor);
            lemma_items_number_groups(chars, pos + 1, groups, acc.push(Node::EndAnchor), nested);
            assert(seq_groups(acc) + node_groups(Node::EndAnchor) =~= seq_groups(acc));
        } else if c == '.' {
            lemma_seq_groups_push(acc, Node::AnyChar);
            lemma_items_number_groups(chars, pos + 1, groups, acc.push(Node::AnyChar), nested);
            assert(seq_groups(acc) + node_groups(Node::AnyChar) =~= seq_groups(acc));
        } else if c == '\\' {
            if pos + 1 < chars.len() {
                match escape_node(chars[pos + 1]) {
                    Ok(node) => {
                        lemma_seq_groups_push(acc, node);
                        lemma_items_number_groups(chars, pos + 2, groups, acc.push(node), nested);
                        assert(seq_groups(acc) + node_groups(node) =~= seq_groups(acc));
                    },
                    Err(e) => {},
                }
            }
        } else if c == '[' {
            let negated = pos + 1 < chars.len() && chars[pos + 1] == '^';
            let start = if negated {
                pos + 2
            } else {
                pos + 1
            };
            lemma_class_progress(chars, start, Seq::empty());
            match class_members(chars, start, Seq::empty()) {
                Ok((members, close)) => {
                    let node = Node::CharClass(members, negated);
                    lemma_seq_groups_push(acc, node);
                    lemma_items_number_groups(chars, close + 1, groups, acc.push(node), nested);
                    assert(seq_groups(acc) + node_groups(node) =~= seq_groups(acc));
                },
                Err(e) => {},
            }
        } else if c == '(' {
            lemma_group_progress(chars, pos + 1, groups + 1);
            lemma_group_numbers_groups(chars, pos + 1, groups + 1);
            match parse_group(chars, pos + 1, groups + 1) {
                Ok(group) => {
                    lemma_seq_groups_push(acc, group.node);
                    lemma_items_number_groups(
                        chars,
                        group.close + 1,
                        group.groups,
                        acc.push(group.node),
                        nested,
                    );
                    match parse_items(chars, pos, groups, acc, nested) {
                        Ok(parsed) => {
                            assert(numbers_between(groups, group.groups) + numbers_between(
                                group.groups,
                                parsed.groups,
                            ) =~= numbers_between(groups, parsed.groups));
                            assert((seq_groups(acc) + numbers_between(groups, group.groups))
                                + numbers_between(group.groups, parsed.groups) =~= seq_groups(acc)
                                + numbers_between(groups, parsed.groups));
                        },
                        Err(e) => {},
                    }
                },
                Err(e) => {},
            }
        } else if c == '?' {
            if acc.len() > 0 {
                let wrapped = Node::Optional(Box::new(acc.last()));
                lemma_seq_groups_quantified(acc, wrapped);
                lemma_items_number_groups(
                    chars,
                    pos + 1,
                    groups,
                    acc.drop_last().push(wrapped),
                    nested,
                );
            }
        } else if c == '+' {
            if acc.len() > 0 {
                let wrapped = Node::OneOrMore(Box::new(acc.last()));
                lemma_seq_groups_quantified(acc, wrapped);
                lemma_items_number_groups(
                    chars,
                    pos + 1,
                    groups,
                    acc.drop_last().push(wrapped),
                    nested,
                );
            }
        } else {
            lemma_seq_groups_push(acc, Node::Literal(c));
            lemma_items_number_groups(chars, pos + 1, groups, acc.push(Node::Literal(c)), nested);
            assert(seq_groups(acc) + node_groups(Node::Literal(c)) =~= seq_groups(acc));
        }
    }
}

/// A parsed group holds its own number and then, one by one, the numbers of
/// the groups inside it, up to the count it hands back.
pub proof fn lemma_group_numbers_groups(chars: Seq<char>, start: int, number: int)
    requires
        0 <= start,
        1 <= number,
    ensures
        parse_group(chars, start, number) matches Ok(group) ==> {
            &&& number <= group.groups
            &&& node_groups(group.node) == numbers_between(number - 1, group.groups)
        },
    decreases chars.len() - start, 1nat,
{
    lemma_parse_progress(chars, start, number, Seq::empty(), true);
    lemma_items_number_groups(chars, start, number, Seq::empty(), true);
    match parse_items(chars, start, number, Seq::empty(), true) {
        Err(e) => {},
        Ok(left) => {
            assert(seq![number as nat] + (Seq::<nat>::empty() + numbers_between(
                number,
                left.groups,
            )) =~= numbers_between(number - 1, left.groups));
            if left.next < chars.len() && chars[left.next] == '|' {
                lemma_items_number_groups(chars, left.next + 1, left.groups, Seq::empty(), true);
                match parse_items(chars, left.next + 1, left.groups, Seq::empty(), true) {
                    Err(e) => {},
                    Ok(right) => {
                        let arms = Node::Alternation(left.nodes, right.nodes);
                        lemma_seq_groups_push(Seq::empty(), arms);
                        assert(Seq::<Node>::empty().push(arms) =~= seq![arms]);
                        assert(seq![number as nat] + (Seq::<nat>::empty() + ((Seq::<nat>::empty()
                            + numbers_between(number, left.groups)) + (Seq::<nat>::empty()
                            + numbers_between(left.groups, right.groups)))) =~= numbers_between(
                            number - 1,
                            right.groups,
                        ));
                    },
                }
            }
        },
    }
}

/// The groups of a compiled pattern are numbered 1, 2, 3 and so on in the
/// order of their opening parentheses.
pub proof fn law_groups_are_numbered_in_order(source: Seq<char>)
    ensures
        parse(source) matches Ok(pat) ==> forall|i: int|
            0 <= i < seq_groups(pat).len() ==> #[trigger] seq_groups(pat)[i] == i + 1,
{
    lemma_items_number_groups(source, 0, 0, Seq::empty(), false);
}

/// Compiling is a function of the source: two outcomes of compiling one
/// source are both errors, and then the same error, or both patterns, and
/// then they give the same answer and the same captures on every text.
pub proof fn law_compile_is_deterministic(
    source: Seq<char>,
    first: Result<Vec<RE>, ParseError>,
    second: Result<Vec<RE>, ParseError>,
    text: Seq<char>,
)
    requires
        pattern_outcome(first) == parse(source),
        pattern_outcome(second) == parse(source),
    ensures
        first is Ok <==> second is Ok,
        first is Err ==> first->Err_0 == second->Err_0,
        first is Ok ==> {
            &&& nodes_of(first->Ok_0@) == nodes_of(second->Ok_0@)
            &&& pattern_matches(nodes_of(first->Ok_0@), text) == pattern_matches(nodes_of(second->Ok_0@), text)
            &&& pattern_captures(nodes_of(first->Ok_0@), text) == pattern_captures(nodes_of(second->Ok_0@), text)
        },
{
}

/// An arm of an alternation that fails leaves no trace: the alternation
/// then gives what its right arm gives from the captures the alternation
/// was entered with, whatever the left arm had recorded on its way.
pub proof fn law_failed_arm_leaves_no_trace(
    left: Seq<Node>,
    right: Seq<Node>,
    rest: Seq<Node>,
    text: Seq<char>,
    caps: Captures,
    full: bool,
)
    requires
        matches_arm(left, text, caps, full) is None,
    ensures
        matches_at(seq![Node::Alternation(left, right)] + rest, text, caps, full) == matches_arm(
            right,
            text,
            caps,
            full,
        ),
{
}

/// A candidate length of a group that fails leaves no trace: the group then
/// gives what the next candidate length gives from the captures the group
/// was entered with.
pub proof fn law_failed_group_length_leaves_no_trace(
    inner: Seq<Node>,
    number: nat,
    rest: Seq<Node>,
    text: Seq<char>,
    caps: Captures,
    full: bool,
    len: nat,
)
    requires
        len <= text.len(),
        matches_group_len(inner, number, rest, text, caps, full, len) is None,
    ensures
        matches_group(inner, number, rest, text, caps, full, len) == matches_group(
            inner,
            number,
            rest,
            text,
            caps,
            full,
            len + 1,
        ),
{
}

/// A backreference to a group without a recorded capture fails.
pub proof fn law_backreference_needs_capture(
    number: nat,
    rest: Seq<Node>,
    text: Seq<char>,
    caps: Captures,
    full: bool,
)
    requires
        !caps.contains_key(number),
    ensures
        matches_at(seq![Node::Backreference(number)] + rest, text, caps, full) is None,
{
}

} // verus!

//! What it means for a pattern to match: the backtracking search written as
//! recursive functions on the model.
use vstd::prelude::*;
use crate::ast::{lemma_node_size_positive, seq_size, Node};
use crate::classes::char_matches;

verus! {

/// The captures of one match attempt: group number to captured text.
pub type Captures = Map<nat, Seq<char>>;

/// The length of the longest run of characters at the start of `text` that
/// `node` accepts.
pub open spec fn run_length(node: Node, text: Seq<char>) -> nat
    decreases text.len(),
{
    if text.len() > 0 && char_matches(node, text[0]) {
        1 + run_length(node, text.skip(1))
    } else {
        0
    }
}

/// Matches `pat` against a prefix of `text`, or against all of `text` where
/// `full` is set, starting from the captures `caps`.  The result is the
/// captures after the first successful way to match, or `None`.
///
/// - The empty pattern is satisfied (with `full`: only by the empty text).
/// - `EndAnchor` succeeds exactly when no text is left; nodes behind it are
///   not consulted.
/// - `StartAnchor` is only honoured at the head of a sequence (see
///   [`matches_arm`] and [`search`]); anywhere else it fails.
/// - A one-character node consumes one accepted character.
/// - `Optional` first skips, then consumes one accepted character.
/// - `OneOrMore` takes the longest run and gives characters back one by one.
/// - `Group` tries prefix lengths in increasing order (see
///   [`matches_group`]).
/// - `Alternation` tries its left arm, then its right arm, each from the
///   captures it was entered with; the arm completes the match, nodes behind
///   the alternation are not consulted.
/// - `Backreference` needs a recorded capture and consumes that text.
pub open spec fn matches_at(pat: Seq<Node>, text: Seq<char>, caps: Captures, full: bool) -> Option<
    Captures,
>
    decreases seq_size(pat), 0nat, 0nat,
{
    if pat.len() == 0 {
        if full && text.len() > 0 {
            None
        } else {
            Some(caps)
        }
    } else {
        let rest = pat.skip(1);
        proof {
            lemma_node_size_positive(pat[0]);
        }
        match pat[0] {
            Node::EndAnchor => if text.len() == 0 {
                Some(caps)
            } else {
                None
            },
            Node::StartAnchor => None,
            Node::Optional(inner) => match matches_at(rest, text, caps, full) {
                Some(c) => Some(c),
                None => if text.len() > 0 && char_matches(*inner, text[0]) {
                    matches_at(rest, text.skip(1), caps, full)
                } else {
                    None
                },
            },
            Node::OneOrMore(inner) => matches_run(rest, text, caps, full, run_length(*inner, text)),
            Node::Group(inner, number) => matches_group(inner, number, rest, text, caps, full, 0),
            Node::Alternation(left, right) => match matches_arm(left, text, caps, full) {
                Some(c) => Some(c),
                None => matches_arm(right, text, caps, full),
            },
            Node::Backreference(number) => if caps.contains_key(number) && caps[number].is_prefix_of(
                text,
            ) {
                matches_at(rest, text.skip(caps[number].len() as int), caps, full)
            } else {
                None
            },
            node => if text.len() > 0 && char_matches(node, text[0]) {
                matches_at(rest, text.skip(1), caps, full)
            } else {
                None
            },
        }
    }
}

/// Matches a sequence that stands on its own (the inside of a group, an arm
/// of an alternation): a leading `StartAnchor` holds where the sequence is
/// tried.
pub open spec fn matches_arm(pat: Seq<Node>, text: Seq<char>, caps: Captures, full: bool) -> Option<
    Captures,
>
    decreases seq_size(pat), 1nat, 0nat,
{
    if pat.len() > 0 && pat[0] is StartAnchor {
        matches_at(pat.skip(1), text, caps, full)
    } else {
        matches_at(pat, text, caps, full)
    }
}

/// After a run of `count` accepted characters: tries `rest` behind `count`
/// characters, then behind `count - 1`, down to one.
pub open spec fn matches_run(
    rest: Seq<Node>,
    text: Seq<char>,
    caps: Captures,
    full: bool,
    count: nat,
) -> Option<Captures>
    decreases seq_size(rest), 1nat, count,
{
    if count == 0 || count > text.len() {
        None
    } else {
        match matches_at(rest, text.skip(count as int), caps, full) {
            Some(c) => Some(c),
            None => matches_run(rest, text, caps, full, (count - 1) as nat),
        }
    }
}

/// One candidate length of a group: `inner` must match the first `len`
/// characters of `text` exactly; then that prefix is recorded under `number`
/// and `rest` must match what follows.  Anchors inside the group refer to
/// that prefix: its start and its end.
pub open spec fn matches_group_len(
    inner: Seq<Node>,
    number: nat,
    rest: Seq<Node>,
    text: Seq<char>,
    caps: Captures,
    full: bool,
    len: nat,
) -> Option<Captures>
    decreases seq_size(inner) + seq_size(rest), 2nat, 0nat,
{
    match matches_arm(inner, text.take(len as int), caps, true) {
        Some(c) => matches_at(rest, text.skip(len as int), c.insert(number, text.take(len as int)), full),
        None => None,
    }
}

/// A group followed by `rest`: the first candidate length from `len` up to
/// the length of `text` that succeeds.
pub open spec fn matches_group(
    inner: Seq<Node>,
    number: nat,
    rest: Seq<Node>,
    text: Seq<char>,
    caps: Captures,
    full: bool,
    len: nat,
) -> Option<Captures>
    decreases seq_size(inner) + seq_size(rest), 3nat, text.len() + 1 - len,
{
    if len > text.len() {
        None
    } else {
        match matches_group_len(inner, number, rest, text, caps, full, len) {
            Some(c) => Some(c),
            None => matches_group(inner, number, rest, text, caps, full, len + 1),
        }
    }
}

/// The unanchored search: the first offset from `offset` up to the length of
/// `text` at which `pat` matches, each attempt starting without captures.
pub open spec fn search_from(pat: Seq<Node>, text: Seq<char>, offset: nat) -> Option<Captures>
    decreases text.len() + 1 - offset,
{
    if offset > text.len() {
        None
    } else {
        match matches_at(pat, text.skip(offset as int), Map::empty(), false) {
            Some(c) => Some(c),
            None => search_from(pat, text, offset + 1),
        }
    }
}

/// The top-level match: a pattern that begins with `StartAnchor` is tried
/// once at offset 0, any other pattern at every offset in turn.
pub open spec fn search(pat: Seq<Node>, text: Seq<char>) -> Option<Captures> {
    if pat.len() > 0 && pat[0] is StartAnchor {
        matches_at(pat.skip(1), text, Map::empty(), false)
    } else {
        search_from(pat, text, 0)
    }
}

} // verus!

//! Character predicates shared by the matcher and the quantifier logic.
use vstd::prelude::*;
use crate::ast::Node;

verus! {

/// Whether `c` is one of the ASCII decimal digits `0` to `9`.
pub open spec fn is_digit(c: char) -> bool {
    '0' <= c && c <= '9'
}

/// Whether `char::is_alphanumeric` holds of `c`: the Unicode properties
/// Alphabetic, Nd, Nl and No, which are tables too long to write out here.
pub uninterp spec fn is_alphanumeric(c: char) -> bool;

/// Whether a node that stands for exactly one character accepts `c`.  Every
/// other node (anchors, quantified nodes, groups, alternations,
/// backreferences) accepts no character.
pub open spec fn char_matches(node: Node, c: char) -> bool {
    match node {
        Node::Literal(ch) => ch == c,
        Node::AnyChar => true,
        Node::DigitClass => is_digit(c),
        Node::WordClass => is_alphanumeric(c),
        Node::CharClass(members, negated) => members.contains(c) != negated,
        _ => false,
    }
}

/// Calls `char::is_alphanumeric`.  Its result is named `is_alphanumeric`;
/// nothing else is claimed of it.
#[verifier::external_body]
pub(crate) fn char_is_alphanumeric(c: char) -> (b: bool)
    ensures
        b == is_alphanumeric(c),
{
    c.is_alphanumeric()
}

/// Whether `c` is an ASCII decimal digit.
pub fn char_is_digit(c: char) -> (b: bool)
    ensures
        b == is_digit(c),
{
    '0' <= c && c <= '9'
}

/// Whether `c` occurs in `members`.
pub fn class_contains(members: &Vec<char>, c: char) -> (b: bool)
    ensures
        b == members@.contains(c),
{
    let mut i: usize = 0;
    while i < members.len()
        invariant
            i <= members.len(),
            forall|j: int| 0 <= j < i ==> members@[j] != c,
        decreases members.len() - i,
    {
        if members[i] == c {
            return true;
        }
        i += 1;
    }
    false
}

} // verus!

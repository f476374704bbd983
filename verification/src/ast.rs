//! The pattern tree, its mathematical model, and the compile errors.
use vstd::prelude::*;

verus! {

/// One node of a compiled pattern.  A pattern is a `Vec<RE>`, read as the
/// concatenation of its nodes.
#[derive(Debug, PartialEq, Eq)]
pub enum RE {
    /// A literal character.
    Literal(char),
    /// `.`: any one character.
    AnyChar,
    /// `^`: the start of the text.
    StartAnchor,
    /// `$`: the end of the text.
    EndAnchor,
    /// `[...]` or, with the flag set, `[^...]`.
    CharClass(Vec<char>, bool),
    /// `\d`: an ASCII decimal digit.
    DigitClass,
    /// `\w`: an alphanumeric character.
    WordClass,
    /// `x?`.
    Optional(Box<RE>),
    /// `x+`.
    OneOrMore(Box<RE>),
    /// `(...)` with the number of the group.
    Group(Vec<RE>, usize),
    /// `left|right`.
    Alternation(Vec<RE>, Vec<RE>),
    /// `\1` to `\9`.
    Backreference(usize),
}

/// Why a pattern was rejected.
#[derive(Debug, Clone, Copy, PartialEq, Eq)]
pub enum ParseError {
    /// A backslash followed by a character that is no known escape.
    UnsupportedEscape(char),
    /// A `[` without its closing `]`.
    UnterminatedCharacterClass,
    /// A `?` or `+` with nothing before it.
    DanglingQuantifier,
    /// A `(` without its closing `)`.
    UnmatchedParenthesis,
    /// A second `|` inside one group.
    InvalidAlternationSyntax,
    /// A backslash as the last character of the pattern.
    IncompleteEscapeAtEndOfPattern,
}

/// The mathematical model of an [`RE`]: the same tree over `Seq`, `Set`-like
/// membership lists and `nat`.
pub ghost enum Node {
    Literal(char),
    AnyChar,
    StartAnchor,
    EndAnchor,
    CharClass(Seq<char>, bool),
    DigitClass,
    WordClass,
    Optional(Box<Node>),
    OneOrMore(Box<Node>),
    Group(Seq<Node>, nat),
    Alternation(Seq<Node>, Seq<Node>),
    Backreference(nat),
}

/// The model of one node.
pub open spec fn node_of(r: RE) -> Node
    decreases r,
{
    match r {
        RE::Literal(c) => Node::Literal(c),
        RE::AnyChar => Node::AnyChar,
        RE::StartAnchor => Node::StartAnchor,
        RE::EndAnchor => Node::EndAnchor,
        RE::CharClass(members, negated) => Node::CharClass(members@, negated),
        RE::DigitClass => Node::DigitClass,
        RE::WordClass => Node::WordClass,
        RE::Optional(inner) => Node::Optional(Box::new(node_of(*inner))),
        RE::OneOrMore(inner) => Node::OneOrMore(Box::new(node_of(*inner))),
        RE::Group(inner, number) => Node::Group(nodes_of(inner@), number as nat),
        RE::Alternation(left, right) => Node::Alternation(nodes_of(left@), nodes_of(right@)),
        RE::Backreference(number) => Node::Backreference(number as nat),
    }
}

/// The model of a sequence of nodes, node by node.
pub open spec fn nodes_of(s: Seq<RE>) -> Seq<Node>
    decreases s,
{
    if s.len() == 0 {
        Seq::empty()
    } else {
        nodes_of(s.drop_last()).push(node_of(s.last()))
    }
}

impl View for RE {
    type V = Node;

    open spec fn view(&self) -> Node {
        node_of(*self)
    }
}

/// `nodes_of` keeps the length and maps each position on its own.
pub proof fn lemma_nodes_of_index(s: Seq<RE>)
    ensures
        nodes_of(s).len() == s.len(),
        forall|i: int| 0 <= i < s.len() ==> #[trigger] nodes_of(s)[i] == node_of(s[i]),
    decreases s.len(),
{
    if s.len() > 0 {
        lemma_nodes_of_index(s.drop_last());
    }
}

/// `nodes_of` commutes with taking a subrange.
pub proof fn lemma_nodes_of_subrange(s: Seq<RE>, from: int, to: int)
    requires
        0 <= from <= to <= s.len(),
    ensures
        nodes_of(s.subrange(from, to)) == nodes_of(s).subrange(from, to),
{
    lemma_nodes_of_index(s);
    lemma_nodes_of_index(s.subrange(from, to));
}

/// `nodes_of` commutes with appending one node.
pub proof fn lemma_nodes_of_push(s: Seq<RE>, r: RE)
    ensures
        nodes_of(s.push(r)) == nodes_of(s).push(node_of(r)),
{
    assert(s.push(r).drop_last() =~= s);
}

/// A copy of the characters of `v`.
pub fn duplicate_chars(v: &Vec<char>) -> (r: Vec<char>)
    ensures
        r@ == v@,
{
    let mut r: Vec<char> = Vec::new();
    let mut i: usize = 0;
    while i < v.len()
        invariant
            i <= v.len(),
            r@ == v@.subrange(0, i as int),
        decreases v.len() - i,
    {
        r.push(v[i]);
        assert(v@.subrange(0, i as int).push(v@[i as int]) =~= v@.subrange(0, i + 1));
        i += 1;
    }
    assert(v@.subrange(0, v.len() as int) =~= v@);
    r
}

/// A copy of the nodes of `v`, each with all that is below it.
pub fn duplicate_all(v: &Vec<RE>) -> (r: Vec<RE>)
    ensures
        nodes_of(r@) == nodes_of(v@),
    decreases v,
{
    let mut r: Vec<RE> = Vec::new();
    let mut i: usize = 0;
    while i < v.len()
        invariant
            i <= v.len(),
            nodes_of(r@) == nodes_of(v@.subrange(0, i as int)),
        decreases v.len() - i,
    {
        let copy = v[i].duplicate();
        proof {
            lemma_nodes_of_push(r@, copy);
            lemma_nodes_of_push(v@.subrange(0, i as int), v@[i as int]);
            assert(v@.subrange(0, i as int).push(v@[i as int]) =~= v@.subrange(0, i + 1));
        }
        r.push(copy);
        i += 1;
    }
    assert(v@.subrange(0, v.len() as int) =~= v@);
    r
}

impl RE {
    /// A copy of this node with all that is below it.
    pub fn duplicate(&self) -> (r: RE)
        ensures
            r@ == self@,
        decreases self,
    {
        match self {
            RE::Literal(c) => RE::Literal(*c),
            RE::AnyChar => RE::AnyChar,
            RE::StartAnchor => RE::StartAnchor,
            RE::EndAnchor => RE::EndAnchor,
            RE::CharClass(members, negated) => RE::CharClass(duplicate_chars(members), *negated),
            RE::DigitClass => RE::DigitClass,
            RE::WordClass => RE::WordClass,
            RE::Optional(inner) => RE::Optional(Box::new(inner.duplicate())),
            RE::OneOrMore(inner) => RE::OneOrMore(Box::new(inner.duplicate())),
            RE::Group(inner, number) => RE::Group(duplicate_all(inner), *number),
            RE::Alternation(left, right) => RE::Alternation(
                duplicate_all(left),
                duplicate_all(right),
            ),
            RE::Backreference(number) => RE::Backreference(*number),
        }
    }
}

impl Clone for RE {
    fn clone(&self) -> (r: RE)
        ensures
            r@ == self@,
    {
        self.duplicate()
    }
}

/// The number of nodes in a tree, the root included.
pub open spec fn node_size(n: Node) -> nat
    decreases n,
{
    match n {
        Node::Optional(inner) => 1 + node_size(*inner),
        Node::OneOrMore(inner) => 1 + node_size(*inner),
        Node::Group(inner, _) => 1 + seq_size(inner),
        Node::Alternation(left, right) => 1 + seq_size(left) + seq_size(right),
        _ => 1,
    }
}

/// Every tree has at least its root.
pub proof fn lemma_node_size_positive(n: Node)
    ensures
        node_size(n) >= 1,
{
}

/// The number of nodes in a sequence of trees.
pub open spec fn seq_size(s: Seq<Node>) -> nat
    decreases s,
{
    if s.len() == 0 {
        0
    } else {
        node_size(s[0]) + seq_size(s.skip(1))
    }
}

} // verus!

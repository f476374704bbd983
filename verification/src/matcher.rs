//! The backtracking matcher.
use std::collections::HashMap;
use vstd::prelude::*;
use vstd::slice::slice_subrange;
use crate::ast::{
    lemma_nodes_of_index, lemma_nodes_of_subrange, node_of, node_size, nodes_of, seq_size, RE,
};
use crate::classes::{char_is_alphanumeric, char_is_digit, char_matches, class_contains};
use crate::semantics::{
    matches_arm, matches_at, matches_group, matches_group_len, matches_run, run_length, search,
    search_from, Captures,
};
use crate::text::{chars_of, string_of};

verus! {

broadcast use vstd::std_specs::hash::group_hash_axioms;

/// The model of a capture store: group number to captured text.
pub open spec fn captures_of(m: Map<usize, String>) -> Captures {
    Map::new(
        |k: nat| k <= usize::MAX && m.contains_key(k as usize),
        |k: nat| m[k as usize]@,
    )
}

/// The model of the outcome of a match attempt.
pub open spec fn outcome_of(r: Option<HashMap<usize, String>>) -> Option<Captures> {
    match r {
        Some(m) => Some(captures_of(m@)),
        None => None,
    }
}

/// Recording a capture in the store records it in the model.
pub proof fn lemma_captures_insert(m: Map<usize, String>, k: usize, s: String)
    ensures
        captures_of(m.insert(k, s)) == captures_of(m).insert(k as nat, s@),
{
}

/// The empty store has the empty model.
pub proof fn lemma_captures_empty()
    ensures
        captures_of(Map::<usize, String>::empty()) == Map::<nat, Seq<char>>::empty(),
{
}

/// What holds of a non-empty pattern and its model.
pub proof fn lemma_pattern_head(p: Seq<RE>)
    requires
        p.len() > 0,
    ensures
        nodes_of(p).len() == p.len(),
        nodes_of(p)[0] == node_of(p[0]),
        nodes_of(p).skip(1) == nodes_of(p.subrange(1, p.len() as int)),
        seq_size(nodes_of(p)) == node_size(node_of(p[0])) + seq_size(
            nodes_of(p.subrange(1, p.len() as int)),
        ),
{
    lemma_nodes_of_index(p);
    lemma_nodes_of_subrange(p, 1, p.len() as int);
}

/// The state of one match: the text and the captures recorded so far.
pub struct MatchContext {
    pub text: Vec<char>,
    pub captures: HashMap<usize, String>,
}

impl MatchContext {
    /// A context over `text` with no captures.
    pub fn new(text: &str) -> (ctx: MatchContext)
        ensures
            ctx.text@ == text@,
            ctx.captures@ == Map::<usize, String>::empty(),
    {
        MatchContext { text: chars_of(text), captures: HashMap::new() }
    }

    /// Whether a one-character node accepts `c`.
    pub fn matches_char(&self, re: &RE, c: char) -> (b: bool)
        ensures
            b == char_matches(re@, c),
    {
        match re {
            RE::Literal(ch) => *ch == c,
            RE::AnyChar => true,
            RE::DigitClass => char_is_digit(c),
            RE::WordClass => char_is_alphanumeric(c),
            RE::CharClass(members, negated) => class_contains(members, c) != *negated,
            _ => false,
        }
    }

    /// The length of the longest run of characters of `text[pos..end]`,
    /// counted from `pos`, that `node` accepts.
    pub fn run_length_at(&self, node: &RE, pos: usize, end: usize) -> (count: usize)
        requires
            pos <= end <= self.text@.len(),
        ensures
            count == run_length(node@, self.text@.subrange(pos as int, end as int)),
            pos + count <= end,
    {
        let mut count: usize = 0;
        while pos + count < end && self.matches_char(node, self.text[pos + count])
            invariant
                pos <= end <= self.text@.len(),
                pos + count <= end,
                run_length(node@, self.text@.subrange(pos as int, end as int)) == count
                    + run_length(node@, self.text@.subrange(pos + count, end as int)),
            decreases end - pos - count,
        {
            assert(self.text@.subrange(pos + count, end as int).skip(1) =~= self.text@.subrange(
                pos + count + 1,
                end as int,
            ));
            count += 1;
        }
        count
    }

    /// Whether `text[pos..end]` begins with `prefix`.
    pub fn starts_with_at(&self, prefix: &Vec<char>, pos: usize, end: usize) -> (b: bool)
        requires
            pos <= end <= self.text@.len(),
        ensures
            b == prefix@.is_prefix_of(self.text@.subrange(pos as int, end as int)),
    {
        if prefix.len() > end - pos {
            return false;
        }
        let ghost t = self.text@.subrange(pos as int, end as int);
        let mut i: usize = 0;
        while i < prefix.len()
            invariant
                pos <= end <= self.text@.len(),
                prefix.len() <= end - pos,
                i <= prefix.len(),
                t == self.text@.subrange(pos as int, end as int),
                forall|j: int| 0 <= j < i ==> prefix@[j] == t[j],
            decreases prefix.len() - i,
        {
            if prefix[i] != self.text[pos + i] {
                return false;
            }
            i += 1;
        }
        true
    }

    /// Matches `pattern` against `text[pos..end]` from the captures `caps`:
    /// [`matches_at`].
    pub fn match_here(
        &self,
        pattern: &[RE],
        pos: usize,
        end: usize,
        caps: HashMap<usize, String>,
        full: bool,
    ) -> (r: Option<HashMap<usize, String>>)
        requires
            pos <= end <= self.text@.len(),
        ensures
            outcome_of(r) == matches_at(
                nodes_of(pattern@),
                self.text@.subrange(pos as int, end as int),
                captures_of(caps@),
                full,
            ),
        decreases seq_size(nodes_of(pattern@)), 0nat, 0nat,
    {
        let ghost t = self.text@.subrange(pos as int, end as int);
        if pattern.len() == 0 {
            if full && pos < end {
                return None;
            } else {
                return Some(caps);
            }
        }
        let rest = slice_subrange(pattern, 1, pattern.len());
        proof {
            lemma_pattern_head(pattern@);
            if pos < end {
                assert(t.skip(1) =~= self.text@.subrange(pos + 1, end as int));
            }
        }
        match &pattern[0] {
            RE::EndAnchor => if pos == end {
                Some(caps)
            } else {
                None
            },
            RE::StartAnchor => None,
            RE::Optional(inner) => {
                match self.match_here(rest, pos, end, caps.clone(), full) {
                    Some(c) => Some(c),
                    None => {
                        if pos < end && self.matches_char(&**inner, self.text[pos]) {
                            self.match_here(rest, pos + 1, end, caps, full)
                        } else {
                            None
                        }
                    },
                }
            },
            RE::OneOrMore(inner) => {
                let count = self.run_length_at(&**inner, pos, end);
                self.match_run(rest, pos, end, caps, full, count)
            },
            RE::Group(inner, number) => self.match_group(
                inner.as_slice(),
                *number,
                rest,
                pos,
                end,
                caps,
                full,
            ),
            RE::Alternation(left, right) => {
                match self.match_arm(left.as_slice(), pos, end, caps.clone(), full) {
                    Some(c) => Some(c),
                    None => self.match_arm(right.as_slice(), pos, end, caps, full),
                }
            },
            RE::Backreference(number) => {
                let captured = match caps.get(number) {
                    Some(s) => Some(chars_of(s.as_str())),
                    None => None,
                };
                match captured {
                    Some(prefix) => {
                        if self.starts_with_at(&prefix, pos, end) {
                            assert(t.skip(prefix@.len() as int) =~= self.text@.subrange(
                                pos + prefix@.len(),
                                end as int,
                            ));
                            self.match_here(rest, pos + prefix.len(), end, caps, full)
                        } else {
                            None
                        }
                    },
                    None => None,
                }
            },
            node => {
                if pos < end && self.matches_char(node, self.text[pos]) {
                    self.match_here(rest, pos + 1, end, caps, full)
                } else {
                    None
                }
            },
        }
    }

    /// Matches a sequence that stands on its own: [`matches_arm`].
    pub fn match_arm(
        &self,
        pattern: &[RE],
        pos: usize,
        end: usize,
        caps: HashMap<usize, String>,
        full: bool,
    ) -> (r: Option<HashMap<usize, String>>)
        requires
            pos <= end <= self.text@.len(),
        ensures
            outcome_of(r) == matches_arm(
                nodes_of(pattern@),
                self.text@.subrange(pos as int, end as int),
                captures_of(caps@),
                full,
            ),
        decreases seq_size(nodes_of(pattern@)), 1nat, 0nat,
    {
        if pattern.len() > 0 {
            proof {
                lemma_pattern_head(pattern@);
            }
            if let RE::StartAnchor = &pattern[0] {
                let rest = slice_subrange(pattern, 1, pattern.len());
                return self.match_here(rest, pos, end, caps, full);
            }
        }
        self.match_here(pattern, pos, end, caps, full)
    }

    /// After a run of `count` accepted characters: [`matches_run`].
    pub fn match_run(
        &self,
        rest: &[RE],
        pos: usize,
        end: usize,
        caps: HashMap<usize, String>,
        full: bool,
        count: usize,
    ) -> (r: Option<HashMap<usize, String>>)
        requires
            pos <= end <= self.text@.len(),
            pos + count <= end,
        ensures
            outcome_of(r) == matches_run(
                nodes_of(rest@),
                self.text@.subrange(pos as int, end as int),
                captures_of(caps@),
                full,
                count as nat,
            ),
        decreases seq_size(nodes_of(rest@)), 1nat, 0nat,
    {
        let ghost t = self.text@.subrange(pos as int, end as int);
        let mut j: usize = count;
        while j > 0
            invariant
                pos <= end <= self.text@.len(),
                pos + count <= end,
                j <= count,
                t == self.text@.subrange(pos as int, end as int),
                matches_run(nodes_of(rest@), t, captures_of(caps@), full, count as nat)
                    == matches_run(nodes_of(rest@), t, captures_of(caps@), full, j as nat),
            decreases j,
        {
            assert(t.skip(j as int) =~= self.text@.subrange(pos + j, end as int));
            match self.match_here(rest, pos + j, end, caps.clone(), full) {
                Some(c) => {
                    return Some(c);
                },
                None => {},
            }
            j -= 1;
        }
        None
    }

    /// A group followed by `rest`: [`matches_group`] from length 0.
    pub fn match_group(
        &self,
        inner: &[RE],
        number: usize,
        rest: &[RE],
        pos: usize,
        end: usize,
        caps: HashMap<usize, String>,
        full: bool,
    ) -> (r: Option<HashMap<usize, String>>)
        requires
            pos <= end <= self.text@.len(),
        ensures
            outcome_of(r) == matches_group(
                nodes_of(inner@),
                number as nat,
                nodes_of(rest@),
                self.text@.subrange(pos as int, end as int),
                captures_of(caps@),
                full,
                0,
            ),
        decreases seq_size(nodes_of(inner@)) + seq_size(nodes_of(rest@)), 3nat, 0nat,
    {
        let ghost t = self.text@.subrange(pos as int, end as int);
        let avail: usize = end - pos;
        let mut len: usize = 0;
        loop
            invariant
                pos <= end <= self.text@.len(),
                avail == end - pos,
                len <= avail,
                t == self.text@.subrange(pos as int, end as int),
                matches_group(
                    nodes_of(inner@),
                    number as nat,
                    nodes_of(rest@),
                    t,
                    captures_of(caps@),
                    full,
                    0,
                ) == matches_group(
                    nodes_of(inner@),
                    number as nat,
                    nodes_of(rest@),
                    t,
                    captures_of(caps@),
                    full,
                    len as nat,
                ),
            decreases avail - len,
        {
            proof {
                assert(t.take(len as int) =~= self.text@.subrange(pos as int, pos + len));
                assert(t.skip(len as int) =~= self.text@.subrange(pos + len, end as int));
            }
            match self.match_arm(inner, pos, pos + len, caps.clone(), true) {
                Some(found) => {
                    let mut found = found;
                    let ghost before = found@;
                    let captured = string_of(&self.text, pos, pos + len);
                    proof {
                        lemma_captures_insert(before, number, captured);
                    }
                    found.insert(number, captured);
                    let after = self.match_here(rest, pos + len, end, found, full);
                    assert(outcome_of(after) == matches_group_len(
                        nodes_of(inner@),
                        number as nat,
                        nodes_of(rest@),
                        t,
                        captures_of(caps@),
                        full,
                        len as nat,
                    ));
                    match after {
                        Some(c) => {
                            return Some(c);
                        },
                        None => {},
                    }
                },
                None => {},
            }
            if len == avail {
                assert(matches_group(
                    nodes_of(inner@),
                    number as nat,
                    nodes_of(rest@),
                    t,
                    captures_of(caps@),
                    full,
                    (len + 1) as nat,
                ) is None);
                return None;
            }
            len += 1;
        }
    }

    /// The top-level match: [`search`].  Afterwards the context holds the
    /// captures of the match, or none where nothing matched.
    pub fn match_pattern(&mut self, pattern: &[RE]) -> (ok: bool)
        ensures
            ok == search(nodes_of(pattern@), old(self).text@) is Some,
            final(self).text@ == old(self).text@,
            captures_of(final(self).captures@) == match search(nodes_of(pattern@), old(self).text@) {
                Some(c) => c,
                None => Map::empty(),
            },
    {
        let found = self.search(pattern);
        match found {
            Some(c) => {
                self.captures = c;
                true
            },
            None => {
                self.captures = HashMap::new();
                false
            },
        }
    }

    /// The top-level match as a value: [`search`].
    pub fn search(&self, pattern: &[RE]) -> (r: Option<HashMap<usize, String>>)
        ensures
            outcome_of(r) == search(nodes_of(pattern@), self.text@),
    {
        let ghost t = self.text@;
        let end: usize = self.text.len();
        proof {
            lemma_captures_empty();
            assert(t.subrange(0, end as int) =~= t);
        }
        if pattern.len() > 0 {
            proof {
                lemma_pattern_head(pattern@);
            }
            if let RE::StartAnchor = &pattern[0] {
                let rest = slice_subrange(pattern, 1, pattern.len());
                return self.match_here(rest, 0, end, HashMap::new(), false);
            }
        }
        let mut offset: usize = 0;
        loop
            invariant
                end == self.text@.len(),
                offset <= end,
                t == self.text@,
                search(nodes_of(pattern@), t) == search_from(nodes_of(pattern@), t, 0),
                search_from(nodes_of(pattern@), t, 0) == search_from(
                    nodes_of(pattern@),
                    t,
                    offset as nat,
                ),
            decreases end - offset,
        {
            proof {
                lemma_captures_empty();
            }
            match self.match_here(pattern, offset, end, HashMap::new(), false) {
                Some(c) => {
                    return Some(c);
                },
                None => {},
            }
            if offset == end {
                assert(search_from(nodes_of(pattern@), t, (offset + 1) as nat) is None);
                return None;
            }
            offset += 1;
        }
    }
}

} // verus!

use regex_engine::{
    compile, parse_alternation, parse_char_class, parse_pattern, parse_sequence, ParseError,
    RegexEngine, RE,
};

fn chars(s: &str) -> Vec<char> {
    s.chars().collect()
}

fn lit(s: &str) -> Vec<RE> {
    s.chars().map(RE::Literal).collect()
}

#[test]
fn plain_characters_become_literals() {
    assert_eq!(compile("abc"), Ok(lit("abc")));
    assert_eq!(compile(""), Ok(vec![]));
    assert_eq!(compile("a*b"), Ok(lit("a*b")));
}

#[test]
fn anchors_and_wildcard_map_directly() {
    assert_eq!(
        compile("^a.$"),
        Ok(vec![RE::StartAnchor, RE::Literal('a'), RE::AnyChar, RE::EndAnchor])
    );
}

#[test]
fn escapes() {
    assert_eq!(compile("\\d"), Ok(vec![RE::DigitClass]));
    assert_eq!(compile("\\w"), Ok(vec![RE::WordClass]));
    assert_eq!(compile("\\\\"), Ok(vec![RE::Literal('\\')]));
    assert_eq!(compile("\\1"), Ok(vec![RE::Backreference(1)]));
    assert_eq!(compile("\\9"), Ok(vec![RE::Backreference(9)]));
    assert_eq!(
        compile("\\5x"),
        Ok(vec![RE::Backreference(5), RE::Literal('x')])
    );
}

#[test]
fn unsupported_escape_is_an_error() {
    assert_eq!(compile("\\x"), Err(ParseError::UnsupportedEscape('x')));
    assert_eq!(compile("\\0"), Err(ParseError::UnsupportedEscape('0')));
    assert_eq!(compile("ab\\."), Err(ParseError::UnsupportedEscape('.')));
    assert_eq!(compile("(\\q)"), Err(ParseError::UnsupportedEscape('q')));
}

#[test]
fn trailing_backslash_is_an_error() {
    assert_eq!(compile("\\"), Err(ParseError::IncompleteEscapeAtEndOfPattern));
    assert_eq!(compile("ab\\"), Err(ParseError::IncompleteEscapeAtEndOfPattern));
    assert_eq!(compile("(a\\"), Err(ParseError::IncompleteEscapeAtEndOfPattern));
}

#[test]
fn character_classes() {
    assert_eq!(compile("[abc]"), Ok(vec![RE::CharClass(chars("abc"), false)]));
    assert_eq!(compile("[^abc]"), Ok(vec![RE::CharClass(chars("abc"), true)]));
    assert_eq!(compile("[a-e]"), Ok(vec![RE::CharClass(chars("abcde"), false)]));
    assert_eq!(
        compile("[a-cx0-2]"),
        Ok(vec![RE::CharClass(chars("abcx012"), false)])
    );
    assert_eq!(compile("[^0-3]x"), Ok(vec![RE::CharClass(chars("0123"), true), RE::Literal('x')]));
}

#[test]
fn class_edge_cases() {
    // A range whose start lies behind its end has no members.
    assert_eq!(compile("[c-a]"), Ok(vec![RE::CharClass(vec![], false)]));
    assert_eq!(compile("[a-a]"), Ok(vec![RE::CharClass(vec!['a'], false)]));
    // A `-` in front of the closing bracket is a plain member.
    assert_eq!(compile("[a-]"), Ok(vec![RE::CharClass(chars("a-"), false)]));
    assert_eq!(compile("[]"), Ok(vec![RE::CharClass(vec![], false)]));
    assert_eq!(compile("[^]"), Ok(vec![RE::CharClass(vec![], true)]));
    // The first `]` closes the class.
    assert_eq!(
        compile("[]a]"),
        Ok(vec![RE::CharClass(vec![], false), RE::Literal('a'), RE::Literal(']')])
    );
    // Special characters are plain members inside a class.
    assert_eq!(compile("[.(?+$]"), Ok(vec![RE::CharClass(chars(".(?+$"), false)]));
}

#[test]
fn class_range_skips_what_is_no_character() {
    assert_eq!(
        compile("[\u{D7FE}-\u{E001}]"),
        Ok(vec![RE::CharClass(
            vec!['\u{D7FE}', '\u{D7FF}', '\u{E000}', '\u{E001}'],
            false
        )])
    );
}

#[test]
fn unterminated_class_is_an_error() {
    assert_eq!(compile("[abc"), Err(ParseError::UnterminatedCharacterClass));
    assert_eq!(compile("["), Err(ParseError::UnterminatedCharacterClass));
    assert_eq!(compile("[^"), Err(ParseError::UnterminatedCharacterClass));
    assert_eq!(compile("x[a-z"), Err(ParseError::UnterminatedCharacterClass));
    assert_eq!(compile("([a)"), Err(ParseError::UnterminatedCharacterClass));
}

#[test]
fn quantifiers_bind_to_the_node_before() {
    assert_eq!(
        compile("ab?"),
        Ok(vec![RE::Literal('a'), RE::Optional(Box::new(RE::Literal('b')))])
    );
    assert_eq!(
        compile("ab+c"),
        Ok(vec![
            RE::Literal('a'),
            RE::OneOrMore(Box::new(RE::Literal('b'))),
            RE::Literal('c')
        ])
    );
    assert_eq!(
        compile("[ab]+"),
        Ok(vec![RE::OneOrMore(Box::new(RE::CharClass(chars("ab"), false)))])
    );
    assert_eq!(
        compile("(ab)?"),
        Ok(vec![RE::Optional(Box::new(RE::Group(lit("ab"), 1)))])
    );
    assert_eq!(
        compile("a+?"),
        Ok(vec![RE::Optional(Box::new(RE::OneOrMore(Box::new(RE::Literal('a')))))])
    );
}

#[test]
fn dangling_quantifier_is_an_error() {
    assert_eq!(compile("?"), Err(ParseError::DanglingQuantifier));
    assert_eq!(compile("+a"), Err(ParseError::DanglingQuantifier));
    assert_eq!(compile("(?a)"), Err(ParseError::DanglingQuantifier));
    assert_eq!(compile("(a|+)"), Err(ParseError::DanglingQuantifier));
}

#[test]
fn groups_are_numbered_by_their_opening_parenthesis() {
    assert_eq!(
        compile("(a)(b)"),
        Ok(vec![RE::Group(lit("a"), 1), RE::Group(lit("b"), 2)])
    );
    assert_eq!(
        compile("((a)(b))(c)"),
        Ok(vec![
            RE::Group(vec![RE::Group(lit("a"), 2), RE::Group(lit("b"), 3)], 1),
            RE::Group(lit("c"), 4),
        ])
    );
    assert_eq!(compile("()"), Ok(vec![RE::Group(vec![], 1)]));
}

#[test]
fn alternation_is_wrapped_in_its_group() {
    assert_eq!(
        compile("(cat|dog)"),
        Ok(vec![RE::Group(vec![RE::Alternation(lit("cat"), lit("dog"))], 1)])
    );
    assert_eq!(
        compile("(|a)"),
        Ok(vec![RE::Group(vec![RE::Alternation(vec![], lit("a"))], 1)])
    );
    // Chained alternation needs a nested group.
    assert_eq!(
        compile("(a|(b|c))"),
        Ok(vec![RE::Group(
            vec![RE::Alternation(
                lit("a"),
                vec![RE::Group(vec![RE::Alternation(lit("b"), lit("c"))], 2)]
            )],
            1
        )])
    );
}

#[test]
fn second_bar_in_a_group_is_an_error() {
    assert_eq!(compile("(a|b|c)"), Err(ParseError::InvalidAlternationSyntax));
    assert_eq!(compile("(||)"), Err(ParseError::InvalidAlternationSyntax));
}

#[test]
fn unmatched_parenthesis_is_an_error() {
    assert_eq!(compile("(abc"), Err(ParseError::UnmatchedParenthesis));
    assert_eq!(compile("("), Err(ParseError::UnmatchedParenthesis));
    assert_eq!(compile("(a|b"), Err(ParseError::UnmatchedParenthesis));
    assert_eq!(compile("(a|"), Err(ParseError::UnmatchedParenthesis));
    assert_eq!(compile("((a)"), Err(ParseError::UnmatchedParenthesis));
}

#[test]
fn bar_and_closing_parenthesis_are_literals_at_the_top_level() {
    assert_eq!(compile("a|b"), Ok(lit("a|b")));
    assert_eq!(compile("a)"), Ok(lit("a)")));
    assert_eq!(
        compile("(a))"),
        Ok(vec![RE::Group(lit("a"), 1), RE::Literal(')')])
    );
}

#[test]
fn first_error_wins() {
    assert_eq!(compile("\\x[abc"), Err(ParseError::UnsupportedEscape('x')));
    assert_eq!(compile("[abc\\x"), Err(ParseError::UnterminatedCharacterClass));
    assert_eq!(compile("?("), Err(ParseError::DanglingQuantifier));
}

#[test]
fn parse_pattern_is_the_compiler() {
    assert_eq!(parse_pattern("a(b|c)+"), compile("a(b|c)+"));
    assert_eq!(parse_pattern("a(b"), compile("a(b"));
    assert_eq!(
        parse_pattern("\\d+"),
        Ok(vec![RE::OneOrMore(Box::new(RE::DigitClass))])
    );
}

#[test]
fn parse_char_class_returns_members_and_closing_position() {
    let text = chars("[a-c_]x");
    assert_eq!(parse_char_class(&text, 1), Ok((chars("abc_"), 5)));
    assert_eq!(parse_char_class(&text, 5), Ok((vec![], 5)));
    assert_eq!(
        parse_char_class(&text, 6),
        Err(ParseError::UnterminatedCharacterClass)
    );
    assert_eq!(
        parse_char_class(&text, 100),
        Err(ParseError::UnterminatedCharacterClass)
    );
}

#[test]
fn parse_sequence_stops_in_front_of_bar_and_parenthesis() {
    let text = chars("ab|cd)e");
    let mut i = 0;
    let mut groups = 0;
    assert_eq!(parse_sequence(&text, &mut i, &mut groups), Ok(lit("ab")));
    assert_eq!((i, groups), (2, 0));
    i = 3;
    assert_eq!(parse_sequence(&text, &mut i, &mut groups), Ok(lit("cd")));
    assert_eq!((i, groups), (5, 0));
    i = 6;
    assert_eq!(parse_sequence(&text, &mut i, &mut groups), Ok(lit("e")));
    assert_eq!((i, groups), (7, 0));
}

#[test]
fn parse_sequence_counts_groups_and_keeps_its_arguments_on_failure() {
    let text = chars("a(b)(c))");
    let mut i = 0;
    let mut groups = 4;
    assert_eq!(
        parse_sequence(&text, &mut i, &mut groups),
        Ok(vec![
            RE::Literal('a'),
            RE::Group(lit("b"), 5),
            RE::Group(lit("c"), 6)
        ])
    );
    assert_eq!((i, groups), (7, 6));

    let bad = chars("a(b)\\x");
    let mut i = 0;
    let mut groups = 0;
    assert_eq!(
        parse_sequence(&bad, &mut i, &mut groups),
        Err(ParseError::UnsupportedEscape('x'))
    );
    assert_eq!((i, groups), (0, 0));
}

#[test]
fn parse_alternation_returns_the_group_and_its_closing_position() {
    let text = chars("(cat|dog)s");
    let mut groups = 0;
    assert_eq!(
        parse_alternation(&text, 1, &mut groups),
        Ok((RE::Group(vec![RE::Alternation(lit("cat"), lit("dog"))], 1), 8))
    );
    assert_eq!(groups, 1);

    let text = chars("(a(b))");
    let mut groups = 2;
    assert_eq!(
        parse_alternation(&text, 1, &mut groups),
        Ok((RE::Group(vec![RE::Literal('a'), RE::Group(lit("b"), 4)], 3), 5))
    );
    assert_eq!(groups, 4);

    let text = chars("(a(b)");
    let mut groups = 2;
    assert_eq!(
        parse_alternation(&text, 1, &mut groups),
        Err(ParseError::UnmatchedParenthesis)
    );
    assert_eq!(groups, 2);
}

#[test]
fn engine_compiles_or_reports() {
    let engine = RegexEngine::new("a(b|c)").unwrap();
    assert_eq!(engine.pattern, compile("a(b|c)").unwrap());
    assert_eq!(
        RegexEngine::new("a(b|c").err(),
        Some(ParseError::UnmatchedParenthesis)
    );
}

#[test]
fn compiling_twice_gives_the_same_tree() {
    for source in ["^(a|b)+\\1$", "[a-f0-9]+x?", "((a)(b|c))\\3", "(a"] {
        assert_eq!(compile(source), compile(source));
    }
}

#[test]
fn a_copy_of_a_tree_equals_the_tree() {
    for source in ["", "abc", "^(a|[b-d]+)?x\\1$", "((a)(b|c))\\3\\w\\d."] {
        let ast = compile(source).unwrap();
        let copy = ast.clone();
        assert_eq!(copy, ast);
        for (node, twin) in ast.iter().zip(copy.iter()) {
            assert_eq!(&node.duplicate(), twin);
        }
    }
}

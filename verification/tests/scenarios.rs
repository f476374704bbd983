use regex_engine::{compile, find_captures, is_match, ParseError, RE};

fn hit(pattern: &str, text: &str) -> bool {
    let ast = compile(pattern).expect("the pattern compiles");
    is_match(&ast, text)
}

#[test]
fn anchored_literal_matches_only_the_whole_text() {
    assert!(hit("^abc$", "abc"));
    assert!(!hit("^abc$", "xabc"));
    assert!(!hit("^abc$", "abcx"));
}

#[test]
fn one_or_more_needs_at_least_one() {
    assert!(hit("ca+t", "cat"));
    assert!(hit("ca+t", "caaat"));
    assert!(!hit("ca+t", "ct"));
}

#[test]
fn optional_matches_with_and_without() {
    assert!(hit("colou?r", "color"));
    assert!(hit("colou?r", "colour"));
    assert!(!hit("colou?r", "colouur"));
}

#[test]
fn class_and_negated_class() {
    assert!(hit("[abc]", "xxbxx"));
    assert!(hit("[abc]", "a"));
    assert!(!hit("[abc]", "xyz"));
    assert!(!hit("[abc]", ""));
    assert!(hit("[^abc]", "abcx"));
    assert!(!hit("[^abc]", "abc"));
    assert!(!hit("[^abc]", ""));
}

#[test]
fn backreference_repeats_the_capture() {
    assert!(hit("(cat|dog) and \\1", "cat and cat"));
    assert!(hit("(cat|dog) and \\1", "dog and dog"));
    assert!(!hit("(cat|dog) and \\1", "cat and dog"));
}

#[test]
fn anchored_alternation_matches_exactly_its_arms() {
    assert!(hit("^(a|b)$", "a"));
    assert!(hit("^(a|b)$", "b"));
    assert!(!hit("^(a|b)$", "ab"));
    assert!(!hit("^(a|b)$", ""));
}

#[test]
fn captures_are_reported() {
    let ast = compile("(cat|dog) and \\1").unwrap();
    let (ok, caps) = find_captures(&ast, "a dog and dog");
    assert!(ok);
    assert_eq!(caps.len(), 1);
    assert_eq!(caps.get(&1), Some(&"dog".to_string()));
    let (ok, caps) = find_captures(&ast, "cat and dog");
    assert!(!ok);
    assert!(caps.is_empty());
}

#[test]
fn compile_builds_the_tree() {
    assert_eq!(
        compile("^(a|b)$"),
        Ok(vec![
            RE::StartAnchor,
            RE::Group(
                vec![RE::Alternation(vec![RE::Literal('a')], vec![RE::Literal('b')])],
                1
            ),
            RE::EndAnchor,
        ])
    );
    assert_eq!(compile("a\\"), Err(ParseError::IncompleteEscapeAtEndOfPattern));
}

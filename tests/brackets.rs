use typing_concierge::brackets::remove_square_parentheses;

#[test]
fn remove_square_parentheses_1() {
    assert_eq!(
        remove_square_parentheses(r"a[123\]]b[c]"),
        Some(("a123]bc".to_string(), vec![1, 4, 1, 1]))
    );
}

#[test]
fn remove_square_parentheses_2() {
    assert_eq!(remove_square_parentheses(r"[[]]"), None);
}

#[test]
fn remove_square_parentheses_3() {
    assert_eq!(remove_square_parentheses(r"a[bdf\["), None);
}

#[test]
fn remove_square_parentheses_4() {
    assert_eq!(remove_square_parentheses(r"[]"), None);
}

#[test]
fn unmatched_closing_bracket_is_rejected() {
    assert_eq!(remove_square_parentheses("ab]"), None);
}

#[test]
fn nested_group_after_text_is_rejected() {
    assert_eq!(remove_square_parentheses("[ab[c]d]"), None);
}

#[test]
fn text_without_brackets_has_one_span_per_character() {
    assert_eq!(
        remove_square_parentheses("頑張る"),
        Some(("頑張る".to_string(), vec![1, 1, 1]))
    );
}

#[test]
fn single_character_group_has_span_one() {
    assert_eq!(
        remove_square_parentheses("[x]y"),
        Some(("xy".to_string(), vec![1, 1]))
    );
}

#[test]
fn escaped_backslash_and_plain_backslash() {
    assert_eq!(
        remove_square_parentheses(r"\\\a"),
        Some((r"\\a".to_string(), vec![1, 1, 1]))
    );
}

#[test]
fn trailing_backslash_is_dropped_from_display() {
    assert_eq!(
        remove_square_parentheses("ab\\"),
        Some(("ab".to_string(), vec![1, 1]))
    );
}

#[test]
fn empty_display_has_no_spans() {
    assert_eq!(remove_square_parentheses(""), Some((String::new(), vec![])));
}

#[test]
fn group_of_three_characters() {
    assert_eq!(
        remove_square_parentheses("[百舌鳥]"),
        Some(("百舌鳥".to_string(), vec![3]))
    );
}

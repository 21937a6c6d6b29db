use typing_concierge::escape::{convert_two_backslash_to_single, split_by_non_escaped};

#[test]
fn split_by_non_escaped_1() {
    let v = split_by_non_escaped(r"hoge\\\::", ':');
    assert_eq!(v, vec![String::from(r"hoge\\:"), String::from("")]);
}

#[test]
fn split_by_non_escaped_2() {
    let v = split_by_non_escaped(r"hoge:fuga", ':');
    assert_eq!(v, vec![String::from(r"hoge"), String::from("fuga")]);
}

#[test]
fn split_by_non_escaped_3() {
    let v = split_by_non_escaped(r"::", ':');
    assert_eq!(
        v,
        vec![String::from(""), String::from(""), String::from("")]
    );
}

#[test]
fn split_escaped_colon_is_literal() {
    assert_eq!(split_by_non_escaped("a\\:b", ':'), vec![String::from("a:b")]);
    assert_eq!(
        split_by_non_escaped("a:b", ':'),
        vec![String::from("a"), String::from("b")]
    );
}

#[test]
fn split_empty_line_gives_one_empty_segment() {
    assert_eq!(split_by_non_escaped("", ','), vec![String::from("")]);
}

#[test]
fn split_keeps_leading_and_trailing_empty_segments() {
    assert_eq!(
        split_by_non_escaped(",a,", ','),
        vec![String::from(""), String::from("a"), String::from("")]
    );
}

#[test]
fn split_escaped_backslash_is_doubled() {
    assert_eq!(split_by_non_escaped(r"a\\b", ','), vec![String::from(r"a\\b")]);
}

#[test]
fn split_backslash_before_plain_character_is_kept() {
    assert_eq!(split_by_non_escaped(r"a\b", ','), vec![String::from(r"a\b")]);
}

#[test]
fn split_trailing_backslash_is_dropped() {
    assert_eq!(split_by_non_escaped("ab\\", ','), vec![String::from("ab")]);
}

#[test]
fn split_other_separator_leaves_colon() {
    assert_eq!(
        split_by_non_escaped("a:b,c", ','),
        vec![String::from("a:b"), String::from("c")]
    );
}

#[test]
fn convert_two_backslash_to_single_1() {
    assert_eq!(convert_two_backslash_to_single(r"\\"), r"\");
}

#[test]
fn convert_two_backslash_to_single_2() {
    assert_eq!(convert_two_backslash_to_single(r"\\\a"), r"\\a");
}

#[test]
fn convert_two_backslash_to_single_3() {
    assert_eq!(convert_two_backslash_to_single(r"\\\"), r"\\");
}

#[test]
fn convert_two_backslash_to_single_4() {
    assert_eq!(convert_two_backslash_to_single(r"\\\\"), r"\\");
}

#[test]
fn collapse_leaves_text_without_backslashes() {
    assert_eq!(convert_two_backslash_to_single("がんば"), "がんば");
    assert_eq!(convert_two_backslash_to_single(""), "");
}

#[test]
fn collapse_runs_of_backslashes() {
    assert_eq!(convert_two_backslash_to_single(r"\\\\\"), r"\\\");
    assert_eq!(convert_two_backslash_to_single(r"\"), r"\");
    assert_eq!(convert_two_backslash_to_single(r"a\\b\c"), r"a\b\c");
}

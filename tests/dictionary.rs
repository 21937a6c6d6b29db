use typing_concierge::dictionary::{construct_spell_strings, parse_dictionary_content, parse_line};
use typing_concierge::spelling::{SpellString, SpellingElement, VocabularyEntry};
use typing_concierge::text::split_lines;

fn spell(s: &str) -> SpellString {
    SpellString::new(s.to_string()).unwrap()
}

fn normal(s: &str) -> SpellingElement {
    SpellingElement::Normal(spell(s))
}

fn compound(s: &str, n: usize) -> SpellingElement {
    SpellingElement::Compound(spell(s), n)
}

#[test]
fn parse_dictionary_1() {
    let (ve, iln) =
        parse_dictionary_content("頑張る:がん,ば,る\n頑張る:がんば,る\n[百舌鳥]:もず");

    assert_eq!(
        ve,
        vec![
            VocabularyEntry::new(
                "頑張る".to_string(),
                vec![normal("がん"), normal("ば"), normal("る")]
            )
            .unwrap(),
            VocabularyEntry::new("百舌鳥".to_string(), vec![compound("もず", 3)]).unwrap()
        ]
    );

    assert_eq!(iln, vec![2]);
}

#[test]
fn parse_dictionary_2() {
    let (ve, iln) =
        parse_dictionary_content("[昨日]の敵は[今日]の友:きのう,の,てき,は,きょう,の,とも");

    assert_eq!(
        ve,
        vec![VocabularyEntry::new(
            "昨日の敵は今日の友".to_string(),
            vec![
                compound("きのう", 2),
                normal("の"),
                normal("てき"),
                normal("は"),
                compound("きょう", 2),
                normal("の"),
                normal("とも"),
            ]
        )
        .unwrap(),]
    );

    assert_eq!(iln, vec![] as Vec<usize>);
}

#[test]
fn parse_dictionary_3() {
    let (ve, iln) = parse_dictionary_content(r"\\\::\\,\:");

    assert_eq!(
        ve,
        vec![VocabularyEntry::new(r"\:".to_string(), vec![normal(r"\"), normal(":")]).unwrap(),]
    );

    assert_eq!(iln, vec![] as Vec<usize>);
}

#[test]
fn parse_dictionary_4() {
    let (ve, iln) = parse_dictionary_content(
        r"[\[]12:[,1,2
            [[]12:[,1,2",
    );

    assert_eq!(
        ve,
        vec![VocabularyEntry::new(
            "[12".to_string(),
            vec![normal(r"["), normal("1"), normal("2")]
        )
        .unwrap(),]
    );

    assert_eq!(iln, vec![2]);
}

#[test]
fn line_without_colon_is_rejected() {
    assert!(parse_line("頑張る").is_none());
}

#[test]
fn line_with_two_colons_is_rejected() {
    assert!(parse_line("a:b:c").is_none());
}

#[test]
fn line_with_escaped_second_colon_is_accepted() {
    let entry = parse_line(r"a\::b,c").unwrap();
    assert_eq!(entry.text(), "a:");
    assert_eq!(entry.spells(), &vec![normal("b"), normal("c")]);
}

#[test]
fn segment_count_mismatch_is_rejected() {
    // Two display segments, one spelling.
    assert!(parse_line("[今日]は:きょうは").is_none());
    // One display segment, two spellings.
    assert!(parse_line("[今日]:きょ,う").is_none());
}

#[test]
fn spelling_with_unusable_character_is_rejected() {
    assert!(parse_line("漢:漢").is_none());
    let (ve, iln) = parse_dictionary_content("漢:かん\n字:字");
    assert_eq!(ve.len(), 1);
    assert_eq!(iln, vec![2]);
}

#[test]
fn compound_spans_group_length() {
    let entry = parse_line("[五月雨]:さみだれ").unwrap();
    assert_eq!(entry.spells(), &vec![compound("さみだれ", 3)]);
}

#[test]
fn single_character_group_is_normal() {
    let entry = parse_line("[今]日:いま,ひ").unwrap();
    assert_eq!(entry.spells(), &vec![normal("いま"), normal("ひ")]);
}

#[test]
fn spelling_backslash_pairs_are_collapsed() {
    // The split doubles the escaped backslash pair; collapsing restores one.
    let entry = parse_line(r"a:\\").unwrap();
    assert_eq!(entry.spells(), &vec![normal(r"\")]);
}

#[test]
fn parsing_twice_gives_the_same_result() {
    let content = "頑張る:がん,ば,る\n頑張る:がんば,る\n[百舌鳥]:もず\n::";
    let first = parse_dictionary_content(content);
    let second = parse_dictionary_content(content);
    assert_eq!(first, second);
    assert_eq!(first.1, vec![2, 4]);
}

#[test]
fn empty_content_has_no_lines() {
    let (ve, iln) = parse_dictionary_content("");
    assert!(ve.is_empty());
    assert!(iln.is_empty());
}

#[test]
fn empty_line_is_rejected() {
    let (ve, iln) = parse_dictionary_content("a:a\n\nb:b\n");
    assert_eq!(ve.len(), 2);
    assert_eq!(iln, vec![2]);
}

#[test]
fn carriage_returns_before_line_feeds_are_removed() {
    let (ve, iln) = parse_dictionary_content("ab:a,b\r\ncd:c,d\r\n");
    assert_eq!(ve.len(), 2);
    assert!(iln.is_empty());
    assert_eq!(ve[1].text(), "cd");
}

#[test]
fn split_lines_follows_line_endings() {
    assert_eq!(
        split_lines("a\r\nb\n\nc\r"),
        vec![
            String::from("a"),
            String::from("b"),
            String::from(""),
            String::from("c\r")
        ]
    );
    assert_eq!(split_lines("a\n"), vec![String::from("a")]);
    assert_eq!(split_lines(""), Vec::<String>::new());
    assert_eq!(split_lines("\n"), vec![String::from("")]);
}

#[test]
fn spell_strings_are_validated_together() {
    let good = vec![String::from("がん"), String::from("ば"), String::from("A!")];
    let strings = construct_spell_strings(&good).unwrap();
    assert_eq!(strings.len(), 3);
    assert_eq!(strings[2].as_str(), "A!");
    let bad = vec![String::from("がん"), String::from("頑")];
    assert!(construct_spell_strings(&bad).is_none());
}

#[test]
fn spell_string_character_set() {
    assert!(SpellString::new(String::from(" ~")).is_some());
    assert!(SpellString::new(String::from("、。「」ー")).is_some());
    assert!(SpellString::new(String::from("")).is_some());
    assert!(SpellString::new(String::from("\t")).is_none());
    assert!(SpellString::new(String::from("カ")).is_none());
}

#[test]
fn entry_requires_spans_to_cover_the_text() {
    assert!(VocabularyEntry::new("ab".to_string(), vec![normal("a")]).is_none());
    assert!(VocabularyEntry::new("ab".to_string(), vec![compound("ab", 2)]).is_some());
    assert!(
        VocabularyEntry::new("ab".to_string(), vec![compound("a", 0), normal("a"), normal("b")])
            .is_none()
    );
}

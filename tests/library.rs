use typing_concierge::library::{
    CategorizedDictionaryInfos, Dictionary, DictionaryInfo, DictionaryType, Library,
};

fn dictionary(name: &str, t: DictionaryType, content: &str) -> Dictionary {
    Dictionary::new(name.to_string(), t, content)
}

#[test]
fn extension_names_the_dictionary_type() {
    assert_eq!(DictionaryType::of_extension("tconciergew"), Some(DictionaryType::Word));
    assert_eq!(DictionaryType::of_extension("tconcierges"), Some(DictionaryType::Sentence));
    assert_eq!(DictionaryType::of_extension("txt"), None);
    assert_eq!(DictionaryType::of_extension("tconcierge"), None);
}

#[test]
fn dictionary_info_counts_entries_and_invalid_lines() {
    let d = dictionary("words", DictionaryType::Word, "a:a\nb\nc:c\n::");
    let info = d.construct_dictionary_info();
    assert_eq!(
        info,
        DictionaryInfo::new("words".to_string(), DictionaryType::Word, 2, vec![2, 4])
    );
    assert_eq!(d.name(), "words");
    assert_eq!(d.vocabulary_entries().len(), 2);
}

#[test]
fn library_keeps_the_last_dictionary_of_a_name() {
    let library = Library::new(vec![
        dictionary("a", DictionaryType::Word, "x:x"),
        dictionary("b", DictionaryType::Sentence, "y:y"),
        dictionary("a", DictionaryType::Sentence, "z:z\nw:w"),
    ]);
    let infos = library.dictionary_infos();
    assert_eq!(
        infos,
        CategorizedDictionaryInfos::new(
            vec![],
            vec![
                DictionaryInfo::new("b".to_string(), DictionaryType::Sentence, 1, vec![]),
                DictionaryInfo::new("a".to_string(), DictionaryType::Sentence, 2, vec![]),
            ]
        )
    );
    assert!(library.get_dictionary("a", DictionaryType::Word).is_none());
    assert_eq!(
        library
            .get_dictionary("a", DictionaryType::Sentence)
            .unwrap()
            .vocabulary_entries()
            .len(),
        2
    );
}

#[test]
fn request_follows_the_order_of_names() {
    let library = Library::new(vec![
        dictionary("first", DictionaryType::Word, "a:a\nb:b"),
        dictionary("second", DictionaryType::Word, "c:c"),
        dictionary("other", DictionaryType::Sentence, "d:d"),
    ]);
    let names = vec![String::from("second"), String::from("first")];
    let entries = library.vocabulary_entries_of_request(DictionaryType::Word, &names);
    let texts: Vec<&str> = entries.iter().map(|e| e.text()).collect();
    assert_eq!(texts, vec!["c", "a", "b"]);
    let none: Vec<String> = vec![];
    assert!(library
        .vocabulary_entries_of_request(DictionaryType::Sentence, &none)
        .is_empty());
}

#[test]
fn reload_replaces_all_dictionaries() {
    let mut library = Library::new(vec![dictionary("a", DictionaryType::Word, "x:x")]);
    library.reload_dictionaries(vec![dictionary("b", DictionaryType::Sentence, "y:y")]);
    assert!(library.get_dictionary("a", DictionaryType::Word).is_none());
    assert!(library.get_dictionary("b", DictionaryType::Sentence).is_some());
    assert_eq!(
        library.dictionary_infos(),
        CategorizedDictionaryInfos::new(
            vec![],
            vec![DictionaryInfo::new(
                "b".to_string(),
                DictionaryType::Sentence,
                1,
                vec![]
            )]
        )
    );
}

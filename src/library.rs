//! Dictionaries and the library that holds them.
use vstd::prelude::*;

use crate::dictionary::{entries_view, numbers_view, parse_content_spec, parse_dictionary_content};
use crate::spelling::{EntryModel, VocabularyEntry};
use crate::text::same_text;

verus! {

/// Whether a dictionary lists words or sentences.
#[derive(Debug, Clone, Copy, PartialEq, Eq, Structural)]
pub enum DictionaryType {
    Word,
    Sentence,
}

/// The kind of dictionary that a file extension names.
pub open spec fn extension_type(extension: Seq<char>) -> Option<DictionaryType> {
    if extension == "tconciergew"@ {
        Some(DictionaryType::Word)
    } else if extension == "tconcierges"@ {
        Some(DictionaryType::Sentence)
    } else {
        None
    }
}

impl DictionaryType {
    /// The kind of dictionary that a file with this extension holds:
    /// `tconciergew` for words, `tconcierges` for sentences.
    pub fn of_extension(extension: &str) -> (r: Option<DictionaryType>)
        ensures
            r == extension_type(extension@),
    {
        if same_text(extension, "tconciergew") {
            Some(DictionaryType::Word)
        } else if same_text(extension, "tconcierges") {
            Some(DictionaryType::Sentence)
        } else {
            None
        }
    }
}

/// What the user interface is told of a dictionary.
pub struct DictionaryInfoModel {
    pub name: Seq<char>,
    pub dictionary_type: DictionaryType,
    pub valid_vocabulary_count: nat,
    pub invalid_line_numbers: Seq<nat>,
}

/// A summary of one dictionary: its name and kind, how many entries it
/// gave, and which lines were malformed.
#[derive(Debug, Clone, PartialEq, Eq)]
pub struct DictionaryInfo {
    name: String,
    dictionary_type: DictionaryType,
    valid_vocabulary_count: usize,
    invalid_line_numbers: Vec<usize>,
}

impl View for DictionaryInfo {
    type V = DictionaryInfoModel;

    closed spec fn view(&self) -> DictionaryInfoModel {
        DictionaryInfoModel {
            name: self.name@,
            dictionary_type: self.dictionary_type,
            valid_vocabulary_count: self.valid_vocabulary_count as nat,
            invalid_line_numbers: numbers_view(self.invalid_line_numbers@),
        }
    }
}

impl DictionaryInfo {
    /// A summary made of the given parts.
    pub fn new(
        name: String,
        dictionary_type: DictionaryType,
        valid_vocabulary_count: usize,
        invalid_line_numbers: Vec<usize>,
    ) -> (r: DictionaryInfo)
        ensures
            r@ == (DictionaryInfoModel {
                name: name@,
                dictionary_type,
                valid_vocabulary_count: valid_vocabulary_count as nat,
                invalid_line_numbers: numbers_view(invalid_line_numbers@),
            }),
    {
        DictionaryInfo { name, dictionary_type, valid_vocabulary_count, invalid_line_numbers }
    }

    /// The name of the dictionary.
    pub fn name(&self) -> (r: &str)
        ensures
            r@ == self@.name,
    {
        self.name.as_str()
    }

    /// Whether the dictionary lists words or sentences.
    pub fn dictionary_type(&self) -> (r: DictionaryType)
        ensures
            r == self@.dictionary_type,
    {
        self.dictionary_type
    }

    /// How many entries the dictionary gave.
    pub fn valid_vocabulary_count(&self) -> (r: usize)
        ensures
            r as nat == self@.valid_vocabulary_count,
    {
        self.valid_vocabulary_count
    }

    /// The 1-based numbers of the malformed lines.
    pub fn invalid_line_numbers(&self) -> (r: &Vec<usize>)
        ensures
            numbers_view(r@) == self@.invalid_line_numbers,
    {
        &self.invalid_line_numbers
    }
}

/// Summaries of the word dictionaries and of the sentence dictionaries.
pub struct CategorizedInfosModel {
    pub word: Seq<DictionaryInfoModel>,
    pub sentence: Seq<DictionaryInfoModel>,
}

/// The models of a sequence of summaries.
pub open spec fn infos_view(v: Seq<DictionaryInfo>) -> Seq<DictionaryInfoModel> {
    v.map_values(|i: DictionaryInfo| i@)
}

/// Summaries of the dictionaries of a library, word and sentence apart.
#[derive(Debug, Clone, PartialEq, Eq)]
pub struct CategorizedDictionaryInfos {
    word: Vec<DictionaryInfo>,
    sentence: Vec<DictionaryInfo>,
}

impl View for CategorizedDictionaryInfos {
    type V = CategorizedInfosModel;

    closed spec fn view(&self) -> CategorizedInfosModel {
        CategorizedInfosModel { word: infos_view(self.word@), sentence: infos_view(self.sentence@) }
    }
}

impl CategorizedDictionaryInfos {
    /// Summaries made of the given word and sentence summaries.
    pub fn new(word: Vec<DictionaryInfo>, sentence: Vec<DictionaryInfo>) -> (r:
        CategorizedDictionaryInfos)
        ensures
            r@ == (CategorizedInfosModel {
                word: infos_view(word@),
                sentence: infos_view(sentence@),
            }),
    {
        CategorizedDictionaryInfos { word, sentence }
    }

    /// The summaries of the word dictionaries.
    pub fn word(&self) -> (r: &Vec<DictionaryInfo>)
        ensures
            infos_view(r@) == self@.word,
    {
        &self.word
    }

    /// The summaries of the sentence dictionaries.
    pub fn sentence(&self) -> (r: &Vec<DictionaryInfo>)
        ensures
            infos_view(r@) == self@.sentence,
    {
        &self.sentence
    }
}

/// What a dictionary holds.
pub struct DictionaryModel {
    pub name: Seq<char>,
    pub dictionary_type: DictionaryType,
    pub entries: Seq<EntryModel>,
    pub invalid_line_numbers: Seq<nat>,
}

/// The summary of a dictionary.
pub open spec fn info_of(d: DictionaryModel) -> DictionaryInfoModel {
    DictionaryInfoModel {
        name: d.name,
        dictionary_type: d.dictionary_type,
        valid_vocabulary_count: d.entries.len(),
        invalid_line_numbers: d.invalid_line_numbers,
    }
}

/// A parsed dictionary: its name and kind, the entries of its well-formed
/// lines, and the numbers of its malformed lines.
pub struct Dictionary {
    name: String,
    dictionary_type: DictionaryType,
    vocabulary_entries: Vec<VocabularyEntry>,
    invalid_line_numbers: Vec<usize>,
}

impl View for Dictionary {
    type V = DictionaryModel;

    closed spec fn view(&self) -> DictionaryModel {
        DictionaryModel {
            name: self.name@,
            dictionary_type: self.dictionary_type,
            entries: entries_view(self.vocabulary_entries@),
            invalid_line_numbers: numbers_view(self.invalid_line_numbers@),
        }
    }
}

impl Dictionary {
    /// Parses `content`, the text of the dictionary called `name`.
    pub fn new(name: String, dictionary_type: DictionaryType, content: &str) -> (r: Dictionary)
        requires
            content@.len() <= usize::MAX,
        ensures
            r@ == (DictionaryModel {
                name: name@,
                dictionary_type,
                entries: parse_content_spec(content@).0,
                invalid_line_numbers: parse_content_spec(content@).1,
            }),
    {
        let (vocabulary_entries, invalid_line_numbers) = parse_dictionary_content(content);
        Dictionary { name, dictionary_type, vocabulary_entries, invalid_line_numbers }
    }

    /// The summary shown to the user.
    pub fn construct_dictionary_info(&self) -> (r: DictionaryInfo)
        ensures
            r@ == info_of(self@),
    {
        let numbers = self.invalid_line_numbers.clone();
        assert(numbers@ == self.invalid_line_numbers@);
        DictionaryInfo::new(
            self.name.clone(),
            self.dictionary_type,
            self.vocabulary_entries.len(),
            numbers,
        )
    }

    /// The name of the dictionary.
    pub fn name(&self) -> (r: &str)
        ensures
            r@ == self@.name,
    {
        self.name.as_str()
    }

    /// Whether the dictionary lists words or sentences.
    pub fn dictionary_type(&self) -> (r: DictionaryType)
        ensures
            r == self@.dictionary_type,
    {
        self.dictionary_type
    }

    /// The 1-based numbers of the malformed lines, in ascending order.
    pub fn invalid_line_numbers(&self) -> (r: &Vec<usize>)
        ensures
            numbers_view(r@) == self@.invalid_line_numbers,
    {
        &self.invalid_line_numbers
    }

    /// The entries of the well-formed lines, in order.
    pub fn vocabulary_entries(&self) -> (r: &Vec<VocabularyEntry>)
        ensures
            entries_view(r@) == self@.entries,
    {
        &self.vocabulary_entries
    }
}

/// The models of a sequence of dictionaries.
pub open spec fn dictionaries_view(v: Seq<Dictionary>) -> Seq<DictionaryModel> {
    v.map_values(|d: Dictionary| d@)
}

/// Whether a later dictionary of `ds` has the name of the one at `i`.
pub open spec fn superseded(ds: Seq<DictionaryModel>, i: int) -> bool {
    exists|j: int| i < j < ds.len() && (#[trigger] ds[j]).name == ds[i].name
}

/// The dictionaries of kind `t` among the first `n` of `ds` that no later
/// dictionary of the same name replaces, in order.
pub open spec fn kept_of_type(ds: Seq<DictionaryModel>, t: DictionaryType, n: int) -> Seq<
    DictionaryModel,
>
    decreases n,
{
    if n <= 0 {
        Seq::empty()
    } else {
        let prev = kept_of_type(ds, t, n - 1);
        if !superseded(ds, n - 1) && ds[n - 1].dictionary_type == t {
            prev.push(ds[n - 1])
        } else {
            prev
        }
    }
}

/// What a library holds.
pub struct LibraryModel {
    pub word: Seq<DictionaryModel>,
    pub sentence: Seq<DictionaryModel>,
}

impl LibraryModel {
    /// The dictionaries of kind `t`.
    pub open spec fn of_type(self, t: DictionaryType) -> Seq<DictionaryModel> {
        match t {
            DictionaryType::Word => self.word,
            DictionaryType::Sentence => self.sentence,
        }
    }
}

/// The library made of `ds`: under each name only the last dictionary given
/// with it, word and sentence dictionaries apart, in the order given.
pub open spec fn library_of(ds: Seq<DictionaryModel>) -> LibraryModel {
    LibraryModel {
        word: kept_of_type(ds, DictionaryType::Word, ds.len() as int),
        sentence: kept_of_type(ds, DictionaryType::Sentence, ds.len() as int),
    }
}

/// Whether no two dictionaries of `ds` share a name.
pub open spec fn names_distinct(ds: Seq<DictionaryModel>) -> bool {
    forall|i: int, j: int| 0 <= i < j < ds.len() ==> (#[trigger] ds[i]).name != (#[trigger] ds[j]).name
}

/// Whether no dictionary of `a` shares a name with one of `b`.
pub open spec fn names_apart(a: Seq<DictionaryModel>, b: Seq<DictionaryModel>) -> bool {
    forall|i: int, j: int|
        0 <= i < a.len() && 0 <= j < b.len() ==> (#[trigger] a[i]).name != (#[trigger] b[j]).name
}

/// Whether every dictionary of `kept` is one of the first `n` of `ds` that
/// no later one replaces.
pub open spec fn drawn_from(kept: Seq<DictionaryModel>, ds: Seq<DictionaryModel>, n: int) -> bool {
    forall|p: int|
        0 <= p < kept.len() ==> exists|i: int|
            0 <= i < n && !superseded(ds, i) && #[trigger] kept[p] == ds[i]
}

proof fn lemma_kept_names(ds: Seq<DictionaryModel>, n: int)
    requires
        0 <= n <= ds.len(),
    ensures
        names_distinct(kept_of_type(ds, DictionaryType::Word, n)),
        names_distinct(kept_of_type(ds, DictionaryType::Sentence, n)),
        names_apart(
            kept_of_type(ds, DictionaryType::Word, n),
            kept_of_type(ds, DictionaryType::Sentence, n),
        ),
        drawn_from(kept_of_type(ds, DictionaryType::Word, n), ds, n),
        drawn_from(kept_of_type(ds, DictionaryType::Sentence, n), ds, n),
    decreases n,
{
    if n > 0 {
        lemma_kept_names(ds, n - 1);
        let w = kept_of_type(ds, DictionaryType::Word, n - 1);
        let s = kept_of_type(ds, DictionaryType::Sentence, n - 1);
        let d = ds[n - 1];
        if !superseded(ds, n - 1) {
            // An earlier kept dictionary with the name of `d` would be
            // replaced by `d`.
            assert forall|p: int| 0 <= p < w.len() implies (#[trigger] w[p]).name != d.name by {
                let i = choose|i: int| 0 <= i < n - 1 && !superseded(ds, i) && w[p] == ds[i];
                if w[p].name == d.name {
                    assert(ds[n - 1].name == ds[i].name);
                    assert(superseded(ds, i));
                }
            }
            assert forall|p: int| 0 <= p < s.len() implies (#[trigger] s[p]).name != d.name by {
                let i = choose|i: int| 0 <= i < n - 1 && !superseded(ds, i) && s[p] == ds[i];
                if s[p].name == d.name {
                    assert(ds[n - 1].name == ds[i].name);
                    assert(superseded(ds, i));
                }
            }
        }
        let w2 = kept_of_type(ds, DictionaryType::Word, n);
        let s2 = kept_of_type(ds, DictionaryType::Sentence, n);
        assert forall|i: int, j: int| 0 <= i < j < w2.len() implies (#[trigger] w2[i]).name
            != (#[trigger] w2[j]).name by {
            if j < w.len() {
                assert(w2[i] == w[i] && w2[j] == w[j]);
            } else {
                assert(w2[i] == w[i] && w2[j] == d);
            }
        }
        assert forall|i: int, j: int| 0 <= i < j < s2.len() implies (#[trigger] s2[i]).name
            != (#[trigger] s2[j]).name by {
            if j < s.len() {
                assert(s2[i] == s[i] && s2[j] == s[j]);
            } else {
                assert(s2[i] == s[i] && s2[j] == d);
            }
        }
        assert forall|i: int, j: int| 0 <= i < w2.len() && 0 <= j < s2.len() implies (
        #[trigger] w2[i]).name != (#[trigger] s2[j]).name by {
            if i < w.len() && j < s.len() {
                assert(w2[i] == w[i] && s2[j] == s[j]);
            } else if i < w.len() {
                assert(w2[i] == w[i] && s2[j] == d);
            } else {
                assert(w2[i] == d && s2[j] == s[j]);
            }
        }
        assert forall|p: int| 0 <= p < w2.len() implies exists|i: int|
            0 <= i < n && !superseded(ds, i) && #[trigger] w2[p] == ds[i] by {
            if p < w.len() {
                assert(w2[p] == w[p]);
            } else {
                assert(w2[p] == ds[n - 1]);
            }
        }
        assert forall|p: int| 0 <= p < s2.len() implies exists|i: int|
            0 <= i < n && !superseded(ds, i) && #[trigger] s2[p] == ds[i] by {
            if p < s.len() {
                assert(s2[p] == s[p]);
            } else {
                assert(s2[p] == ds[n - 1]);
            }
        }
    }
}

/// A library holds at most one dictionary of each name, whatever its kind.
pub proof fn lemma_library_names_distinct(ds: Seq<DictionaryModel>)
    ensures
        names_distinct(library_of(ds).word),
        names_distinct(library_of(ds).sentence),
        names_apart(library_of(ds).word, library_of(ds).sentence),
{
    lemma_kept_names(ds, ds.len() as int);
}

/// Whether `i` is the first position of `ds` whose dictionary is called
/// `name`.
pub open spec fn is_first_named(ds: Seq<DictionaryModel>, name: Seq<char>, i: int) -> bool {
    &&& 0 <= i < ds.len()
    &&& ds[i].name == name
    &&& forall|j: int| 0 <= j < i ==> (#[trigger] ds[j]).name != name
}

/// Whether some dictionary of `ds` is called `name`.
pub open spec fn has_named(ds: Seq<DictionaryModel>, name: Seq<char>) -> bool {
    exists|i: int| 0 <= i < ds.len() && (#[trigger] ds[i]).name == name
}

/// The entries of the first dictionary of `ds` called `name`.
pub open spec fn named_entries(ds: Seq<DictionaryModel>, name: Seq<char>) -> Seq<EntryModel> {
    ds[choose|i: int| is_first_named(ds, name, i)].entries
}

/// The entries of the dictionaries called `names`, dictionary after
/// dictionary in the order of `names`.
pub open spec fn request_entries(ds: Seq<DictionaryModel>, names: Seq<Seq<char>>) -> Seq<
    EntryModel,
>
    decreases names.len(),
{
    if names.len() == 0 {
        Seq::empty()
    } else {
        request_entries(ds, names.drop_last()) + named_entries(ds, names.last())
    }
}

/// The models of a sequence of borrowed entries.
pub open spec fn entry_refs_view(v: Seq<&VocabularyEntry>) -> Seq<EntryModel> {
    v.map_values(|e: &VocabularyEntry| e@)
}

/// The first position of a name is unique.
pub proof fn lemma_first_named_unique(ds: Seq<DictionaryModel>, name: Seq<char>, i: int, j: int)
    requires
        is_first_named(ds, name, i),
        is_first_named(ds, name, j),
    ensures
        i == j,
{
    if i < j {
        assert(ds[i].name != name);
    } else if j < i {
        assert(ds[j].name != name);
    }
}

/// The dictionaries that a user can choose from, word and sentence apart.
pub struct Library {
    word_dictionaries: Vec<Dictionary>,
    sentence_dictionaries: Vec<Dictionary>,
}

impl View for Library {
    type V = LibraryModel;

    closed spec fn view(&self) -> LibraryModel {
        LibraryModel {
            word: dictionaries_view(self.word_dictionaries@),
            sentence: dictionaries_view(self.sentence_dictionaries@),
        }
    }
}

impl Library {
    /// Builds a library of `dictionaries`: where several have one name, the
    /// last of them is kept.
    pub fn new(dictionaries: Vec<Dictionary>) -> (r: Library)
        ensures
            r@ == library_of(dictionaries_view(dictionaries@)),
    {
        let ghost ds = dictionaries_view(dictionaries@);
        let n = dictionaries.len();
        let mut keep: Vec<bool> = Vec::new();
        let mut i: usize = 0;
        while i < n
            invariant
                n == dictionaries@.len(),
                ds == dictionaries_view(dictionaries@),
                i <= n,
                keep@.len() == i,
                forall|k: int| 0 <= k < i ==> keep@[k] == !superseded(ds, k),
            decreases n - i,
        {
            let mut later = false;
            let mut j: usize = i + 1;
            while j < n
                invariant
                    n == dictionaries@.len(),
                    ds == dictionaries_view(dictionaries@),
                    i < n,
                    i + 1 <= j <= n,
                    later == exists|m: int| i < m < j && (#[trigger] ds[m]).name == ds[i as int].name,
                decreases n - j,
            {
                assert(ds[j as int].name == dictionaries@[j as int].name@);
                assert(ds[i as int].name == dictionaries@[i as int].name@);
                if dictionaries[i].name == dictionaries[j].name {
                    later = true;
                }
                j = j + 1;
            }
            keep.push(!later);
            i = i + 1;
        }
        let mut word_dictionaries: Vec<Dictionary> = Vec::new();
        let mut sentence_dictionaries: Vec<Dictionary> = Vec::new();
        let mut k: usize = 0;
        for dictionary in it: dictionaries.into_iter()
            invariant
                k == it.index(),
                n == it.seq().len(),
                n == keep@.len(),
                ds == dictionaries_view(it.seq()),
                forall|m: int| 0 <= m < n ==> keep@[m] == !superseded(ds, m),
                dictionaries_view(word_dictionaries@) == kept_of_type(ds, DictionaryType::Word, k as int),
                dictionaries_view(sentence_dictionaries@) == kept_of_type(
                    ds,
                    DictionaryType::Sentence,
                    k as int,
                ),
        {
            assert(ds[k as int] == dictionary@);
            if keep[k] {
                let ghost words = dictionaries_view(word_dictionaries@);
                let ghost sentences = dictionaries_view(sentence_dictionaries@);
                match dictionary.dictionary_type {
                    DictionaryType::Word => {
                        word_dictionaries.push(dictionary);
                        assert(dictionaries_view(word_dictionaries@) == words.push(ds[k as int]));
                    },
                    DictionaryType::Sentence => {
                        sentence_dictionaries.push(dictionary);
                        assert(dictionaries_view(sentence_dictionaries@) == sentences.push(
                            ds[k as int],
                        ));
                    },
                }
            }
            k = k + 1;
        }
        Library { word_dictionaries, sentence_dictionaries }
    }

    /// Replaces all dictionaries of the library with `dictionaries`, as
    /// `new` would build them.
    pub fn reload_dictionaries(&mut self, dictionaries: Vec<Dictionary>)
        ensures
            final(self)@ == library_of(dictionaries_view(dictionaries@)),
    {
        let fresh = Library::new(dictionaries);
        self.word_dictionaries = fresh.word_dictionaries;
        self.sentence_dictionaries = fresh.sentence_dictionaries;
    }

    /// The summaries of the dictionaries, word and sentence apart, in the
    /// library's order.
    pub fn dictionary_infos(&self) -> (r: CategorizedDictionaryInfos)
        ensures
            r@ == (CategorizedInfosModel {
                word: self@.word.map_values(|d: DictionaryModel| info_of(d)),
                sentence: self@.sentence.map_values(|d: DictionaryModel| info_of(d)),
            }),
    {
        let word = infos_of(&self.word_dictionaries);
        let sentence = infos_of(&self.sentence_dictionaries);
        CategorizedDictionaryInfos::new(word, sentence)
    }

    /// The dictionaries of kind `t`.
    fn dictionaries_of_type(&self, t: DictionaryType) -> (r: &Vec<Dictionary>)
        ensures
            dictionaries_view(r@) == self@.of_type(t),
    {
        match t {
            DictionaryType::Word => &self.word_dictionaries,
            DictionaryType::Sentence => &self.sentence_dictionaries,
        }
    }

    /// The dictionary of kind `dictionary_type` called `dictionary_name`.
    pub fn get_dictionary(&self, dictionary_name: &str, dictionary_type: DictionaryType) -> (r:
        Option<&Dictionary>)
        ensures
            match r {
                Some(d) => exists|i: int|
                    is_first_named(self@.of_type(dictionary_type), dictionary_name@, i)
                        && self@.of_type(dictionary_type)[i] == d@,
                None => !has_named(self@.of_type(dictionary_type), dictionary_name@),
            },
    {
        let dictionaries = self.dictionaries_of_type(dictionary_type);
        match position_of_name(dictionaries, dictionary_name) {
            Some(i) => Some(&dictionaries[i]),
            None => None,
        }
    }

    /// The entries of the dictionaries of kind `request_dictionary_type`
    /// called `request_dictionary_names`, dictionary after dictionary in the
    /// order of the names.
    pub fn vocabulary_entries_of_request<'a>(
        &'a self,
        request_dictionary_type: DictionaryType,
        request_dictionary_names: &[String],
    ) -> (r: Vec<&'a VocabularyEntry>)
        requires
            forall|k: int|
                0 <= k < request_dictionary_names@.len() ==> has_named(
                    self@.of_type(request_dictionary_type),
                    (#[trigger] request_dictionary_names@[k])@,
                ),
        ensures
            entry_refs_view(r@) == request_entries(
                self@.of_type(request_dictionary_type),
                request_dictionary_names@.map_values(|s: String| s@),
            ),
    {
        let ghost names = request_dictionary_names@.map_values(|s: String| s@);
        let dictionaries = self.dictionaries_of_type(request_dictionary_type);
        let ghost ds = dictionaries_view(dictionaries@);
        let mut vocabulary_entries: Vec<&VocabularyEntry> = Vec::new();
        let mut k: usize = 0;
        assert(names.take(0) == Seq::<Seq<char>>::empty());
        assert(entry_refs_view(vocabulary_entries@) == Seq::<EntryModel>::empty());
        while k < request_dictionary_names.len()
            invariant
                k <= request_dictionary_names@.len(),
                names == request_dictionary_names@.map_values(|s: String| s@),
                ds == dictionaries_view(dictionaries@),
                ds == self@.of_type(request_dictionary_type),
                forall|m: int| 0 <= m < names.len() ==> has_named(ds, #[trigger] names[m]),
                entry_refs_view(vocabulary_entries@) == request_entries(ds, names.take(k as int)),
            decreases request_dictionary_names.len() - k,
        {
            assert(names.take(k + 1).drop_last() == names.take(k as int));
            assert(names[k as int] == request_dictionary_names@[k as int]@);
            let i = match position_of_name(dictionaries, request_dictionary_names[k].as_str()) {
                Some(i) => i,
                None => {
                    assert(has_named(ds, names[k as int]));
                    return vocabulary_entries;
                },
            };
            let ghost chosen = choose|p: int| is_first_named(ds, names[k as int], p);
            proof {
                lemma_first_named_unique(ds, names[k as int], i as int, chosen);
            }
            let entries = dictionaries[i].vocabulary_entries();
            let ghost before = entry_refs_view(vocabulary_entries@);
            let mut e: usize = 0;
            while e < entries.len()
                invariant
                    e <= entries@.len(),
                    entry_refs_view(vocabulary_entries@) == before + entries_view(entries@).take(
                        e as int,
                    ),
                decreases entries.len() - e,
            {
                let ghost prior = entry_refs_view(vocabulary_entries@);
                let ghost taken = entries_view(entries@).take(e as int);
                vocabulary_entries.push(&entries[e]);
                assert(entry_refs_view(vocabulary_entries@) == prior.push(entries@[e as int]@));
                assert(entries_view(entries@).take(e + 1) == taken.push(entries@[e as int]@));
                assert(before + taken.push(entries@[e as int]@) == (before + taken).push(
                    entries@[e as int]@,
                ));
                e = e + 1;
            }
            assert(entries_view(entries@).take(e as int) == entries_view(entries@));
            k = k + 1;
        }
        assert(names.take(k as int) == names);
        vocabulary_entries
    }
}

/// The first position in `dictionaries` of one called `name`.
fn position_of_name(dictionaries: &Vec<Dictionary>, name: &str) -> (r: Option<usize>)
    ensures
        match r {
            Some(i) => is_first_named(dictionaries_view(dictionaries@), name@, i as int),
            None => !has_named(dictionaries_view(dictionaries@), name@),
        },
{
    let ghost ds = dictionaries_view(dictionaries@);
    let mut i: usize = 0;
    while i < dictionaries.len()
        invariant
            i <= dictionaries@.len(),
            ds == dictionaries_view(dictionaries@),
            forall|j: int| 0 <= j < i ==> (#[trigger] ds[j]).name != name@,
        decreases dictionaries.len() - i,
    {
        assert(ds[i as int].name == dictionaries@[i as int].name@);
        if same_text(dictionaries[i].name.as_str(), name) {
            return Some(i);
        }
        i = i + 1;
    }
    None
}

/// The summaries of `dictionaries`, in order.
fn infos_of(dictionaries: &Vec<Dictionary>) -> (r: Vec<DictionaryInfo>)
    ensures
        infos_view(r@) == dictionaries_view(dictionaries@).map_values(
            |d: DictionaryModel| info_of(d),
        ),
{
    let mut infos: Vec<DictionaryInfo> = Vec::new();
    let mut i: usize = 0;
    while i < dictionaries.len()
        invariant
            i <= dictionaries@.len(),
            infos@.len() == i,
            forall|j: int| 0 <= j < i ==> (#[trigger] infos@[j])@ == info_of(dictionaries@[j]@),
        decreases dictionaries.len() - i,
    {
        infos.push(dictionaries[i].construct_dictionary_info());
        i = i + 1;
    }
    assert(infos_view(infos@) == dictionaries_view(dictionaries@).map_values(
        |d: DictionaryModel| info_of(d),
    ));
    infos
}

} // verus!

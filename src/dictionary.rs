//! Parsing of dictionary lines and dictionary files.
use vstd::prelude::*;

use crate::brackets::{
    extract_spec, lemma_extract_spans, remove_square_parentheses, span_sum, spans_view,
};
use crate::escape::{
    collapse_spec, convert_two_backslash_to_single, lemma_split_len,
    lemma_split_segments_bounded, split_by_non_escaped, split_spec, unescaped_count,
};
use crate::spelling::{
    covers, elements_model, is_spell_text, spans_total, ElementModel, EntryModel, SpellString,
    SpellingElement, VocabularyEntry,
};
use crate::text::{lemma_lines_bounded, lines_of, split_lines};

verus! {

/// Each segment with its backslash pairs collapsed.
pub open spec fn collapse_all(segments: Seq<Seq<char>>) -> Seq<Seq<char>> {
    segments.map_values(|t: Seq<char>| collapse_spec(t))
}

/// The element for a spelling that covers `span` display characters.
pub open spec fn element_of(spell: Seq<char>, span: nat) -> ElementModel {
    if span == 1 {
        ElementModel::Normal(spell)
    } else {
        ElementModel::Compound(spell, span)
    }
}

/// The elements that pair each spelling with the span at the same place.
pub open spec fn elements_of(spells: Seq<Seq<char>>, spans: Seq<nat>) -> Seq<ElementModel> {
    Seq::new(spans.len(), |i: int| element_of(spells[i], spans[i]))
}

/// The entry that `line` describes, or `None` when the line is malformed.
///
/// The line must hold exactly two fields separated by an unescaped `:`. The
/// first is the display text, whose brackets group characters; the second
/// holds the spellings separated by unescaped `,`, each with its backslash
/// pairs collapsed. There must be one spelling per display segment, and
/// each spelling must be made of characters usable in a spelling.
pub open spec fn parse_line_spec(line: Seq<char>) -> Option<EntryModel> {
    let fields = split_spec(line, ':');
    if fields.len() != 2 {
        None
    } else {
        match extract_spec(fields[0]) {
            None => None,
            Some((text, spans)) => {
                let spells = collapse_all(split_spec(fields[1], ','));
                if spells.len() != spans.len() {
                    None
                } else if !(forall|i: int| 0 <= i < spells.len() ==> is_spell_text(#[trigger] spells[i])) {
                    None
                } else {
                    Some(EntryModel { text, spells: elements_of(spells, spans) })
                }
            },
        }
    }
}

/// The elements built from spans cover as many characters as the spans add
/// up to.
pub proof fn lemma_elements_total(spells: Seq<Seq<char>>, spans: Seq<nat>)
    requires
        spells.len() == spans.len(),
    ensures
        spans_total(elements_of(spells, spans)) == span_sum(spans),
    decreases spans.len(),
{
    if spans.len() > 0 {
        lemma_elements_total(spells.drop_last(), spans.drop_last());
        assert(elements_of(spells, spans).drop_last() == elements_of(
            spells.drop_last(),
            spans.drop_last(),
        ));
    }
}

/// Validates every string as a spelling; `None` when any of them is not one.
pub fn construct_spell_strings(strs: &[String]) -> (r: Option<Vec<SpellString>>)
    ensures
        r is Some <==> forall|i: int| 0 <= i < strs@.len() ==> is_spell_text(#[trigger] strs@[i]@),
        r matches Some(v) ==> v@.len() == strs@.len() && forall|i: int|
            0 <= i < strs@.len() ==> (#[trigger] v@[i])@ == strs@[i]@,
{
    let mut spell_strings: Vec<SpellString> = Vec::new();
    let mut idx: usize = 0;
    while idx < strs.len()
        invariant
            idx <= strs@.len(),
            spell_strings@.len() == idx,
            forall|i: int| 0 <= i < idx ==> is_spell_text(#[trigger] strs@[i]@),
            forall|i: int| 0 <= i < idx ==> (#[trigger] spell_strings@[i])@ == strs@[i]@,
        decreases strs.len() - idx,
    {
        match SpellString::new(strs[idx].clone()) {
            Some(spell_string) => spell_strings.push(spell_string),
            None => return None,
        }
        idx = idx + 1;
    }
    Some(spell_strings)
}

/// Parses one line of a dictionary into a vocabulary entry; `None` when the
/// line is malformed.
pub fn parse_line(line: &str) -> (r: Option<VocabularyEntry>)
    requires
        line@.len() <= usize::MAX,
    ensures
        match r {
            Some(e) => parse_line_spec(line@) == Some(e@),
            None => parse_line_spec(line@) is None,
        },
{
    let elements = split_by_non_escaped(line, ':');
    if elements.len() != 2 {
        return None;
    }
    proof {
        lemma_split_segments_bounded(line@, ':');
        assert(elements.deep_view()[0] == elements@[0]@);
        assert(elements.deep_view()[1] == elements@[1]@);
    }
    let view = elements[0].as_str();
    let spells_str = elements[1].as_str();
    let (view_text, counts) = match remove_square_parentheses(view) {
        Some(parts) => parts,
        None => return None,
    };
    proof {
        lemma_extract_spans(view@);
    }
    let ghost spans = spans_view(counts@);
    let spells = split_by_non_escaped(spells_str, ',');
    let ghost wanted = collapse_all(spells.deep_view());
    let mut collapsed: Vec<String> = Vec::new();
    let mut idx: usize = 0;
    while idx < spells.len()
        invariant
            idx <= spells@.len(),
            wanted == collapse_all(spells.deep_view()),
            collapsed@.len() == idx,
            forall|i: int| 0 <= i < idx ==> (#[trigger] collapsed@[i])@ == wanted[i],
        decreases spells.len() - idx,
    {
        assert(spells.deep_view()[idx as int] == spells@[idx as int]@);
        collapsed.push(convert_two_backslash_to_single(spells[idx].as_str()));
        idx = idx + 1;
    }
    if collapsed.len() != counts.len() {
        return None;
    }
    let spell_strings = match construct_spell_strings(collapsed.as_slice()) {
        Some(v) => v,
        None => {
            assert(!(forall|i: int| 0 <= i < wanted.len() ==> is_spell_text(#[trigger] wanted[i])))
                by {
                if forall|i: int| 0 <= i < wanted.len() ==> is_spell_text(#[trigger] wanted[i]) {
                    assert forall|i: int| 0 <= i < collapsed@.len() implies is_spell_text(
                        #[trigger] collapsed@[i]@,
                    ) by {
                        assert(collapsed@[i]@ == wanted[i]);
                    }
                }
            }
            return None;
        },
    };
    assert forall|i: int| 0 <= i < wanted.len() implies is_spell_text(#[trigger] wanted[i]) by {
        assert(collapsed@[i]@ == wanted[i]);
    }
    let ghost models = elements_of(wanted, spans);
    let mut spells_elements: Vec<SpellingElement> = Vec::new();
    let mut k: usize = 0;
    let n = counts.len();
    for spell_string in it: spell_strings.into_iter()
        invariant
            k == it.index(),
            n == counts@.len(),
            it.seq().len() == counts@.len(),
            forall|i: int| 0 <= i < it.seq().len() ==> (#[trigger] it.seq()[i])@ == wanted[i],
            counts@.len() == wanted.len(),
            models == elements_of(wanted, spans),
            spans == spans_view(counts@),
            spells_elements@.len() == k,
            forall|i: int| 0 <= i < k ==> (#[trigger] spells_elements@[i]).model() == models[i],
    {
        let count = counts[k];
        if count == 1 {
            spells_elements.push(SpellingElement::Normal(spell_string));
        } else {
            spells_elements.push(SpellingElement::Compound(spell_string, count));
        }
        k = k + 1;
    }
    assert(elements_model(spells_elements@) == models);
    proof {
        lemma_elements_total(wanted, spans);
    }
    assert(covers(view_text@, models));
    VocabularyEntry::new(view_text, spells_elements)
}

/// The entries of the well-formed lines, in order, and the 1-based numbers
/// of the malformed ones, in order.
pub open spec fn parse_lines_spec(lines: Seq<Seq<char>>) -> (Seq<EntryModel>, Seq<nat>)
    decreases lines.len(),
{
    if lines.len() == 0 {
        (Seq::empty(), Seq::empty())
    } else {
        let (entries, rejected) = parse_lines_spec(lines.drop_last());
        match parse_line_spec(lines.last()) {
            Some(e) => (entries.push(e), rejected),
            None => (entries, rejected.push(lines.len())),
        }
    }
}

/// The entries and the numbers of the malformed lines of a dictionary text.
pub open spec fn parse_content_spec(content: Seq<char>) -> (Seq<EntryModel>, Seq<nat>) {
    parse_lines_spec(lines_of(content))
}

/// The models of a sequence of entries.
pub open spec fn entries_view(v: Seq<VocabularyEntry>) -> Seq<EntryModel> {
    v.map_values(|e: VocabularyEntry| e@)
}

/// Line numbers as mathematical integers.
pub open spec fn numbers_view(v: Seq<usize>) -> Seq<nat> {
    v.map_values(|n: usize| n as nat)
}

/// Parses a whole dictionary text: the entries of its well-formed lines in
/// order, and the 1-based numbers of its malformed lines in ascending order.
pub fn parse_dictionary_content(file_content: &str) -> (r: (Vec<VocabularyEntry>, Vec<usize>))
    requires
        file_content@.len() <= usize::MAX,
    ensures
        entries_view(r.0@) == parse_content_spec(file_content@).0,
        numbers_view(r.1@) == parse_content_spec(file_content@).1,
{
    let mut vocabulary_entries: Vec<VocabularyEntry> = Vec::new();
    let mut invalid_line_numbers: Vec<usize> = Vec::new();
    let lines = split_lines(file_content);
    proof {
        lemma_lines_bounded(file_content@);
    }
    let ghost all = lines.deep_view();
    assert(all.take(0) == Seq::<Seq<char>>::empty());
    assert(entries_view(vocabulary_entries@) == Seq::<EntryModel>::empty());
    assert(numbers_view(invalid_line_numbers@) == Seq::<nat>::empty());
    let mut idx: usize = 0;
    while idx < lines.len()
        invariant
            idx <= lines@.len(),
            all == lines.deep_view(),
            all == lines_of(file_content@),
            file_content@.len() <= usize::MAX,
            forall|k: int| 0 <= k < all.len() ==> #[trigger] all[k].len() <= file_content@.len(),
            parse_lines_spec(all.take(idx as int)) == (
                entries_view(vocabulary_entries@),
                numbers_view(invalid_line_numbers@),
            ),
        decreases lines.len() - idx,
    {
        assert(all.take(idx + 1).drop_last() == all.take(idx as int));
        assert(all[idx as int] == lines@[idx as int]@);
        // Line numbers start at 1.
        let line_number = idx + 1;
        let ghost entries = entries_view(vocabulary_entries@);
        let ghost numbers = numbers_view(invalid_line_numbers@);
        match parse_line(lines[idx].as_str()) {
            Some(vocabulary_entry) => {
                vocabulary_entries.push(vocabulary_entry);
                assert(entries_view(vocabulary_entries@) == entries.push(
                    vocabulary_entries@.last()@,
                ));
            },
            None => {
                invalid_line_numbers.push(line_number);
                assert(numbers_view(invalid_line_numbers@) == numbers.push(line_number as nat));
            },
        }
        idx = idx + 1;
    }
    assert(all.take(idx as int) == all);
    (vocabulary_entries, invalid_line_numbers)
}

/// A line with no unescaped `:`, or with more than one, is malformed.
pub proof fn lemma_colon_count_rejects(line: Seq<char>)
    requires
        unescaped_count(line, ':') != 1,
    ensures
        parse_line_spec(line) is None,
{
    lemma_split_len(line, ':');
}

/// A line whose display text has another number of segments than its
/// spelling field has spellings is malformed.
pub proof fn lemma_segment_count_mismatch_rejects(line: Seq<char>)
    requires
        split_spec(line, ':').len() == 2,
        extract_spec(split_spec(line, ':')[0]) matches Some((text, spans)) && split_spec(
            split_spec(line, ':')[1],
            ',',
        ).len() != spans.len(),
    ensures
        parse_line_spec(line) is None,
{
}

/// Every line is accounted for once: either it gives an entry or its number
/// is listed; the listed numbers are line numbers in ascending order.
pub proof fn lemma_parse_lines_accounting(lines: Seq<Seq<char>>)
    ensures
        ({
            let (entries, rejected) = parse_lines_spec(lines);
            &&& entries.len() + rejected.len() == lines.len()
            &&& forall|i: int| 0 <= i < rejected.len() ==> 1 <= #[trigger] rejected[i] <= lines.len()
            &&& forall|i: int, j: int| 0 <= i < j < rejected.len() ==> rejected[i] < rejected[j]
        }),
    decreases lines.len(),
{
    if lines.len() > 0 {
        lemma_parse_lines_accounting(lines.drop_last());
    }
}

/// Parsing depends on the text alone: the same text parsed twice gives the
/// same entries and the same malformed line numbers.
pub proof fn lemma_parse_repeatable(first: Seq<char>, second: Seq<char>)
    requires
        first == second,
    ensures
        parse_content_spec(first) == parse_content_spec(second),
{
}

} // verus!

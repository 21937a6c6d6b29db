//! Spelling strings, spelling elements and vocabulary entries.
use vstd::prelude::*;

verus! {

/// Whether `c` may stand in a spelling: a displayable ASCII character, a
/// hiragana, or one of the full-width Japanese symbols.
pub open spec fn is_spell_char(c: char) -> bool {
    let u = c as u32;
    ||| 0x20 <= u <= 0x7e
    ||| 0x3041 <= u <= 0x308f
    ||| 0x3092 <= u <= 0x3094
    ||| u == 0x2019
    ||| u == 0x201d
    ||| 0x3000 <= u <= 0x3002
    ||| 0x300c <= u <= 0x300d
    ||| u == 0x301c
    ||| 0x30fb <= u <= 0x30fc
    ||| u == 0xff01
    ||| 0xff03 <= u <= 0xff06
    ||| 0xff08 <= u <= 0xff0b
    ||| u == 0xff0f
    ||| 0xff1a <= u <= 0xff20
    ||| 0xff3e <= u <= 0xff40
    ||| 0xff5b <= u <= 0xff5d
    ||| u == 0xffe5
}

/// Whether every character of `t` may stand in a spelling.
pub open spec fn is_spell_text(t: Seq<char>) -> bool {
    forall|i: int| 0 <= i < t.len() ==> is_spell_char(#[trigger] t[i])
}

/// Relies on `typing_engine::SpellString::try_from`, which accepts a string
/// exactly when each of its characters is usable in a spelling (displayable
/// ASCII, hiragana, or a listed Japanese symbol).
#[verifier::external_body]
fn is_spell_string(s: &String) -> (r: bool)
    ensures
        r == is_spell_text(s@),
{
    typing_engine::SpellString::try_from(s.clone()).is_ok()
}

/// A string made only of characters usable in a spelling.
#[derive(Debug, PartialEq, Eq)]
pub struct SpellString {
    text: String,
}

impl View for SpellString {
    type V = Seq<char>;

    closed spec fn view(&self) -> Seq<char> {
        self.text@
    }
}

impl SpellString {
    #[verifier::type_invariant]
    spec fn inv(&self) -> bool {
        is_spell_text(self.text@)
    }

    /// Validates `text` as a spelling.
    pub fn new(text: String) -> (r: Option<SpellString>)
        ensures
            r is Some <==> is_spell_text(text@),
            r matches Some(ss) ==> ss@ == text@,
    {
        if is_spell_string(&text) {
            Some(SpellString { text })
        } else {
            None
        }
    }

    /// The characters of this spelling, each usable in a spelling.
    pub fn as_str(&self) -> (r: &str)
        ensures
            r@ == self@,
            is_spell_text(r@),
    {
        proof {
            use_type_invariant(self);
        }
        self.text.as_str()
    }
}

/// What a spelling element stands for.
pub enum ElementModel {
    /// A spelling of one display character.
    Normal(Seq<char>),
    /// A spelling of the given number of display characters.
    Compound(Seq<char>, nat),
}

impl ElementModel {
    /// How many display characters the element covers.
    pub open spec fn span(self) -> nat {
        match self {
            ElementModel::Normal(_) => 1,
            ElementModel::Compound(_, n) => n,
        }
    }
}

/// One element of the spelling of a vocabulary entry.
#[derive(Debug, PartialEq, Eq)]
pub enum SpellingElement {
    /// A spelling of exactly one display character.
    Normal(SpellString),
    /// A spelling of several consecutive display characters.
    Compound(SpellString, usize),
}

impl SpellingElement {
    /// What the element stands for.
    pub open spec fn model(&self) -> ElementModel {
        match self {
            SpellingElement::Normal(s) => ElementModel::Normal(s@),
            SpellingElement::Compound(s, n) => ElementModel::Compound(s@, *n as nat),
        }
    }
}

/// The models of a sequence of spelling elements.
pub open spec fn elements_model(v: Seq<SpellingElement>) -> Seq<ElementModel> {
    v.map_values(|e: SpellingElement| e.model())
}

/// The number of display characters that `spells` cover together.
pub open spec fn spans_total(spells: Seq<ElementModel>) -> nat
    decreases spells.len(),
{
    if spells.len() == 0 {
        0
    } else {
        spans_total(spells.drop_last()) + spells.last().span()
    }
}

/// Whether `spells` cover `text` exactly, each element at least one
/// character.
pub open spec fn covers(text: Seq<char>, spells: Seq<ElementModel>) -> bool {
    &&& forall|i: int| 0 <= i < spells.len() ==> #[trigger] spells[i].span() >= 1
    &&& spans_total(spells) == text.len()
}

/// What a vocabulary entry stands for.
pub struct EntryModel {
    /// The display text.
    pub text: Seq<char>,
    /// The spelling elements, in display order.
    pub spells: Seq<ElementModel>,
}

/// A display text with its spelling, element by element.
#[derive(Debug, PartialEq, Eq)]
pub struct VocabularyEntry {
    view: String,
    spells: Vec<SpellingElement>,
}

impl View for VocabularyEntry {
    type V = EntryModel;

    closed spec fn view(&self) -> EntryModel {
        EntryModel { text: self.view@, spells: elements_model(self.spells@) }
    }
}

impl VocabularyEntry {
    #[verifier::type_invariant]
    spec fn inv(&self) -> bool {
        covers(self.view@, elements_model(self.spells@))
    }

    /// Builds an entry when the elements cover the display text exactly.
    pub fn new(view: String, spells: Vec<SpellingElement>) -> (r: Option<VocabularyEntry>)
        ensures
            r is Some <==> covers(view@, elements_model(spells@)),
            r matches Some(e) ==> e@ == (EntryModel {
                text: view@,
                spells: elements_model(spells@),
            }),
    {
        let view_count = view.as_str().unicode_len();
        let mut total: usize = 0;
        let mut idx: usize = 0;
        while idx < spells.len()
            invariant
                view_count == view@.len(),
                idx <= spells@.len(),
                total as nat == spans_total(elements_model(spells@).take(idx as int)),
                forall|i: int| 0 <= i < idx ==> #[trigger] elements_model(spells@)[i].span() >= 1,
            decreases spells.len() - idx,
        {
            let ghost models = elements_model(spells@);
            assert(models.take(idx + 1).drop_last() == models.take(idx as int));
            let span = match &spells[idx] {
                SpellingElement::Normal(_) => 1,
                SpellingElement::Compound(_, n) => *n,
            };
            assert(models[idx as int].span() == span);
            assert(models.take(idx + 1).last() == models[idx as int]);
            if span == 0 {
                return None;
            }
            assert(spans_total(models.take(idx + 1)) == total + span);
            if total > usize::MAX - span {
                proof {
                    lemma_spans_total_prefix(models, idx as int + 1);
                }
                return None;
            }
            total = total + span;
            idx = idx + 1;
        }
        assert(elements_model(spells@).take(idx as int) == elements_model(spells@));
        if total != view_count {
            return None;
        }
        Some(VocabularyEntry { view, spells })
    }

    /// The display text.
    pub fn text(&self) -> (r: &str)
        ensures
            r@ == self@.text,
    {
        self.view.as_str()
    }

    /// The spelling elements, in display order; they cover the display
    /// text exactly.
    pub fn spells(&self) -> (r: &Vec<SpellingElement>)
        ensures
            elements_model(r@) == self@.spells,
            covers(self@.text, self@.spells),
    {
        proof {
            use_type_invariant(self);
        }
        &self.spells
    }
}

/// The spans of a prefix add up to no more than those of the whole.
pub proof fn lemma_spans_total_prefix(spells: Seq<ElementModel>, n: int)
    requires
        0 <= n <= spells.len(),
    ensures
        spans_total(spells.take(n)) <= spans_total(spells),
    decreases spells.len() - n,
{
    if n < spells.len() {
        assert(spells.take(n + 1).drop_last() == spells.take(n));
        lemma_spans_total_prefix(spells, n + 1);
    } else {
        assert(spells.take(n) == spells);
    }
}

} // verus!

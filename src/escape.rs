//! Escape-aware splitting and backslash-pair collapsing.
use vstd::prelude::*;

use crate::text::push_char;

verus! {

/// State of a left-to-right scan that splits a line on a separator.
pub struct SplitState {
    /// Segments already closed by a separator.
    pub done: Seq<Seq<char>>,
    /// The segment being built.
    pub current: Seq<char>,
    /// Whether the previous character was an escaping backslash.
    pub escaped: bool,
}

/// One step of the splitting scan on character `c`.
pub open spec fn split_step(st: SplitState, c: char, sep: char) -> SplitState {
    if c == sep {
        if st.escaped {
            SplitState { done: st.done, current: st.current.push(c), escaped: false }
        } else {
            SplitState { done: st.done.push(st.current), current: Seq::empty(), escaped: false }
        }
    } else if c == '\\' {
        if st.escaped {
            SplitState { done: st.done, current: st.current.push('\\').push('\\'), escaped: false }
        } else {
            SplitState { done: st.done, current: st.current, escaped: true }
        }
    } else if st.escaped {
        SplitState { done: st.done, current: st.current.push('\\').push(c), escaped: false }
    } else {
        SplitState { done: st.done, current: st.current.push(c), escaped: false }
    }
}

/// The splitting scan run over all of `s`.
pub open spec fn split_run(s: Seq<char>, sep: char) -> SplitState
    decreases s.len(),
{
    if s.len() == 0 {
        SplitState { done: Seq::empty(), current: Seq::empty(), escaped: false }
    } else {
        split_step(split_run(s.drop_last(), sep), s.last(), sep)
    }
}

/// The segments of `s` between unescaped separators.
///
/// A backslash before the separator makes it a literal separator; a
/// backslash before a backslash gives two backslashes; a backslash before any
/// other character is kept; a backslash at the very end is dropped.
pub open spec fn split_spec(s: Seq<char>, sep: char) -> Seq<Seq<char>> {
    let st = split_run(s, sep);
    st.done.push(st.current)
}

/// The number of backslashes that immediately precede the end of `s`.
pub open spec fn trailing_backslashes(s: Seq<char>) -> nat
    decreases s.len(),
{
    if s.len() > 0 && s.last() == '\\' {
        1 + trailing_backslashes(s.drop_last())
    } else {
        0
    }
}

/// Whether position `i` of `s` holds `sep` and is not escaped, that is, is
/// preceded by an even run of backslashes.
pub open spec fn is_unescaped_at(s: Seq<char>, i: int, sep: char) -> bool {
    &&& 0 <= i < s.len()
    &&& s[i] == sep
    &&& trailing_backslashes(s.take(i)) % 2 == 0
}

/// The number of unescaped occurrences of `sep` in `s`.
pub open spec fn unescaped_count(s: Seq<char>, sep: char) -> nat
    decreases s.len(),
{
    if s.len() == 0 {
        0
    } else {
        unescaped_count(s.drop_last(), sep) + if is_unescaped_at(s, s.len() - 1, sep) {
            1nat
        } else {
            0nat
        }
    }
}

/// The scan is pending an escape exactly after an odd run of backslashes,
/// and it has closed one segment per unescaped separator.
pub proof fn lemma_split_run_counts(s: Seq<char>, sep: char)
    requires
        sep != '\\',
    ensures
        split_run(s, sep).escaped == (trailing_backslashes(s) % 2 == 1),
        split_run(s, sep).done.len() == unescaped_count(s, sep),
    decreases s.len(),
{
    if s.len() > 0 {
        lemma_split_run_counts(s.drop_last(), sep);
        assert(s.take(s.len() - 1) == s.drop_last());
    }
}

/// Splitting yields one segment more than there are unescaped separators.
pub proof fn lemma_split_len(s: Seq<char>, sep: char)
    requires
        sep != '\\',
    ensures
        split_spec(s, sep).len() == unescaped_count(s, sep) + 1,
{
    lemma_split_run_counts(s, sep);
}

/// Splits `line` on `separator`, treating a separator preceded by a
/// backslash as a literal character of the segment.
pub fn split_by_non_escaped(line: &str, separator: char) -> (r: Vec<String>)
    requires
        separator != '\\',
    ensures
        r.deep_view() == split_spec(line@, separator),
        r@.len() == unescaped_count(line@, separator) + 1,
{
    let mut splitted: Vec<String> = Vec::new();
    let mut element = String::new();
    let mut is_prev_escape = false;
    assert(splitted.deep_view() == Seq::<Seq<char>>::empty());
    assert(line@.take(0) == Seq::<char>::empty());

    for c in it: line.chars()
        invariant
            it.seq() == line@,
            split_run(line@.take(it.index()), separator) == (SplitState {
                done: splitted.deep_view(),
                current: element@,
                escaped: is_prev_escape,
            }),
    {
        let ghost before = line@.take(it.index());
        assert(line@.take(it.index() + 1).drop_last() == before);
        if c == separator {
            if is_prev_escape {
                push_char(&mut element, c);
            } else {
                let ghost done = splitted.deep_view();
                splitted.push(element.clone());
                assert(splitted.deep_view() == done.push(element@));
                element = String::new();
            }
            is_prev_escape = false;
        } else if c == '\\' {
            if is_prev_escape {
                push_char(&mut element, c);
                push_char(&mut element, c);
                is_prev_escape = false;
            } else {
                is_prev_escape = true;
            }
        } else {
            if is_prev_escape {
                push_char(&mut element, '\\');
            }
            push_char(&mut element, c);
            is_prev_escape = false;
        }
    }
    assert(line@.take(line@.len() as int) == line@);
    let ghost done = splitted.deep_view();
    splitted.push(element);
    assert(splitted.deep_view() == done.push(split_run(line@, separator).current));
    proof {
        lemma_split_len(line@, separator);
    }
    splitted
}

/// No segment of a split is longer than the text that was split.
pub proof fn lemma_split_segments_bounded(s: Seq<char>, sep: char)
    ensures
        forall|k: int|
            0 <= k < split_spec(s, sep).len() ==> #[trigger] split_spec(s, sep)[k].len() <= s.len(),
{
    lemma_split_run_bounded(s, sep);
}

/// The scan keeps no more characters in a segment than it has read.
proof fn lemma_split_run_bounded(s: Seq<char>, sep: char)
    ensures
        ({
            let st = split_run(s, sep);
            &&& st.current.len() + (if st.escaped { 1int } else { 0int }) <= s.len()
            &&& forall|k: int| 0 <= k < st.done.len() ==> #[trigger] st.done[k].len() <= s.len()
        }),
    decreases s.len(),
{
    if s.len() > 0 {
        lemma_split_run_bounded(s.drop_last(), sep);
    }
}

/// State of a left-to-right scan that collapses backslash pairs.
pub struct CollapseState {
    /// The characters produced so far.
    pub out: Seq<char>,
    /// Whether a single backslash is waiting for the next character.
    pub pending: bool,
}

/// One step of the collapsing scan on character `c`.
pub open spec fn collapse_step(st: CollapseState, c: char) -> CollapseState {
    if c == '\\' {
        if st.pending {
            CollapseState { out: st.out.push('\\'), pending: false }
        } else {
            CollapseState { out: st.out, pending: true }
        }
    } else if st.pending {
        CollapseState { out: st.out.push('\\').push(c), pending: false }
    } else {
        CollapseState { out: st.out.push(c), pending: false }
    }
}

/// The collapsing scan run over all of `s`.
pub open spec fn collapse_run(s: Seq<char>) -> CollapseState
    decreases s.len(),
{
    if s.len() == 0 {
        CollapseState { out: Seq::empty(), pending: false }
    } else {
        collapse_step(collapse_run(s.drop_last()), s.last())
    }
}

/// `s` with each pair of consecutive backslashes, read from the left,
/// collapsed into one; a lone backslash is kept.
pub open spec fn collapse_spec(s: Seq<char>) -> Seq<char> {
    let st = collapse_run(s);
    if st.pending {
        st.out.push('\\')
    } else {
        st.out
    }
}

/// `n` backslashes in a row.
pub open spec fn backslashes(n: nat) -> Seq<char> {
    Seq::new(n, |i: int| '\\')
}

/// A run of `n` backslashes collapses to `n / 2` of them, rounded up: each
/// pair becomes one and a leftover single backslash is kept.
pub proof fn lemma_collapse_backslash_run(n: nat)
    ensures
        collapse_spec(backslashes(n)) == backslashes((n + 1) / 2),
{
    lemma_collapse_run_backslashes(n);
    if n % 2 == 1 {
        assert(backslashes(n / 2).push('\\') == backslashes((n + 1) / 2));
    } else {
        assert(backslashes(n / 2) == backslashes((n + 1) / 2));
    }
}

proof fn lemma_collapse_run_backslashes(n: nat)
    ensures
        collapse_run(backslashes(n)) == (CollapseState {
            out: backslashes(n / 2),
            pending: n % 2 == 1,
        }),
    decreases n,
{
    if n > 0 {
        lemma_collapse_run_backslashes((n - 1) as nat);
        assert(backslashes(n).drop_last() == backslashes((n - 1) as nat));
        assert(backslashes(n).last() == '\\');
        if n % 2 == 0 {
            assert(((n - 1) as nat) / 2 + 1 == n / 2);
            assert(backslashes(((n - 1) as nat) / 2).push('\\') == backslashes(n / 2));
        } else {
            assert(((n - 1) as nat) / 2 == n / 2);
        }
    } else {
        assert(backslashes(0) == Seq::<char>::empty());
    }
}

/// Collapses each pair of consecutive backslashes in `s` into a single one.
pub fn convert_two_backslash_to_single(s: &str) -> (r: String)
    ensures
        r@ == collapse_spec(s@),
{
    let mut string = String::new();
    let mut is_prev_escape = false;
    assert(s@.take(0) == Seq::<char>::empty());

    for c in it: s.chars()
        invariant
            it.seq() == s@,
            collapse_run(s@.take(it.index())) == (CollapseState {
                out: string@,
                pending: is_prev_escape,
            }),
    {
        assert(s@.take(it.index() + 1).drop_last() == s@.take(it.index()));
        if c == '\\' {
            if is_prev_escape {
                push_char(&mut string, c);
                is_prev_escape = false;
            } else {
                is_prev_escape = true;
            }
        } else {
            if is_prev_escape {
                push_char(&mut string, '\\');
            }
            push_char(&mut string, c);
            is_prev_escape = false;
        }
    }
    assert(s@.take(s@.len() as int) == s@);
    if is_prev_escape {
        push_char(&mut string, '\\');
    }
    string
}

} // verus!

//! Removal of square-bracket groups from the display side of an entry.
use vstd::prelude::*;

use crate::escape::{is_unescaped_at, trailing_backslashes};
use crate::text::push_char;

verus! {

/// State of a left-to-right scan that strips one level of brackets.
pub struct BracketState {
    /// The characters kept so far.
    pub out: Seq<char>,
    /// One entry per closed group (its length) and per character kept
    /// outside any group (1), in order.
    pub spans: Seq<nat>,
    /// The position in `out` where the open group starts, if one is open.
    pub open: Option<nat>,
    /// Whether the previous character was an escaping backslash.
    pub escaped: bool,
    /// Whether the scan has met nested, unbalanced or empty brackets.
    pub rejected: bool,
}

/// Keeps character `c`; outside a group it forms a span of its own.
pub open spec fn bracket_emit(st: BracketState, c: char) -> BracketState {
    BracketState {
        out: st.out.push(c),
        spans: if st.open is None {
            st.spans.push(1)
        } else {
            st.spans
        },
        open: st.open,
        escaped: false,
        rejected: st.rejected,
    }
}

/// The scan marked as failed.
pub open spec fn bracket_reject(st: BracketState) -> BracketState {
    BracketState { rejected: true, ..st }
}

/// One step of the bracket scan on character `c`.
pub open spec fn bracket_step(st: BracketState, c: char) -> BracketState {
    if st.rejected {
        st
    } else if c == '[' {
        if st.escaped {
            bracket_emit(st, c)
        } else if st.open is Some {
            bracket_reject(st)
        } else {
            BracketState { open: Some(st.out.len()), escaped: false, ..st }
        }
    } else if c == ']' {
        if st.escaped {
            bracket_emit(st, c)
        } else {
            match st.open {
                None => bracket_reject(st),
                Some(start) => if start == st.out.len() {
                    bracket_reject(st)
                } else {
                    BracketState {
                        spans: st.spans.push((st.out.len() - start) as nat),
                        open: None,
                        escaped: false,
                        ..st
                    }
                },
            }
        }
    } else if c == '\\' {
        if st.escaped {
            bracket_emit(st, c)
        } else {
            BracketState { escaped: true, ..st }
        }
    } else if st.escaped {
        bracket_emit(bracket_emit(st, '\\'), c)
    } else {
        bracket_emit(st, c)
    }
}

/// The bracket scan run over all of `s`.
pub open spec fn bracket_run(s: Seq<char>) -> BracketState
    decreases s.len(),
{
    if s.len() == 0 {
        BracketState {
            out: Seq::empty(),
            spans: Seq::empty(),
            open: None,
            escaped: false,
            rejected: false,
        }
    } else {
        bracket_step(bracket_run(s.drop_last()), s.last())
    }
}

/// The text of `s` without its brackets, with the span of each display
/// segment; `None` for nested, unbalanced or empty brackets.
pub open spec fn extract_spec(s: Seq<char>) -> Option<(Seq<char>, Seq<nat>)> {
    let st = bracket_run(s);
    if st.rejected || st.open is Some {
        None
    } else {
        Some((st.out, st.spans))
    }
}

/// The sum of a sequence of spans.
pub open spec fn span_sum(spans: Seq<nat>) -> nat
    decreases spans.len(),
{
    if spans.len() == 0 {
        0
    } else {
        span_sum(spans.drop_last()) + spans.last()
    }
}

/// A failed scan stays failed whatever follows.
pub proof fn lemma_rejected_stays(s: Seq<char>, n: int)
    requires
        0 <= n <= s.len(),
        bracket_run(s.take(n)).rejected,
    ensures
        bracket_run(s).rejected,
    decreases s.len() - n,
{
    if n < s.len() {
        assert(s.take(n + 1).drop_last() == s.take(n));
        lemma_rejected_stays(s, n + 1);
    } else {
        assert(s.take(n) == s);
    }
}

/// Adding a span adds its length to the sum.
pub proof fn lemma_span_sum_push(spans: Seq<nat>, x: nat)
    ensures
        span_sum(spans.push(x)) == span_sum(spans) + x,
{
    assert(spans.push(x).drop_last() == spans);
}

/// The coverage facts that each step of the scan keeps.
pub open spec fn bracket_inv(st: BracketState, read: nat) -> bool {
    &&& st.open matches Some(k) ==> k <= st.out.len()
    &&& span_sum(st.spans) + match st.open {
        Some(k) => st.out.len() - k,
        None => 0int,
    } == st.out.len()
    &&& forall|j: int| 0 <= j < st.spans.len() ==> st.spans[j] >= 1
    &&& st.out.len() + (if st.escaped { 1int } else { 0int }) <= read
}

/// Keeping a character keeps the coverage facts.
proof fn lemma_emit_inv(st: BracketState, c: char, read: nat)
    requires
        bracket_inv(st, read),
    ensures
        bracket_inv(bracket_emit(st, c), read + 1),
{
    lemma_span_sum_push(st.spans, 1);
}

/// While the scan runs, the spans and the open group cover the kept text
/// exactly, every span is positive, and no more is kept than was read.
pub proof fn lemma_bracket_run_inv(s: Seq<char>)
    ensures
        bracket_inv(bracket_run(s), s.len()),
    decreases s.len(),
{
    if s.len() > 0 {
        let prev = bracket_run(s.drop_last());
        lemma_bracket_run_inv(s.drop_last());
        let c = s.last();
        let n = (s.len() - 1) as nat;
        if !prev.rejected {
            if c == '[' || c == ']' || c == '\\' {
                if prev.escaped {
                    lemma_emit_inv(prev, c, n);
                } else if c == ']' {
                    if let Some(k) = prev.open {
                        lemma_span_sum_push(prev.spans, (prev.out.len() - k) as nat);
                    }
                }
            } else if prev.escaped {
                lemma_emit_inv(prev, '\\', n);
                lemma_emit_inv(bracket_emit(prev, '\\'), c, n + 1);
            } else {
                lemma_emit_inv(prev, c, n);
            }
        }
    }
}

/// Every span of a successful extraction is positive, and together they
/// cover the stripped text.
pub proof fn lemma_extract_spans(s: Seq<char>)
    ensures
        extract_spec(s) matches Some((out, spans)) ==> {
            &&& span_sum(spans) == out.len()
            &&& forall|j: int| 0 <= j < spans.len() ==> spans[j] >= 1
            &&& out.len() <= s.len()
        },
{
    lemma_bracket_run_inv(s);
}

/// Until the scan fails, it is pending an escape exactly after an odd run
/// of backslashes.
pub proof fn lemma_bracket_escape_flag(s: Seq<char>)
    ensures
        !bracket_run(s).rejected ==> (bracket_run(s).escaped <==> trailing_backslashes(s) % 2
            == 1),
    decreases s.len(),
{
    if s.len() > 0 {
        lemma_bracket_escape_flag(s.drop_last());
    }
}

/// Once an unescaped `[` at `j` has been read, the scan holds an open group
/// or has failed, up to the next unescaped `]`.
proof fn lemma_group_stays_open(s: Seq<char>, j: int, k: int)
    requires
        0 <= j < k <= s.len(),
        is_unescaped_at(s, j, '['),
        forall|m: int| j < m < k ==> !is_unescaped_at(s, m, ']'),
    ensures
        bracket_run(s.take(k)).rejected || bracket_run(s.take(k)).open is Some,
    decreases k - j,
{
    let prefix = s.take(k);
    assert(prefix.drop_last() == s.take(k - 1));
    assert(prefix.last() == s[k - 1]);
    lemma_bracket_escape_flag(s.take(k - 1));
    if k - 1 > j {
        lemma_group_stays_open(s, j, k - 1);
        assert(!is_unescaped_at(s, k - 1, ']'));
    }
}

/// Brackets do not nest: an unescaped `[` inside a group that an earlier
/// unescaped `[` opened fails the extraction.
pub proof fn lemma_nested_brackets_reject(s: Seq<char>, j: int, i: int)
    requires
        0 <= j < i < s.len(),
        is_unescaped_at(s, j, '['),
        is_unescaped_at(s, i, '['),
        forall|m: int| j < m < i ==> !is_unescaped_at(s, m, ']'),
    ensures
        extract_spec(s) is None,
{
    lemma_group_stays_open(s, j, i);
    lemma_bracket_escape_flag(s.take(i));
    assert(s.take(i + 1).drop_last() == s.take(i));
    assert(s.take(i + 1).last() == s[i]);
    lemma_rejected_stays(s, i + 1);
}

/// An unescaped `[` directly followed by `]` is an empty group and fails
/// the extraction.
pub proof fn lemma_empty_group_rejects(s: Seq<char>, i: int)
    requires
        0 <= i,
        i + 1 < s.len(),
        is_unescaped_at(s, i, '['),
        s[i + 1] == ']',
    ensures
        extract_spec(s) is None,
{
    lemma_bracket_escape_flag(s.take(i));
    assert(s.take(i + 1).drop_last() == s.take(i));
    assert(s.take(i + 1).last() == s[i]);
    assert(s.take(i + 2).drop_last() == s.take(i + 1));
    assert(s.take(i + 2).last() == s[i + 1]);
    let before = bracket_run(s.take(i));
    if before.rejected {
        lemma_rejected_stays(s, i);
    } else if before.open is Some {
        lemma_rejected_stays(s, i + 1);
    } else {
        let opened = bracket_run(s.take(i + 1));
        assert(opened.open == Some(before.out.len()) && opened.out == before.out);
        assert(!opened.escaped && !opened.rejected);
        assert(bracket_run(s.take(i + 2)).rejected);
        lemma_rejected_stays(s, i + 2);
    }
}

/// A group still open at the end of the text fails the extraction.
pub proof fn lemma_unclosed_group_rejects(s: Seq<char>, j: int)
    requires
        0 <= j < s.len(),
        is_unescaped_at(s, j, '['),
        forall|m: int| j < m < s.len() ==> !is_unescaped_at(s, m, ']'),
    ensures
        extract_spec(s) is None,
{
    lemma_group_stays_open(s, j, s.len() as int);
    assert(s.take(s.len() as int) == s);
}

/// Spans as mathematical integers.
pub open spec fn spans_view(v: Seq<usize>) -> Seq<nat> {
    v.map_values(|x: usize| x as nat)
}

/// An optional position as a mathematical integer.
pub open spec fn position_view(o: Option<usize>) -> Option<nat> {
    match o {
        Some(k) => Some(k as nat),
        None => None,
    }
}

/// Removes one level of square brackets from `s`, treating escaped brackets
/// and backslashes as literal characters.
///
/// Returns the stripped text and, for each display segment in order, how many
/// characters it covers: the length of a bracketed group, or 1 for a
/// character outside any group. Returns `None` for nested, unbalanced or
/// empty brackets.
pub fn remove_square_parentheses(s: &str) -> (r: Option<(String, Vec<usize>)>)
    requires
        s@.len() <= usize::MAX,
    ensures
        match r {
            Some((out, spans)) => extract_spec(s@) == Some((out@, spans_view(spans@))),
            None => extract_spec(s@) is None,
        },
{
    let mut string = String::new();
    let mut spans: Vec<usize> = Vec::new();
    let mut is_prev_escape = false;
    let mut i: usize = 0;
    let mut start_i: Option<usize> = None;
    assert(spans_view(spans@) == Seq::<nat>::empty());
    assert(s@.take(0) == Seq::<char>::empty());

    for c in it: s.chars()
        invariant
            it.seq() == s@,
            s@.len() <= usize::MAX,
            i == string@.len(),
            bracket_run(s@.take(it.index())) == (BracketState {
                out: string@,
                spans: spans_view(spans@),
                open: position_view(start_i),
                escaped: is_prev_escape,
                rejected: false,
            }),
    {
        let ghost read = s@.take(it.index());
        let ghost next = s@.take(it.index() + 1);
        assert(next.drop_last() == read);
        proof {
            lemma_bracket_run_inv(read);
        }
        if c == '[' {
            if is_prev_escape {
                push_char(&mut string, c);
                if start_i.is_none() {
                    spans.push(1);
                }
                i = i + 1;
            } else {
                if start_i.is_some() {
                    proof {
                        lemma_rejected_stays(s@, it.index() + 1);
                    }
                    return None;
                }
                start_i = Some(i);
            }
            is_prev_escape = false;
        } else if c == ']' {
            if is_prev_escape {
                push_char(&mut string, c);
                if start_i.is_none() {
                    spans.push(1);
                }
                i = i + 1;
            } else {
                match start_i {
                    None => {
                        proof {
                            lemma_rejected_stays(s@, it.index() + 1);
                        }
                        return None;
                    },
                    Some(start) => {
                        if start == i {
                            proof {
                                lemma_rejected_stays(s@, it.index() + 1);
                            }
                            return None;
                        }
                        spans.push(i - start);
                        start_i = None;
                    },
                }
            }
            is_prev_escape = false;
        } else if c == '\\' {
            if is_prev_escape {
                push_char(&mut string, c);
                if start_i.is_none() {
                    spans.push(1);
                }
                i = i + 1;
                is_prev_escape = false;
            } else {
                is_prev_escape = true;
            }
        } else {
            if is_prev_escape {
                push_char(&mut string, '\\');
                if start_i.is_none() {
                    spans.push(1);
                }
                i = i + 1;
            }
            push_char(&mut string, c);
            if start_i.is_none() {
                spans.push(1);
            }
            i = i + 1;
            is_prev_escape = false;
        }
        assert(spans_view(spans@) == bracket_run(next).spans);
    }
    assert(s@.take(s@.len() as int) == s@);
    if start_i.is_some() {
        return None;
    }
    Some((string, spans))
}

} // verus!

//! Small helpers on strings that the parsers share.
use vstd::prelude::*;

verus! {

/// Relies on `String::push`: appends one character at the end.
#[verifier::external_body]
pub(crate) fn push_char(s: &mut String, c: char)
    ensures
        final(s)@ == old(s)@.push(c),
{
    s.push(c);
}

/// State of a left-to-right scan that cuts a text into lines.
pub struct LinesState {
    /// Lines already ended by a newline.
    pub done: Seq<Seq<char>>,
    /// The line being read.
    pub current: Seq<char>,
}

/// `t` without one trailing carriage return.
pub open spec fn strip_cr(t: Seq<char>) -> Seq<char> {
    if t.len() > 0 && t.last() == '\r' {
        t.drop_last()
    } else {
        t
    }
}

/// One step of the line scan on character `c`.
pub open spec fn lines_step(st: LinesState, c: char) -> LinesState {
    if c == '\n' {
        LinesState { done: st.done.push(strip_cr(st.current)), current: Seq::empty() }
    } else {
        LinesState { done: st.done, current: st.current.push(c) }
    }
}

/// The line scan run over all of `s`.
pub open spec fn lines_run(s: Seq<char>) -> LinesState
    decreases s.len(),
{
    if s.len() == 0 {
        LinesState { done: Seq::empty(), current: Seq::empty() }
    } else {
        lines_step(lines_run(s.drop_last()), s.last())
    }
}

/// The lines of `s`: the text between line feeds, each without the carriage
/// return that ends it before a line feed; a final line feed ends the last
/// line rather than opening an empty one.
pub open spec fn lines_of(s: Seq<char>) -> Seq<Seq<char>> {
    let st = lines_run(s);
    if st.current.len() == 0 {
        st.done
    } else {
        st.done.push(st.current)
    }
}

/// No line is longer than the text it comes from.
pub proof fn lemma_lines_bounded(s: Seq<char>)
    ensures
        forall|k: int| 0 <= k < lines_of(s).len() ==> #[trigger] lines_of(s)[k].len() <= s.len(),
{
    lemma_lines_run_bounded(s);
}

proof fn lemma_lines_run_bounded(s: Seq<char>)
    ensures
        lines_run(s).current.len() <= s.len(),
        forall|k: int|
            0 <= k < lines_run(s).done.len() ==> #[trigger] lines_run(s).done[k].len() <= s.len(),
    decreases s.len(),
{
    if s.len() > 0 {
        lemma_lines_run_bounded(s.drop_last());
    }
}

/// Cuts `s` into its lines.
pub fn split_lines(s: &str) -> (r: Vec<String>)
    ensures
        r.deep_view() == lines_of(s@),
{
    let mut lines: Vec<String> = Vec::new();
    let mut line = String::new();
    // A carriage return read last, held back until the next character shows
    // whether it ends the line.
    let mut held_cr = false;
    assert(lines.deep_view() == Seq::<Seq<char>>::empty());
    assert(s@.take(0) == Seq::<char>::empty());

    for c in it: s.chars()
        invariant
            it.seq() == s@,
            lines_run(s@.take(it.index())) == (LinesState {
                done: lines.deep_view(),
                current: if held_cr {
                    line@.push('\r')
                } else {
                    line@
                },
            }),
            !held_cr ==> line@.len() == 0 || line@.last() != '\r',
    {
        assert(s@.take(it.index() + 1).drop_last() == s@.take(it.index()));
        if c == '\n' {
            let ghost done = lines.deep_view();
            assert(line@.push('\r').drop_last() == line@);
            lines.push(line);
            assert(lines.deep_view() == done.push(lines@.last()@));
            line = String::new();
            held_cr = false;
        } else if c == '\r' {
            if held_cr {
                push_char(&mut line, '\r');
            }
            held_cr = true;
        } else {
            if held_cr {
                push_char(&mut line, '\r');
            }
            push_char(&mut line, c);
            held_cr = false;
        }
    }
    assert(s@.take(s@.len() as int) == s@);
    if held_cr {
        push_char(&mut line, '\r');
    }
    if line.as_str().is_empty() {
        lines
    } else {
        let ghost done = lines.deep_view();
        lines.push(line);
        assert(lines.deep_view() == done.push(lines@.last()@));
        lines
    }
}

/// The characters of `s`, one by one.
pub fn chars_of(s: &str) -> (r: Vec<char>)
    ensures
        r@ == s@,
{
    let mut v: Vec<char> = Vec::new();
    for c in it: s.chars()
        invariant
            it.seq() == s@,
            v@ == s@.take(it.index()),
    {
        v.push(c);
        assert(s@.take(it.index() + 1) == s@.take(it.index()).push(c));
    }
    assert(s@.take(s@.len() as int) == s@);
    v
}

/// Whether `a` and `b` hold the same characters.
pub fn same_text(a: &str, b: &str) -> (r: bool)
    ensures
        r == (a@ == b@),
{
    let x = chars_of(a);
    let y = chars_of(b);
    if x.len() != y.len() {
        return false;
    }
    let mut i: usize = 0;
    while i < x.len()
        invariant
            x@ == a@,
            y@ == b@,
            x@.len() == y@.len(),
            i <= x@.len(),
            x@.take(i as int) == y@.take(i as int),
        decreases x.len() - i,
    {
        if x[i] != y[i] {
            assert(a@[i as int] != b@[i as int]);
            return false;
        }
        assert(x@.take(i + 1) == x@.take(i as int).push(x@[i as int]));
        assert(y@.take(i + 1) == y@.take(i as int).push(y@[i as int]));
        i = i + 1;
    }
    assert(x@.take(i as int) == x@);
    assert(y@.take(i as int) == y@);
    true
}

} // verus!

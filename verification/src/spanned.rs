//! Values tagged with the range of input (inclusive char indices) they came from.
use vstd::prelude::*;
use crate::text::{str_to_chars, chars_to_string, push_all, push_repeat};
use vstd::slice::slice_subrange;

verus! {

/// An item that spans some portion of the input text; `start` and `end`
/// are inclusive char indices.
#[derive(Clone, Debug, PartialEq)]
pub struct Spanned<T> {
    pub start: usize,
    pub end: usize,
    pub value: T,
}

/// Index of the first char of the line holding position `i`: one past the
/// last `'\n'` strictly before `i`, or 0.
pub open spec fn line_start_of(s: Seq<char>, i: int) -> int
    decreases i,
{
    if i <= 0 {
        0
    } else if s[i - 1] == '\n' {
        i
    } else {
        line_start_of(s, i - 1)
    }
}

/// Index of the first `'\n'` at or after `i`, or `s.len()` if there is none.
pub open spec fn line_end_of(s: Seq<char>, i: int) -> int
    decreases s.len() - i,
{
    if i >= s.len() {
        s.len() as int
    } else if s[i] == '\n' {
        i
    } else {
        line_end_of(s, i + 1)
    }
}

/// `n` copies of `c`.
pub open spec fn repeat(c: char, n: nat) -> Seq<char> {
    Seq::new(n, |_i: int| c)
}

pub open spec fn min(a: int, b: int) -> int {
    if a <= b { a } else { b }
}

pub open spec fn max(a: int, b: int) -> int {
    if a >= b { a } else { b }
}

/// What `point_at` renders: the message, a blank line, the source line the
/// span starts on, and a caret line under the part of the span on that line
/// (at least one caret), followed by `" ..."` when the span runs past it.
pub open spec fn point_at_text(start: int, end: int, message: Seq<char>, text: Seq<char>) -> Seq<char> {
    let len = text.len() as int;
    let s = min(start, len);
    let e = max(min(end, len), s);
    let ls = line_start_of(text, s);
    let le = line_end_of(text, s);
    let ue = min(e, le);
    let span = max(ue - s + 1, 1);
    let truncated = if e > le { seq![' ', '.', '.', '.'] } else { Seq::<char>::empty() };
    message + seq!['\n', '\n'] + text.subrange(ls, le) + seq!['\n'] + repeat(' ', (s - ls) as nat)
        + repeat('^', span as nat) + truncated
}

proof fn lemma_line_start_bounds(s: Seq<char>, i: int)
    requires
        0 <= i <= s.len(),
    ensures
        0 <= line_start_of(s, i) <= i,
        forall|j: int| line_start_of(s, i) <= j < i ==> s[j] != '\n',
    decreases i,
{
    if i > 0 && s[i - 1] != '\n' {
        lemma_line_start_bounds(s, i - 1);
    }
}

proof fn lemma_line_end_bounds(s: Seq<char>, i: int)
    requires
        0 <= i <= s.len(),
    ensures
        i <= line_end_of(s, i) <= s.len(),
    decreases s.len() - i,
{
    if i < s.len() && s[i] != '\n' {
        lemma_line_end_bounds(s, i + 1);
    }
}

impl<T> Spanned<T> {
    /// Creates a new element that spans some text
    pub fn new(start: usize, end: usize, value: T) -> (r: Self)
        ensures
            r.start == start,
            r.end == end,
            r.value == value,
    {
        Spanned { start, end, value }
    }

    /// The wrapped value, without its span
    pub fn into_inner(self) -> (r: T)
        ensures
            r == self.value,
    {
        self.value
    }

    /// Renders the given message followed by the source line and a caret span
    #[verifier::rlimit(60)]
    pub fn point_at(&self, message: &str, text: &str) -> (r: String)
        requires
            text@.len() < usize::MAX,
        ensures
            r@ == point_at_text(self.start as int, self.end as int, message@, text@),
    {
        let chars = str_to_chars(text);
        let len = chars.len();

        let start = if self.start < len { self.start } else { len };
        let e0 = if self.end < len { self.end } else { len };
        let end = if e0 > start { e0 } else { start };

        // Back up to the start of the line holding `start`
        let mut line_start = start;
        while line_start > 0 && chars[line_start - 1] != '\n'
            invariant
                line_start <= start <= chars@.len(),
                line_start_of(chars@, line_start as int) == line_start_of(chars@, start as int),
            decreases line_start,
        {
            line_start = line_start - 1;
        }

        // Only ever show (and underline) the line the span starts on
        let mut line_end = start;
        while line_end < len && chars[line_end] != '\n'
            invariant
                start <= line_end <= len == chars@.len(),
                line_end_of(chars@, line_end as int) == line_end_of(chars@, start as int),
            decreases len - line_end,
        {
            line_end = line_end + 1;
        }

        assert(line_start as int == line_start_of(chars@, start as int));
        assert(line_end as int == line_end_of(chars@, start as int));
        proof {
            lemma_line_start_bounds(chars@, start as int);
            lemma_line_end_bounds(chars@, start as int);
        }

        let col = start - line_start;
        let underline_end = if end < line_end { end } else { line_end };
        let span = underline_end - start + 1;

        let mut out = str_to_chars(message);
        out.push('\n');
        out.push('\n');
        let line = slice_subrange(chars.as_slice(), line_start, line_end);
        push_all(&mut out, line);
        out.push('\n');
        push_repeat(&mut out, ' ', col);
        push_repeat(&mut out, '^', span);
        let ghost before_trunc = out@;
        if end > line_end {
            out.push(' ');
            out.push('.');
            out.push('.');
            out.push('.');
        }
        proof {
            let tr: Seq<char> = if end > line_end { seq![' ', '.', '.', '.'] } else { Seq::empty() };
            assert(out@ == before_trunc + tr);
            assert(before_trunc == message@ + seq!['\n', '\n'] + chars@.subrange(line_start as int, line_end as int)
                + seq!['\n'] + repeat(' ', col as nat) + repeat('^', span as nat));
        }
        chars_to_string(out.as_slice())
    }
}

} // verus!

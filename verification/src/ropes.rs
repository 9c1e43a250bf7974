//! The `ropey::Rope` text buffer, as far as this library uses it: its chars,
//! and its lines as ropey splits them.
use vstd::prelude::*;

verus! {

#[verifier::external_type_specification]
#[verifier::external_body]
pub struct ExRope(ropey::Rope);

#[verifier::external_type_specification]
#[verifier::external_body]
pub struct ExRopeError(ropey::Error);

/// The chars a rope holds, in order.
pub uninterp spec fn rope_chars(r: ropey::Rope) -> Seq<char>;

/// The chars ropey takes as line breaks (LF, VT, FF, CR, NEL, LS, PS).
pub open spec fn is_line_break(c: char) -> bool {
    c == '\n' || c == '\u{0B}' || c == '\u{0C}' || c == '\r' || c == '\u{85}' || c == '\u{2028}' || c == '\u{2029}'
}

/// Whether a line break ends at index `i`: a break char, where a CR directly
/// followed by LF is one break that ends at the LF.
pub open spec fn ends_break(s: Seq<char>, i: int) -> bool {
    &&& 0 <= i < s.len()
    &&& is_line_break(s[i])
    &&& !(s[i] == '\r' && i + 1 < s.len() && s[i + 1] == '\n')
}

/// The number of line breaks that end before index `n`: the line of the char at `n`.
pub open spec fn breaks_before(s: Seq<char>, n: int) -> nat
    decreases n,
{
    if n <= 0 {
        0
    } else {
        breaks_before(s, n - 1) + if ends_break(s, n - 1) { 1nat } else { 0nat }
    }
}

/// The number of lines: one more than the number of line breaks.
pub open spec fn line_count(s: Seq<char>) -> nat {
    breaks_before(s, s.len() as int) + 1
}

/// The first index at or after `c` that lies on line `l` or later (`s.len()` if none).
pub open spec fn first_on_line(s: Seq<char>, l: nat, c: int) -> int
    decreases s.len() - c,
{
    if c >= s.len() {
        s.len() as int
    } else if breaks_before(s, c) >= l {
        c
    } else {
        first_on_line(s, l, c + 1)
    }
}

/// The char index line `l` starts at (`s.len()` for the line past the last).
pub open spec fn line_start(s: Seq<char>, l: nat) -> int {
    first_on_line(s, l, 0)
}

/// The number of chars on line `l`, its line break included.
pub open spec fn line_len(s: Seq<char>, l: nat) -> int {
    line_start(s, l + 1) - line_start(s, l)
}

pub proof fn lemma_breaks_before_mono(s: Seq<char>, a: int, b: int)
    requires
        a <= b,
    ensures
        breaks_before(s, a) <= breaks_before(s, b),
    decreases b - a,
{
    if a < b {
        lemma_breaks_before_mono(s, a, b - 1);
    }
}

pub proof fn lemma_first_on_line_bounds(s: Seq<char>, l: nat, c: int)
    requires
        0 <= c,
    ensures
        c <= first_on_line(s, l, c) || c > s.len(),
        first_on_line(s, l, c) <= s.len(),
    decreases s.len() - c,
{
    if c < s.len() && breaks_before(s, c) < l {
        lemma_first_on_line_bounds(s, l, c + 1);
    }
}

pub proof fn lemma_first_on_line_mono(s: Seq<char>, l: nat, c: int)
    requires
        0 <= c,
    ensures
        first_on_line(s, l, c) <= first_on_line(s, l + 1, c),
    decreases s.len() - c,
{
    if c < s.len() && breaks_before(s, c) < l {
        lemma_first_on_line_mono(s, l, c + 1);
    } else if c < s.len() && breaks_before(s, c) < l + 1 {
        lemma_first_on_line_bounds(s, l + 1, c + 1);
    }
}

/// Lines start in order, within the text.
pub proof fn lemma_line_start_bounds(s: Seq<char>, l: nat)
    ensures
        0 <= line_start(s, l) <= line_start(s, l + 1) <= s.len(),
        line_len(s, l) >= 0,
{
    lemma_first_on_line_bounds(s, l, 0);
    lemma_first_on_line_bounds(s, l + 1, 0);
    lemma_first_on_line_mono(s, l, 0);
}

/// `Rope::new`: an empty rope.
#[verifier::external_body]
pub(crate) fn rope_new() -> (r: ropey::Rope)
    ensures
        rope_chars(r) == Seq::<char>::empty(),
{
    ropey::Rope::new()
}

/// `Rope::from_str`: a rope holding the chars of `text`.
#[verifier::external_body]
pub(crate) fn rope_from_str(text: &str) -> (r: ropey::Rope)
    ensures
        rope_chars(r) == text@,
{
    ropey::Rope::from_str(text)
}

/// `Rope::len_chars`: the number of chars.
#[verifier::external_body]
pub(crate) fn rope_len_chars(r: &ropey::Rope) -> (n: usize)
    ensures
        n == rope_chars(*r).len(),
{
    r.len_chars()
}

/// `Rope::len_lines`: one more than the number of line breaks.
#[verifier::external_body]
pub(crate) fn rope_len_lines(r: &ropey::Rope) -> (n: usize)
    ensures
        n == line_count(rope_chars(*r)),
{
    r.len_lines()
}

/// `Rope::try_line_to_char`: where line `line` starts; the line one past the
/// last starts at the end of the text, and any later line is an error.
#[verifier::external_body]
pub(crate) fn rope_try_line_to_char(r: &ropey::Rope, line: usize) -> (res: Result<usize, ropey::Error>)
    ensures
        line <= line_count(rope_chars(*r)) ==> res is Ok && res->Ok_0 == line_start(rope_chars(*r), line as nat),
        line > line_count(rope_chars(*r)) ==> res is Err,
{
    r.try_line_to_char(line)
}

/// `Rope::line(line).len_chars()`: the chars of a line, its break included.
#[verifier::external_body]
pub(crate) fn rope_line_len(r: &ropey::Rope, line: usize) -> (n: usize)
    requires
        line < line_count(rope_chars(*r)),
    ensures
        n == line_len(rope_chars(*r), line as nat),
{
    r.line(line).len_chars()
}

/// `Rope::char_to_line`: the line the char at `idx` is on (the last line for the end).
#[verifier::external_body]
pub(crate) fn rope_char_to_line(r: &ropey::Rope, idx: usize) -> (n: usize)
    requires
        idx <= rope_chars(*r).len(),
    ensures
        n == breaks_before(rope_chars(*r), idx as int),
{
    r.char_to_line(idx)
}

/// `Rope::try_insert`: puts `text` before the char at `idx` (at the end for
/// `idx == len`); an index past the end is an error and changes nothing.
#[verifier::external_body]
pub(crate) fn rope_try_insert(r: &mut ropey::Rope, idx: usize, text: &str) -> (res: Result<(), ropey::Error>)
    ensures
        idx <= rope_chars(*old(r)).len() ==> res is Ok && rope_chars(*final(r)) == rope_chars(*old(r)).subrange(0, idx as int)
            + text@ + rope_chars(*old(r)).subrange(idx as int, rope_chars(*old(r)).len() as int),
        idx > rope_chars(*old(r)).len() ==> res is Err && rope_chars(*final(r)) == rope_chars(*old(r)),
{
    r.try_insert(idx, text)
}

/// `Rope::try_remove(start..end)`: takes out the chars from `start` up to
/// `end`; a range outside the text or backwards is an error and changes nothing.
#[verifier::external_body]
pub(crate) fn rope_try_remove(r: &mut ropey::Rope, start: usize, end: usize) -> (res: Result<(), ropey::Error>)
    ensures
        start <= end <= rope_chars(*old(r)).len() ==> res is Ok && rope_chars(*final(r)) == rope_chars(*old(r)).subrange(0, start as int)
            + rope_chars(*old(r)).subrange(end as int, rope_chars(*old(r)).len() as int),
        !(start <= end <= rope_chars(*old(r)).len()) ==> res is Err && rope_chars(*final(r)) == rope_chars(*old(r)),
{
    r.try_remove(start..end)
}

/// `Rope::get_slice(start..end)` as a string: the chars from `start` up to
/// `end`, or `None` for a range outside the text or backwards.
#[verifier::external_body]
pub(crate) fn rope_get_slice(r: &ropey::Rope, start: usize, end: usize) -> (res: Option<String>)
    ensures
        start <= end <= rope_chars(*r).len() ==> res is Some && res->Some_0@ == rope_chars(*r).subrange(start as int, end as int),
        !(start <= end <= rope_chars(*r).len()) ==> res is None,
{
    r.get_slice(start..end).map(|s| s.to_string())
}

/// `ropey::Error::CharIndexOutOfBounds(index, len)`.
#[verifier::external_body]
pub(crate) fn char_index_error(index: usize, len: usize) -> (e: ropey::Error) {
    ropey::Error::CharIndexOutOfBounds(index, len)
}

} // verus!

verus! {

/// A line's start is at or before every char on that line.
pub proof fn lemma_line_start_le(s: Seq<char>, c: int)
    requires
        0 <= c <= s.len(),
    ensures
        line_start(s, breaks_before(s, c)) <= c,
{
    lemma_first_on_line_le(s, breaks_before(s, c), 0, c);
}

proof fn lemma_first_on_line_le(s: Seq<char>, l: nat, x: int, c: int)
    requires
        0 <= x <= c <= s.len(),
        breaks_before(s, c) >= l,
    ensures
        first_on_line(s, l, x) <= c,
    decreases c - x,
{
    if x < s.len() && breaks_before(s, x) < l {
        if x < c {
            lemma_first_on_line_le(s, l, x + 1, c);
        }
    }
}

/// A char lies on its line: the line exists and the char is between its
/// start and the next line's start.
pub proof fn lemma_char_on_line(s: Seq<char>, c: int)
    requires
        0 <= c < s.len(),
    ensures
        breaks_before(s, c) < line_count(s),
        line_start(s, breaks_before(s, c)) <= c < line_start(s, breaks_before(s, c) + 1),
{
    let l = breaks_before(s, c);
    lemma_breaks_before_mono(s, c, s.len() as int);
    lemma_line_start_le(s, c);
    lemma_first_on_line_after(s, l + 1, 0, c);
}

proof fn lemma_first_on_line_after(s: Seq<char>, big: nat, x: int, c: int)
    requires
        0 <= x <= c < s.len(),
        breaks_before(s, c) < big,
    ensures
        first_on_line(s, big, x) > c,
    decreases c - x,
{
    lemma_breaks_before_mono(s, x, c);
    if x < c {
        lemma_first_on_line_after(s, big, x + 1, c);
    } else {
        lemma_first_on_line_bounds(s, big, c + 1);
    }
}

/// There are no more line breaks than chars.
pub proof fn lemma_breaks_before_le(s: Seq<char>, n: int)
    requires
        0 <= n,
    ensures
        breaks_before(s, n) <= n,
    decreases n,
{
    if n > 0 {
        lemma_breaks_before_le(s, n - 1);
    }
}

} // verus!

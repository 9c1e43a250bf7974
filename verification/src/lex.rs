//! Turning source text into tokens.
use vstd::prelude::*;
use crate::error::KaonError;
use crate::op_registry::OpRegistry;
use crate::spanned::Spanned;
use crate::token::{Token, TokenView};
use crate::text::{
    chars_to_string, str_to_chars, char_is_whitespace, char_is_alphabetic, char_is_alphanumeric,
    is_whitespace_char, is_alphabetic_char, is_alphanumeric_char, chars_starts_with, chars_eq,
};

verus! {

/// The chars that are tokens on their own: `{([])};,`
pub open spec fn is_ctrl_char(c: char) -> bool {
    c == '{' || c == '(' || c == '[' || c == ']' || c == ')' || c == '}' || c == ';' || c == ','
}

/// The chars operators are made of: `!-=+><|&/$%*`
pub open spec fn is_op_char(c: char) -> bool {
    c == '!' || c == '-' || c == '=' || c == '+' || c == '>' || c == '<' || c == '|' || c == '&'
        || c == '/' || c == '$' || c == '%' || c == '*'
}

pub open spec fn is_digit(c: char) -> bool {
    '0' <= c && c <= '9'
}

pub open spec fn is_ident_start(c: char) -> bool {
    is_alphabetic_char(c) || c == '_'
}

pub open spec fn is_ident_char(c: char) -> bool {
    is_alphanumeric_char(c) || c == '_'
}

/// The first index at or after `i` that does not hold whitespace (`s.len()` if none).
pub open spec fn next_non_ws(s: Seq<char>, i: int) -> int
    decreases s.len() - i,
{
    if i >= s.len() {
        s.len() as int
    } else if is_whitespace_char(s[i]) {
        next_non_ws(s, i + 1)
    } else {
        i
    }
}

/// The last index of the number whose chars so far end at `i`: digits,
/// with at most one `.` (`dot` says whether one was already taken).
pub open spec fn number_end(s: Seq<char>, i: int, dot: bool) -> int
    decreases s.len() - i,
{
    if i + 1 >= s.len() || i < 0 {
        i
    } else if s[i + 1] == '.' {
        if dot {
            i
        } else {
            number_end(s, i + 1, true)
        }
    } else if is_digit(s[i + 1]) {
        number_end(s, i + 1, dot)
    } else {
        i
    }
}

/// The last index of the identifier whose chars so far end at `i`.
pub open spec fn ident_end(s: Seq<char>, i: int) -> int
    decreases s.len() - i,
{
    if i + 1 >= s.len() || i < 0 {
        i
    } else if is_ident_char(s[i + 1]) {
        ident_end(s, i + 1)
    } else {
        i
    }
}

/// Whether some registered operator starts with `cand`.
pub open spec fn has_op_prefix(reg: OpRegistry, cand: Seq<char>) -> bool {
    exists|k: Seq<char>| reg.is_op(k) && cand.len() <= k.len() && #[trigger] k.subrange(0, cand.len() as int) == cand
}

/// The last index of the operator that starts at `p` and so far ends at `i`:
/// it grows by one operator char while some registered operator starts with it.
pub open spec fn op_end(s: Seq<char>, reg: OpRegistry, p: int, i: int) -> int
    decreases s.len() - i,
{
    if i + 1 >= s.len() || i < p || p < 0 {
        i
    } else if is_op_char(s[i + 1]) && has_op_prefix(reg, s.subrange(p, i + 2)) {
        op_end(s, reg, p, i + 1)
    } else {
        i
    }
}

/// The char an escape `\c` stands for inside a string literal.
pub open spec fn escape_of(c: char) -> Option<char> {
    if c == 't' {
        Some('\t')
    } else if c == 'r' {
        Some('\r')
    } else if c == 'n' {
        Some('\n')
    } else if c == '\\' {
        Some('\\')
    } else if c == '"' {
        Some('"')
    } else {
        None
    }
}

/// The escapes of a string literal: `\t`, `\r` and `\n` stand for tab,
/// carriage return and line feed, `\\` for one backslash and `\"` for a
/// quote; no other char can follow a backslash.
pub proof fn law_escape_table(c: char)
    ensures
        escape_of('t') == Some('\t'),
        escape_of('r') == Some('\r'),
        escape_of('n') == Some('\n'),
        escape_of('\\') == Some('\\'),
        escape_of('"') == Some('"'),
        (escape_of(c) is Some) <==> (c == 't' || c == 'r' || c == 'n' || c == '\\' || c == '"'),
{
}

/// How a string literal that opened at `p` goes on from index `i`, with `acc`
/// read so far.
pub enum StrScan {
    /// Closed by the quote at the index, with the given contents
    Closed(int, Seq<char>),
    /// Broken: the error and the span it covers
    Broken(int, int, KaonError),
}

pub open spec fn string_scan(s: Seq<char>, p: int, i: int, acc: Seq<char>) -> StrScan
    decreases s.len() - i,
{
    if i >= s.len() || i < 0 {
        StrScan::Broken(p, s.len() - 1, KaonError::UnclosedString)
    } else if s[i] == '"' {
        StrScan::Closed(i, acc)
    } else if s[i] == '\\' {
        if i + 1 >= s.len() {
            StrScan::Broken(p, i, KaonError::UnclosedString)
        } else {
            match escape_of(s[i + 1]) {
                Some(e) => string_scan(s, p, i + 2, acc.push(e)),
                None => StrScan::Broken(i, i + 1, KaonError::UnknownEscape(s[i + 1])),
            }
        }
    } else {
        string_scan(s, p, i + 1, acc.push(s[i]))
    }
}

/// The value of a run of decimal digits.
pub open spec fn digits_value(t: Seq<char>) -> int
    decreases t.len(),
{
    if t.len() == 0 {
        0
    } else {
        digits_value(t.drop_last()) * 10 + (t.last() as int - '0' as int)
    }
}

/// The token a word of identifier chars is: a keyword, a bool, or an identifier.
pub open spec fn word_token(w: Seq<char>) -> TokenView {
    if w == seq!['t', 'r', 'u', 'e'] {
        TokenView::Bool(true)
    } else if w == seq!['f', 'a', 'l', 's', 'e'] {
        TokenView::Bool(false)
    } else if w == seq!['l', 'e', 't'] {
        TokenView::Let
    } else if w == seq!['f', 'o', 'r'] {
        TokenView::For
    } else if w == seq!['i', 'n'] {
        TokenView::In
    } else if w == seq!['i', 'f'] {
        TokenView::If
    } else if w == seq!['e', 'l', 's', 'e'] {
        TokenView::Else
    } else if w == seq!['r', 'e', 't', 'u', 'r', 'n'] {
        TokenView::Return
    } else if w == seq!['b', 'r', 'e', 'a', 'k'] {
        TokenView::Break
    } else if w == seq!['f', 'n'] {
        TokenView::Fn
    } else {
        TokenView::Ident(w)
    }
}

/// What lexing a text comes to: its tokens, each with its inclusive span, a
/// failure with its span, or an integer literal that does not fit an `i32`.
pub enum LexOutcome {
    Tokens(Seq<(int, int, TokenView)>),
    Failed(int, int, KaonError),
    Overflow,
}

pub open spec fn prepend(t: (int, int, TokenView), o: LexOutcome) -> LexOutcome {
    match o {
        LexOutcome::Tokens(ts) => LexOutcome::Tokens(seq![t] + ts),
        other => other,
    }
}

pub open spec fn prepend_all(ts: Seq<(int, int, TokenView)>, o: LexOutcome) -> LexOutcome {
    match o {
        LexOutcome::Tokens(rest) => LexOutcome::Tokens(ts + rest),
        other => other,
    }
}

pub proof fn lemma_number_end(s: Seq<char>, i: int, dot: bool)
    requires
        0 <= i < s.len(),
    ensures
        i <= number_end(s, i, dot) < s.len(),
    decreases s.len() - i,
{
    if i + 1 < s.len() {
        if s[i + 1] == '.' {
            if !dot {
                lemma_number_end(s, i + 1, true);
            }
        } else if is_digit(s[i + 1]) {
            lemma_number_end(s, i + 1, dot);
        }
    }
}

pub proof fn lemma_ident_end(s: Seq<char>, i: int)
    requires
        0 <= i < s.len(),
    ensures
        i <= ident_end(s, i) < s.len(),
    decreases s.len() - i,
{
    if i + 1 < s.len() && is_ident_char(s[i + 1]) {
        lemma_ident_end(s, i + 1);
    }
}

pub proof fn lemma_op_end(s: Seq<char>, reg: OpRegistry, p: int, i: int)
    requires
        0 <= p <= i < s.len(),
    ensures
        i <= op_end(s, reg, p, i) < s.len(),
    decreases s.len() - i,
{
    if i + 1 < s.len() && is_op_char(s[i + 1]) && has_op_prefix(reg, s.subrange(p, i + 2)) {
        lemma_op_end(s, reg, p, i + 1);
    }
}

pub proof fn lemma_string_scan(s: Seq<char>, p: int, i: int, acc: Seq<char>)
    requires
        0 <= p < i,
    ensures
        string_scan(s, p, i, acc) matches StrScan::Closed(e, _) ==> i <= e < s.len(),
    decreases s.len() - i,
{
    if 0 <= i < s.len() && s[i] != '"' {
        if s[i] == '\\' {
            if i + 1 < s.len() {
                if let Some(e) = escape_of(s[i + 1]) {
                    lemma_string_scan(s, p, i + 2, acc.push(e));
                }
            }
        } else {
            lemma_string_scan(s, p, i + 1, acc.push(s[i]));
        }
    }
}

pub proof fn lemma_next_non_ws(s: Seq<char>, i: int)
    requires
        0 <= i,
    ensures
        i <= next_non_ws(s, i) || i > s.len(),
        next_non_ws(s, i) <= s.len() || i > s.len(),
    decreases s.len() - i,
{
    if i < s.len() && is_whitespace_char(s[i]) {
        lemma_next_non_ws(s, i + 1);
    }
}

/// How the text from index `pos` on lexes.
pub open spec fn lex_from(s: Seq<char>, reg: OpRegistry, pos: int) -> LexOutcome
    decreases s.len() - pos,
{
    if pos < 0 || pos > s.len() {
        LexOutcome::Tokens(Seq::empty())
    } else {
        let p = next_non_ws(s, pos);
        proof {
            lemma_next_non_ws(s, pos);
        }
        if p >= s.len() {
            LexOutcome::Tokens(Seq::empty())
        } else {
            let c = s[p];
            if is_digit(c) {
                let e = number_end(s, p, false);
                proof {
                    lemma_number_end(s, p, false);
                }
                let t = s.subrange(p, e + 1);
                if t.contains('.') {
                    prepend((p, e, TokenView::Float(t)), lex_from(s, reg, e + 1))
                } else if digits_value(t) > i32::MAX {
                    LexOutcome::Overflow
                } else {
                    prepend((p, e, TokenView::Int(digits_value(t) as i32)), lex_from(s, reg, e + 1))
                }
            } else if c == '"' {
                proof {
                    lemma_string_scan(s, p, p + 1, Seq::empty());
                }
                match string_scan(s, p, p + 1, Seq::empty()) {
                    StrScan::Closed(e, body) => prepend((p, e, TokenView::Str(body)), lex_from(s, reg, e + 1)),
                    StrScan::Broken(a, b, err) => LexOutcome::Failed(a, b, err),
                }
            } else if is_op_char(c) {
                let e = op_end(s, reg, p, p);
                proof {
                    lemma_op_end(s, reg, p, p);
                }
                prepend((p, e, TokenView::Op(s.subrange(p, e + 1))), lex_from(s, reg, e + 1))
            } else if is_ctrl_char(c) {
                prepend((p, p, TokenView::Ctrl(c)), lex_from(s, reg, p + 1))
            } else if is_ident_start(c) {
                let e = ident_end(s, p);
                proof {
                    lemma_ident_end(s, p);
                }
                prepend((p, e, word_token(s.subrange(p, e + 1))), lex_from(s, reg, e + 1))
            } else {
                LexOutcome::Failed(p, p, KaonError::UnknownChar(c))
            }
        }
    }
}

/// The spans and tokens of a lexed list, as plain values.
pub open spec fn tokens_view(v: Seq<Spanned<Token>>) -> Seq<(int, int, TokenView)> {
    v.map_values(|t: Spanned<Token>| (t.start as int, t.end as int, t.value@))
}

fn is_ctrl(c: char) -> (r: bool)
    ensures
        r == is_ctrl_char(c),
{
    c == '{' || c == '(' || c == '[' || c == ']' || c == ')' || c == '}' || c == ';' || c == ','
}

fn is_op(c: char) -> (r: bool)
    ensures
        r == is_op_char(c),
{
    c == '!' || c == '-' || c == '=' || c == '+' || c == '>' || c == '<' || c == '|' || c == '&'
        || c == '/' || c == '$' || c == '%' || c == '*'
}

fn is_ascii_digit(c: char) -> (r: bool)
    ensures
        r == is_digit(c),
{
    '0' <= c && c <= '9'
}

proof fn lemma_digits_value_nonneg(t: Seq<char>)
    requires
        forall|i: int| 0 <= i < t.len() ==> is_digit(t[i]),
    ensures
        digits_value(t) >= 0,
    decreases t.len(),
{
    if t.len() > 0 {
        lemma_digits_value_nonneg(t.drop_last());
    }
}

/// The `i32` a run of digits denotes, or `None` if it is larger than `i32::MAX`.
fn digits_to_i32(t: &[char]) -> (r: Option<i32>)
    requires
        forall|i: int| 0 <= i < t@.len() ==> is_digit(t@[i]),
    ensures
        match r {
            Some(v) => v as int == digits_value(t@),
            None => digits_value(t@) > i32::MAX,
        },
{
    let mut acc: u64 = 0;
    let mut i: usize = 0;
    while i < t.len()
        invariant
            i <= t@.len(),
            forall|j: int| 0 <= j < t@.len() ==> is_digit(t@[j]),
            acc as int == digits_value(t@.subrange(0, i as int)),
            acc <= i32::MAX,
        decreases t.len() - i,
    {
        let d = (t[i] as u32 - '0' as u32) as u64;
        let next = acc * 10 + d;
        assert(t@.subrange(0, i + 1).drop_last() == t@.subrange(0, i as int));
        if next > i32::MAX as u64 {
            proof {
                lemma_digits_value_prefix(t@, i + 1);
            }
            return None;
        }
        acc = next;
        i = i + 1;
    }
    assert(t@.subrange(0, t@.len() as int) == t@);
    Some(acc as i32)
}

/// A prefix of a digit run never denotes more than the whole run.
proof fn lemma_digits_value_prefix(t: Seq<char>, n: int)
    requires
        0 <= n <= t.len(),
        forall|j: int| 0 <= j < t.len() ==> is_digit(t[j]),
    ensures
        digits_value(t.subrange(0, n)) <= digits_value(t),
    decreases t.len() - n,
{
    if n < t.len() {
        lemma_digits_value_prefix(t, n + 1);
        let u = t.subrange(0, n + 1);
        assert(u.drop_last() == t.subrange(0, n));
        lemma_digits_value_nonneg(t.subrange(0, n));
    } else {
        assert(t.subrange(0, n) == t);
    }
}

/// Whether the chars hold a `.`.
fn contains_dot(t: &[char]) -> (r: bool)
    ensures
        r == t@.contains('.'),
{
    let mut i: usize = 0;
    while i < t.len()
        invariant
            i <= t@.len(),
            forall|j: int| 0 <= j < i ==> t@[j] != '.',
        decreases t.len() - i,
    {
        if t[i] == '.' {
            return true;
        }
        i = i + 1;
    }
    false
}

/// The primary way of turning text into readable tokens
pub struct Lexer<'src> {
    chars: Vec<char>,
    len: usize,

    start: bool,
    cursor: usize,

    checkpoints: Vec<usize>,

    registry: &'src OpRegistry,
}

impl<'src> Lexer<'src> {
    /// The lexer's fields agree: `len` counts the chars and the cursor is on one (or the text is empty).
    pub closed spec fn wf(&self) -> bool {
        &&& self.len == self.chars@.len()
        &&& (self.cursor < self.len || (self.len == 0 && self.cursor == 0))
        &&& (self.start ==> self.cursor == 0)
    }

    /// The index the next `advance` moves to.
    pub closed spec fn next_index(&self) -> int {
        if self.start { 0 } else { self.cursor + 1 }
    }

    /// Turns the passed text into a list of tokens
    pub fn lex(text: &str, registry: &'src OpRegistry) -> (r: Result<Vec<Spanned<Token>>, Spanned<KaonError>>)
        requires
            lex_from(text@, *registry, 0) !is Overflow,
        ensures
            match lex_from(text@, *registry, 0) {
                LexOutcome::Tokens(ts) => r is Ok && tokens_view(r->Ok_0@) == ts,
                LexOutcome::Failed(a, b, e) => r is Err && r->Err_0.start == a && r->Err_0.end == b
                    && r->Err_0.value == e,
                LexOutcome::Overflow => false,
            },
    {
        let chars = str_to_chars(text);
        let len = chars.len();
        let mut n = Lexer {
            chars,
            len,

            start: true,
            cursor: 0,

            checkpoints: Vec::new(),

            registry,
        };

        match n.lex_inner() {
            Some(r) => r,
            None => Ok(Vec::new()),
        }
    }

    /// Lexes the text like [`Lexer::lex`]; `None` where an integer literal
    /// is too large for an `i32`, on which `lex` may not be called
    pub fn lex_checked(text: &str, registry: &'src OpRegistry) -> (r: Option<Result<Vec<Spanned<Token>>, Spanned<KaonError>>>)
        ensures
            match lex_from(text@, *registry, 0) {
                LexOutcome::Tokens(ts) => r matches Some(Ok(v)) && tokens_view(v@) == ts,
                LexOutcome::Failed(a, b, e) => r matches Some(Err(x)) && x.start == a && x.end == b
                    && x.value == e,
                LexOutcome::Overflow => r is None,
            },
    {
        let chars = str_to_chars(text);
        let len = chars.len();
        let mut n = Lexer {
            chars,
            len,

            start: true,
            cursor: 0,

            checkpoints: Vec::new(),

            registry,
        };

        n.lex_inner()
    }

    /// Clears all checkpoints
    fn clear_checkpoints(&mut self)
        ensures
            final(self).checkpoints@ == Seq::<usize>::empty(),
            final(self).chars == old(self).chars,
            final(self).len == old(self).len,
            final(self).start == old(self).start,
            final(self).cursor == old(self).cursor,
            final(self).registry == old(self).registry,
    {
        self.checkpoints.clear();
    }

    /// Sets the checkpoint char
    fn checkpoint(&mut self)
        ensures
            final(self).checkpoints@ == old(self).checkpoints@.push(old(self).cursor),
            final(self).chars == old(self).chars,
            final(self).len == old(self).len,
            final(self).start == old(self).start,
            final(self).cursor == old(self).cursor,
            final(self).registry == old(self).registry,
    {
        self.checkpoints.push(self.cursor);
    }

    /// Removes the top of the checkpoint stack, but doesn't move the cursor
    fn remove_checkpoint(&mut self)
        ensures
            final(self).checkpoints@ == if old(self).checkpoints@.len() > 0 {
                old(self).checkpoints@.drop_last()
            } else {
                old(self).checkpoints@
            },
            final(self).chars == old(self).chars,
            final(self).len == old(self).len,
            final(self).start == old(self).start,
            final(self).cursor == old(self).cursor,
            final(self).registry == old(self).registry,
    {
        self.checkpoints.pop();
    }

    /// Moves the cursor forward, returning false if at EOF
    fn advance(&mut self) -> (r: bool)
        requires
            old(self).wf(),
        ensures
            final(self).wf(),
            final(self).chars == old(self).chars,
            final(self).len == old(self).len,
            final(self).checkpoints == old(self).checkpoints,
            final(self).registry == old(self).registry,
            !final(self).start,
            r == (old(self).next_index() < old(self).len),
            r ==> final(self).cursor == old(self).next_index(),
            !r ==> final(self).cursor == old(self).cursor,
    {
        if self.start {
            self.start = false;
            return self.len > 0;
        }

        if self.cursor + 1 >= self.len {
            return false;
        }

        self.cursor += 1;

        true
    }

    /// Steps the cursor back one char (not below the first)
    fn back(&mut self)
        requires
            old(self).wf(),
        ensures
            final(self).wf(),
            final(self).chars == old(self).chars,
            final(self).len == old(self).len,
            final(self).checkpoints == old(self).checkpoints,
            final(self).registry == old(self).registry,
            final(self).start == old(self).start,
            final(self).cursor == if old(self).cursor > 0 { old(self).cursor - 1 } else { 0 },
    {
        self.cursor = if self.cursor > 0 { self.cursor - 1 } else { 0 };
    }

    /// Advances the cursor, ignoring all whitespace
    fn advance_ignore_whitespace(&mut self) -> (r: bool)
        requires
            old(self).wf(),
            old(self).next_index() <= old(self).len,
        ensures
            final(self).wf(),
            final(self).chars == old(self).chars,
            final(self).len == old(self).len,
            final(self).checkpoints == old(self).checkpoints,
            final(self).registry == old(self).registry,
            !final(self).start,
            r == (next_non_ws(old(self).chars@, old(self).next_index()) < old(self).len),
            r ==> final(self).cursor == next_non_ws(old(self).chars@, old(self).next_index()),
    {
        let ghost target = next_non_ws(self.chars@, self.next_index());
        if !self.advance() {
            assert(next_non_ws(self.chars@, old(self).next_index()) == self.len);
            return false;
        }

        loop
            invariant
                self.wf(),
                self.chars == old(self).chars,
                self.len == old(self).len,
                self.checkpoints == old(self).checkpoints,
                self.registry == old(self).registry,
                !self.start,
                target == next_non_ws(self.chars@, self.cursor as int),
                target == next_non_ws(old(self).chars@, old(self).next_index()),
                self.cursor < self.len,
            decreases self.len - self.cursor,
        {
            if !char_is_whitespace(self.get()) {
                assert(next_non_ws(self.chars@, self.cursor as int) == self.cursor);
                return true;
            }
            let ghost c = self.cursor as int;
            assert(next_non_ws(self.chars@, c) == next_non_ws(self.chars@, c + 1));
            if !self.advance() {
                assert(next_non_ws(self.chars@, c + 1) == self.len);
                return false;
            }
        }
    }

    /// The char under the cursor
    fn get(&self) -> (c: char)
        requires
            self.wf(),
            self.cursor < self.len,
        ensures
            c == self.chars@[self.cursor as int],
    {
        self.chars[self.cursor]
    }

    /// A value spanning just the char under the cursor
    fn create<T>(&self, value: T) -> (r: Spanned<T>)
        ensures
            r.start == self.cursor,
            r.end == self.cursor,
            r.value == value,
    {
        Spanned::new(self.cursor, self.cursor, value)
    }

    /// A value spanning from the last checkpoint (or the cursor) to the cursor
    fn create_checkpoint<T>(&self, value: T) -> (r: Spanned<T>)
        ensures
            r.start == if self.checkpoints@.len() > 0 {
                self.checkpoints@.last()
            } else {
                self.cursor
            },
            r.end == self.cursor,
            r.value == value,
    {
        let start = if self.checkpoints.len() > 0 {
            self.checkpoints[self.checkpoints.len() - 1]
        } else {
            self.cursor
        };
        Spanned::new(start, self.cursor, value)
    }
}


/// Whether some key starts with `cand`.
fn any_key_starts_with(keys: &Vec<Vec<char>>, cand: &Vec<char>) -> (r: bool)
    ensures
        r == exists|i: int| 0 <= i < keys@.len() && cand@.len() <= keys@[i]@.len()
            && #[trigger] keys@[i]@.subrange(0, cand@.len() as int) == cand@,
{
    let mut i: usize = 0;
    while i < keys.len()
        invariant
            i <= keys@.len(),
            forall|j: int| 0 <= j < i ==> !(cand@.len() <= keys@[j]@.len()
                && #[trigger] keys@[j]@.subrange(0, cand@.len() as int) == cand@),
        decreases keys.len() - i,
    {
        if chars_starts_with(keys[i].as_slice(), cand.as_slice()) {
            return true;
        }
        i = i + 1;
    }
    false
}

/// The token a word of identifier chars makes.
fn word_to_token(w: &Vec<char>) -> (r: Token)
    ensures
        r@ == word_token(w@),
{
    proof {
        reveal_strlit("true");
        reveal_strlit("false");
        reveal_strlit("let");
        reveal_strlit("for");
        reveal_strlit("in");
        reveal_strlit("if");
        reveal_strlit("else");
        reveal_strlit("return");
        reveal_strlit("break");
        reveal_strlit("fn");
        assert("true"@ =~= seq!['t', 'r', 'u', 'e']);
        assert("false"@ =~= seq!['f', 'a', 'l', 's', 'e']);
        assert("let"@ =~= seq!['l', 'e', 't']);
        assert("for"@ =~= seq!['f', 'o', 'r']);
        assert("in"@ =~= seq!['i', 'n']);
        assert("if"@ =~= seq!['i', 'f']);
        assert("else"@ =~= seq!['e', 'l', 's', 'e']);
        assert("return"@ =~= seq!['r', 'e', 't', 'u', 'r', 'n']);
        assert("break"@ =~= seq!['b', 'r', 'e', 'a', 'k']);
        assert("fn"@ =~= seq!['f', 'n']);
    }
    if chars_eq(w.as_slice(), str_to_chars("true").as_slice()) {
        Token::Bool(true)
    } else if chars_eq(w.as_slice(), str_to_chars("false").as_slice()) {
        Token::Bool(false)
    } else if chars_eq(w.as_slice(), str_to_chars("let").as_slice()) {
        Token::Let
    } else if chars_eq(w.as_slice(), str_to_chars("for").as_slice()) {
        Token::For
    } else if chars_eq(w.as_slice(), str_to_chars("in").as_slice()) {
        Token::In
    } else if chars_eq(w.as_slice(), str_to_chars("if").as_slice()) {
        Token::If
    } else if chars_eq(w.as_slice(), str_to_chars("else").as_slice()) {
        Token::Else
    } else if chars_eq(w.as_slice(), str_to_chars("return").as_slice()) {
        Token::Return
    } else if chars_eq(w.as_slice(), str_to_chars("break").as_slice()) {
        Token::Break
    } else if chars_eq(w.as_slice(), str_to_chars("fn").as_slice()) {
        Token::Fn
    } else {
        Token::Ident(chars_to_string(w.as_slice()))
    }
}

proof fn lemma_prepend_all_push(a: Seq<(int, int, TokenView)>, t: (int, int, TokenView), o: LexOutcome)
    ensures
        prepend_all(a.push(t), o) == prepend_all(a, prepend(t, o)),
{
    if let LexOutcome::Tokens(rest) = o {
        assert(a.push(t) + rest == a + (seq![t] + rest));
    }
}

proof fn lemma_tokens_view_push(v: Seq<Spanned<Token>>, t: Spanned<Token>)
    ensures
        tokens_view(v.push(t)) == tokens_view(v).push((t.start as int, t.end as int, t.value@)),
{
    assert(tokens_view(v.push(t)) =~= tokens_view(v).push((t.start as int, t.end as int, t.value@)));
}

impl<'src> Lexer<'src> {
    /// The chars of every registered operator
    fn op_keys(&self) -> (keys: Vec<Vec<char>>)
        ensures
            forall|k: Seq<char>| (exists|i: int| 0 <= i < keys@.len() && #[trigger] keys@[i]@ == k) <==> self.registry.is_op(k),
    {
        let strs = self.registry.op_strings();
        let mut keys: Vec<Vec<char>> = Vec::new();
        let mut i: usize = 0;
        while i < strs.len()
            invariant
                i <= strs@.len(),
                keys@.len() == i,
                forall|j: int| 0 <= j < i ==> #[trigger] keys@[j]@ == strs@[j]@,
            decreases strs.len() - i,
        {
            keys.push(str_to_chars(strs[i].as_str()));
            i = i + 1;
        }
        proof {
            assert forall|k: Seq<char>| #[trigger] self.registry.is_op(k) <==> (exists|i: int| 0 <= i < keys@.len() && #[trigger] keys@[i]@ == k) by {
                if exists|i: int| 0 <= i < keys@.len() && #[trigger] keys@[i]@ == k {
                    let i = choose|i: int| 0 <= i < keys@.len() && #[trigger] keys@[i]@ == k;
                    assert(strs@[i]@ == k);
                }
                if self.registry.is_op(k) {
                    let i = choose|i: int| 0 <= i < strs@.len() && #[trigger] strs@[i]@ == k;
                    assert(keys@[i]@ == k);
                }
            }
        }
        keys
    }

    /// Lexes the number starting under the cursor; `None` if it is an
    /// integer too large for an `i32`
    fn lex_number(&mut self) -> (r: Option<Spanned<Token>>)
        requires
            old(self).wf(),
            !old(self).start,
            old(self).cursor < old(self).len,
            is_digit(old(self).chars@[old(self).cursor as int]),
            old(self).checkpoints@.len() == 0,
        ensures
            final(self).wf(),
            final(self).chars == old(self).chars,
            final(self).len == old(self).len,
            final(self).registry == old(self).registry,
            !final(self).start,
            final(self).cursor == number_end(old(self).chars@, old(self).cursor as int, false),
            ({
                let s = old(self).chars@;
                let p = old(self).cursor as int;
                let t = s.subrange(p, final(self).cursor + 1);
                if t.contains('.') {
                    r matches Some(tok) && tok.start == p && tok.end == final(self).cursor && tok.value@ == TokenView::Float(t)
                } else if digits_value(t) > i32::MAX {
                    r is None
                } else {
                    r matches Some(tok) && tok.start == p && tok.end == final(self).cursor
                        && tok.value@ == TokenView::Int(digits_value(t) as i32)
                }
            }),
    {
        let ghost s = self.chars@;
        let p = self.cursor;
        self.checkpoint();

        let mut num: Vec<char> = Vec::new();
        num.push(self.get());
        let mut decimal = false;

        loop
            invariant
                self.wf(),
                self.chars == old(self).chars,
                self.len == old(self).len,
                self.registry == old(self).registry,
                s == self.chars@,
                p == old(self).cursor,
                !self.start,
                self.checkpoints@ == seq![p],
                p <= self.cursor < self.len,
                num@ == s.subrange(p as int, self.cursor + 1),
                decimal == num@.contains('.'),
                forall|j: int| 0 <= j < num@.len() ==> is_digit(#[trigger] num@[j]) || num@[j] == '.',
                number_end(s, self.cursor as int, decimal) == number_end(s, p as int, false),
            ensures
                number_end(s, self.cursor as int, decimal) == self.cursor,
            decreases self.len - self.cursor,
        {
            let ghost prev = self.cursor;
            if !self.advance() {
                break;
            }
            let c = self.get();
            if c == '.' {
                if decimal {
                    self.back();
                    break;
                } else {
                    decimal = true;
                    num.push(c);
                    assert(num@ == s.subrange(p as int, self.cursor + 1));
                    assert(num@.last() == '.');
                    continue;
                }
            }

            if !is_ascii_digit(c) {
                self.back();
                break;
            }

            num.push(c);
            assert(num@ == s.subrange(p as int, self.cursor + 1));
            assert(num@.contains('.') == num@.drop_last().contains('.')) by {
                assert(num@.drop_last() == s.subrange(p as int, prev + 1));
                if num@.contains('.') {
                    let j = choose|j: int| 0 <= j < num@.len() && num@[j] == '.';
                    assert(num@.drop_last()[j] == '.');
                }
            }
        }

        let t = self.create_checkpoint(());
        if decimal {
            Some(Spanned::new(t.start, t.end, Token::Float(chars_to_string(num.as_slice()))))
        } else {
            assert forall|j: int| 0 <= j < num@.len() implies is_digit(num@[j]) by {
                if num@[j] == '.' {
                    assert(num@.contains('.'));
                }
            }
            match digits_to_i32(num.as_slice()) {
                Some(v) => Some(Spanned::new(t.start, t.end, Token::Int(v))),
                None => None,
            }
        }
    }

    /// Lexes the string literal whose opening quote is under the cursor
    fn lex_string(&mut self) -> (r: Result<Spanned<Token>, Spanned<KaonError>>)
        requires
            old(self).wf(),
            !old(self).start,
            old(self).cursor < old(self).len,
            old(self).chars@[old(self).cursor as int] == '"',
            old(self).checkpoints@.len() == 0,
        ensures
            final(self).wf(),
            final(self).chars == old(self).chars,
            final(self).len == old(self).len,
            final(self).registry == old(self).registry,
            !final(self).start,
            match string_scan(old(self).chars@, old(self).cursor as int, old(self).cursor + 1, Seq::empty()) {
                StrScan::Closed(e, body) => r matches Ok(tok) && tok.start == old(self).cursor && tok.end == e
                    && final(self).cursor == e && tok.value@ == TokenView::Str(body),
                StrScan::Broken(a, b, err) => r matches Err(x) && x.start == a && x.end == b && x.value == err,
            },
    {
        let ghost s = self.chars@;
        let p = self.cursor;
        self.checkpoint();

        let mut body: Vec<char> = Vec::new();

        loop
            invariant_except_break
                string_scan(s, p as int, self.cursor + 1, body@) == string_scan(s, p as int, p + 1, Seq::empty()),
            invariant
                self.wf(),
                self.chars == old(self).chars,
                self.len == old(self).len,
                self.registry == old(self).registry,
                s == self.chars@,
                p == old(self).cursor,
                !self.start,
                self.checkpoints@ == seq![p],
                p <= self.cursor < self.len,
            ensures
                string_scan(s, p as int, p + 1, Seq::empty()) == StrScan::Closed(self.cursor as int, body@),
            decreases self.len - self.cursor,
        {
            if !self.advance() {
                return Err(self.create_checkpoint(KaonError::UnclosedString));
            }
            if self.get() == '"' {
                break;
            }

            if self.get() == '\\' {
                self.checkpoint();
                if !self.advance() {
                    self.remove_checkpoint();
                    return Err(self.create_checkpoint(KaonError::UnclosedString));
                }
                let c = self.get();
                if c == 't' {
                    body.push('\t');
                } else if c == 'r' {
                    body.push('\r');
                } else if c == 'n' {
                    body.push('\n');
                } else if c == '\\' {
                    body.push('\\');
                } else if c == '"' {
                    body.push('"');
                } else {
                    return Err(self.create_checkpoint(KaonError::UnknownEscape(c)));
                }
                self.remove_checkpoint();
                continue;
            }

            body.push(self.get());
        }

        let t = self.create_checkpoint(());
        Ok(Spanned::new(t.start, t.end, Token::Str(chars_to_string(body.as_slice()))))
    }

    /// Lexes the operator starting under the cursor
    fn lex_op(&mut self, keys: &Vec<Vec<char>>) -> (r: Spanned<Token>)
        requires
            old(self).wf(),
            !old(self).start,
            old(self).cursor < old(self).len,
            old(self).checkpoints@.len() == 0,
            forall|k: Seq<char>| (exists|i: int| 0 <= i < keys@.len() && #[trigger] keys@[i]@ == k) <==> old(self).registry.is_op(k),
        ensures
            final(self).wf(),
            final(self).chars == old(self).chars,
            final(self).len == old(self).len,
            final(self).registry == old(self).registry,
            !final(self).start,
            final(self).cursor == op_end(old(self).chars@, *old(self).registry, old(self).cursor as int, old(self).cursor as int),
            r.start == old(self).cursor,
            r.end == final(self).cursor,
            r.value@ == TokenView::Op(old(self).chars@.subrange(old(self).cursor as int, final(self).cursor + 1)),
    {
        let ghost s = self.chars@;
        let ghost reg = *self.registry;
        let p = self.cursor;
        self.checkpoint();

        let mut op: Vec<char> = Vec::new();
        op.push(self.get());

        loop
            invariant
                self.wf(),
                self.chars == old(self).chars,
                self.len == old(self).len,
                self.registry == old(self).registry,
                s == self.chars@,
                reg == *self.registry,
                !self.start,
                self.checkpoints@ == seq![p],
                p <= self.cursor < self.len,
                op@ == s.subrange(p as int, self.cursor + 1),
                op_end(s, reg, p as int, self.cursor as int) == op_end(s, reg, p as int, p as int),
                forall|k: Seq<char>| (exists|i: int| 0 <= i < keys@.len() && #[trigger] keys@[i]@ == k) <==> reg.is_op(k),
            ensures
                op_end(s, reg, p as int, self.cursor as int) == self.cursor,
            decreases self.len - self.cursor,
        {
            let ghost prev = self.cursor;
            if !self.advance() {
                break;
            }
            let ch = self.get();
            if !is_op(ch) {
                self.back();
                break;
            }
            let mut cand: Vec<char> = Vec::new();
            crate::text::push_all(&mut cand, op.as_slice());
            cand.push(ch);
            assert(cand@ == s.subrange(p as int, prev + 2));
            let found = any_key_starts_with(keys, &cand);
            assert(found == has_op_prefix(reg, cand@)) by {
                if found {
                    let i = choose|i: int| 0 <= i < keys@.len() && cand@.len() <= keys@[i]@.len()
                        && #[trigger] keys@[i]@.subrange(0, cand@.len() as int) == cand@;
                    assert(reg.is_op(keys@[i]@));
                }
                if has_op_prefix(reg, cand@) {
                    let k = choose|k: Seq<char>| reg.is_op(k) && cand@.len() <= k.len()
                        && #[trigger] k.subrange(0, cand@.len() as int) == cand@;
                    let i = choose|i: int| 0 <= i < keys@.len() && #[trigger] keys@[i]@ == k;
                    assert(keys@[i]@.subrange(0, cand@.len() as int) == cand@);
                }
            }
            if !found {
                self.back();
                break;
            }
            op = cand;
        }

        let t = self.create_checkpoint(());
        Spanned::new(t.start, t.end, Token::Op(chars_to_string(op.as_slice())))
    }

    /// Lexes the identifier or keyword starting under the cursor
    fn lex_word(&mut self) -> (r: Spanned<Token>)
        requires
            old(self).wf(),
            !old(self).start,
            old(self).cursor < old(self).len,
            old(self).checkpoints@.len() == 0,
        ensures
            final(self).wf(),
            final(self).chars == old(self).chars,
            final(self).len == old(self).len,
            final(self).registry == old(self).registry,
            !final(self).start,
            final(self).cursor == ident_end(old(self).chars@, old(self).cursor as int),
            r.start == old(self).cursor,
            r.end == final(self).cursor,
            r.value@ == word_token(old(self).chars@.subrange(old(self).cursor as int, final(self).cursor + 1)),
    {
        let ghost s = self.chars@;
        let p = self.cursor;
        self.checkpoint();

        let mut ident: Vec<char> = Vec::new();
        ident.push(self.get());

        loop
            invariant
                self.wf(),
                self.chars == old(self).chars,
                self.len == old(self).len,
                self.registry == old(self).registry,
                s == self.chars@,
                p == old(self).cursor,
                !self.start,
                self.checkpoints@ == seq![p],
                p <= self.cursor < self.len,
                ident@ == s.subrange(p as int, self.cursor + 1),
                ident_end(s, self.cursor as int) == ident_end(s, p as int),
            ensures
                ident_end(s, self.cursor as int) == self.cursor,
            decreases self.len - self.cursor,
        {
            if !self.advance() {
                break;
            }
            let ch = self.get();
            if !(char_is_alphanumeric(ch) || ch == '_') {
                self.back();
                break;
            }
            ident.push(ch);
        }

        let tok = word_to_token(&ident);
        self.create_checkpoint(tok)
    }

    fn lex_inner(&mut self) -> (r: Option<Result<Vec<Spanned<Token>>, Spanned<KaonError>>>)
        requires
            old(self).wf(),
            old(self).start,
        ensures
            match lex_from(old(self).chars@, *old(self).registry, 0) {
                LexOutcome::Tokens(ts) => r matches Some(Ok(v)) && tokens_view(v@) == ts,
                LexOutcome::Failed(a, b, e) => r matches Some(Err(x)) && x.start == a && x.end == b
                    && x.value == e,
                LexOutcome::Overflow => r is None,
            },
    {
        let ghost s = self.chars@;
        let ghost reg = *self.registry;
        let keys = self.op_keys();
        let mut res: Vec<Spanned<Token>> = Vec::new();
        assert(tokens_view(res@) =~= Seq::empty());
        assert(prepend_all(Seq::empty(), lex_from(s, reg, 0)) == lex_from(s, reg, 0)) by {
            if let LexOutcome::Tokens(rest) = lex_from(s, reg, 0) {
                assert(Seq::<(int, int, TokenView)>::empty() + rest == rest);
            }
        }

        loop
            invariant
                self.wf(),
                s == self.chars@,
                s == old(self).chars@,
                reg == *old(self).registry,
                reg == *self.registry,
                self.len == s.len(),
                self.next_index() <= self.len,
                lex_from(s, reg, 0) == prepend_all(tokens_view(res@), lex_from(s, reg, self.next_index())),
                forall|k: Seq<char>| (exists|i: int| 0 <= i < keys@.len() && #[trigger] keys@[i]@ == k) <==> reg.is_op(k),
            decreases self.len - self.next_index(),
        {
            // Keep checkpoints clear
            self.clear_checkpoints();
            let ghost n = self.next_index();

            if !self.advance_ignore_whitespace() {
                assert(lex_from(s, reg, n) == LexOutcome::Tokens(Seq::empty()));
                assert(tokens_view(res@) + Seq::<(int, int, TokenView)>::empty() == tokens_view(res@));
                return Some(Ok(res));
            }
            let p = self.cursor;
            let c = self.get();
            proof {
                lemma_next_non_ws(s, n);
            }

            if is_ascii_digit(c) {
                match self.lex_number() {
                    Some(tok) => {
                        proof {
                            lemma_number_end(s, p as int, false);
                            lemma_prepend_all_push(tokens_view(res@), (tok.start as int, tok.end as int, tok.value@), lex_from(s, reg, self.cursor + 1));
                            lemma_tokens_view_push(res@, tok);
                        }
                        res.push(tok);
                    },
                    None => {
                        assert(lex_from(s, reg, n) == LexOutcome::Overflow);
                        return None;
                    },
                }
            } else if c == '"' {
                proof {
                    lemma_string_scan(s, p as int, p + 1, Seq::empty());
                }
                match self.lex_string() {
                    Ok(tok) => {
                        proof {
                            lemma_prepend_all_push(tokens_view(res@), (tok.start as int, tok.end as int, tok.value@), lex_from(s, reg, self.cursor + 1));
                            lemma_tokens_view_push(res@, tok);
                        }
                        res.push(tok);
                    },
                    Err(e) => {
                        return Some(Err(e));
                    },
                }
            } else if is_op(c) {
                let tok = self.lex_op(&keys);
                proof {
                    lemma_op_end(s, reg, p as int, p as int);
                    lemma_prepend_all_push(tokens_view(res@), (tok.start as int, tok.end as int, tok.value@), lex_from(s, reg, self.cursor + 1));
                    lemma_tokens_view_push(res@, tok);
                }
                res.push(tok);
            } else if is_ctrl(c) {
                let tok = self.create(Token::Ctrl(c));
                proof {
                    lemma_prepend_all_push(tokens_view(res@), (tok.start as int, tok.end as int, tok.value@), lex_from(s, reg, self.cursor + 1));
                    lemma_tokens_view_push(res@, tok);
                }
                res.push(tok);
            } else if char_is_alphabetic(c) || c == '_' {
                let tok = self.lex_word();
                proof {
                    lemma_ident_end(s, p as int);
                    lemma_prepend_all_push(tokens_view(res@), (tok.start as int, tok.end as int, tok.value@), lex_from(s, reg, self.cursor + 1));
                    lemma_tokens_view_push(res@, tok);
                }
                res.push(tok);
            } else {
                return Some(Err(self.create(KaonError::UnknownChar(c))));
            }
        }
    }
}
} // verus!

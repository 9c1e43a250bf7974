//! Chord strings such as `"ctrl-alt-d"`: modifiers and a key, joined by `-`.
use vstd::prelude::*;
use crate::input::{Chord, Key, Mods, chord_of};
use crate::text::{str_to_chars, chars_to_string};
use vstd::slice::slice_subrange;

verus! {

/// Error returned when a chord string can't be parsed
#[derive(Debug, PartialEq)]
pub enum ParseError {
    Empty,
    UnknownModifier(String),
    UnknownKey(String),
}

impl ParseError {
    /// The message this error is shown with (its `Display` form)
    pub fn message(&self) -> (r: String)
        ensures
            r@ == parse_error_text(*self),
    {
        let mut out: Vec<char> = Vec::new();
        match self {
            ParseError::Empty => {
                crate::text::push_str(&mut out, "empty chord string");
            },
            ParseError::UnknownModifier(s) => {
                crate::text::push_str(&mut out, "unknown modifier ");
                push_debug_str(&mut out, s.as_str());
            },
            ParseError::UnknownKey(s) => {
                crate::text::push_str(&mut out, "unknown key ");
                push_debug_str(&mut out, s.as_str());
            },
        }
        chars_to_string(out.as_slice())
    }
}

/// How `{:?}` shows a string: quoted, with its special chars escaped.
pub uninterp spec fn debug_text(s: Seq<char>) -> Seq<char>;

/// `{:?}` of a `str` (its `Debug` form)
#[verifier::external_body]
fn debug_string(s: &str) -> (r: String)
    ensures
        r@ == debug_text(s@),
{
    format!("{:?}", s)
}

/// Appends `s` as `{:?}` shows it
fn push_debug_str(out: &mut Vec<char>, s: &str)
    ensures
        final(out)@ == old(out)@ + debug_text(s@),
{
    let d = debug_string(s);
    crate::text::push_str(out, d.as_str());
}

/// The message of a parse error.
pub open spec fn parse_error_text(e: ParseError) -> Seq<char> {
    match e {
        ParseError::Empty => "empty chord string"@,
        ParseError::UnknownModifier(s) => "unknown modifier "@ + debug_text(s@),
        ParseError::UnknownKey(s) => "unknown key "@ + debug_text(s@),
    }
}

/// The position of the last `-` in `s[..n]`, if any.
pub open spec fn last_hyphen(s: Seq<char>, n: int) -> Option<int>
    decreases n,
{
    if n <= 0 {
        None
    } else if s[n - 1] == '-' {
        Some(n - 1)
    } else {
        last_hyphen(s, n - 1)
    }
}

/// Where `last_hyphen` stops: a `-` with none after it, or none at all.
pub proof fn lemma_last_hyphen(s: Seq<char>, n: int)
    requires
        n <= s.len(),
    ensures
        match last_hyphen(s, n) {
            Some(i) => 0 <= i < n && s[i] == '-' && forall|j: int| i < j < n ==> s[j] != '-',
            None => forall|j: int| 0 <= j < n ==> s[j] != '-',
        },
    decreases n,
{
    if n > 0 && s[n - 1] != '-' {
        lemma_last_hyphen(s, n - 1);
    }
}

/// A chord string split into its modifiers and its key: a lone `-`, or a
/// trailing `--`, is the key `-`; else the key is what follows the last
/// `-`, or the whole string when there is none.
pub open spec fn split_chord(s: Seq<char>) -> (Seq<char>, Seq<char>) {
    if s == seq!['-'] {
        (Seq::empty(), seq!['-'])
    } else if s.len() >= 2 && s[s.len() - 1] == '-' && s[s.len() - 2] == '-' {
        (s.subrange(0, s.len() - 2), seq!['-'])
    } else {
        match last_hyphen(s, s.len() as int) {
            Some(i) => (s.subrange(0, i), s.subrange(i + 1, s.len() as int)),
            None => (Seq::empty(), s),
        }
    }
}

/// The flag a modifier name stands for.
pub open spec fn modifier_flag(t: Seq<char>) -> Option<u8> {
    if t == "ctrl"@ || t == "control"@ {
        Some(Mods::CONTROL_BITS)
    } else if t == "alt"@ || t == "opt"@ || t == "option"@ {
        Some(Mods::ALT_BITS)
    } else if t == "shift"@ {
        Some(Mods::SHIFT_BITS)
    } else if t == "super"@ || t == "cmd"@ || t == "win"@ {
        Some(Mods::SUPER_BITS)
    } else if t == "meta"@ {
        Some(Mods::META_BITS)
    } else if t == "hyper"@ {
        Some(Mods::HYPER_BITS)
    } else {
        None
    }
}

/// The modifiers of `s[..n]`, a `-`-separated list whose empty parts are
/// skipped: their flags together, or the first name that is no modifier.
pub open spec fn parse_mods(s: Seq<char>, n: int) -> Result<u8, Seq<char>>
    decreases n,
{
    if n <= 0 || n > s.len() {
        Ok(0)
    } else {
        match last_hyphen(s, n) {
            Some(i) => match {
                proof {
                    lemma_last_hyphen(s, n);
                }
                parse_mods(s, i)
            } {
                Err(e) => Err(e),
                Ok(b) => add_token(b, s.subrange(i + 1, n)),
            },
            None => add_token(0, s.subrange(0, n)),
        }
    }
}

/// Adding one part of the modifier list to the flags `b`.
pub open spec fn add_token(b: u8, t: Seq<char>) -> Result<u8, Seq<char>> {
    if t.len() == 0 {
        Ok(b)
    } else {
        match modifier_flag(t) {
            Some(f) => Ok(b | f),
            None => Err(t),
        }
    }
}

/// The value of the digits `s`, most significant first.
pub open spec fn digits_value(s: Seq<char>) -> nat
    decreases s.len(),
{
    if s.len() == 0 {
        0
    } else {
        digits_value(s.drop_last()) * 10 + ((s.last() as u32) - ('0' as u32)) as nat
    }
}

/// Whether every char of `s` is an ASCII digit.
pub open spec fn all_digits(s: Seq<char>) -> bool {
    forall|i: int| 0 <= i < s.len() ==> '0' <= #[trigger] s[i] <= '9'
}

/// What `u8`'s `from_str` gives: an optional `+` then at least one digit,
/// with a value that fits in a `u8`.
pub open spec fn u8_of(s: Seq<char>) -> Option<u8> {
    let d = if s.len() > 0 && s[0] == '+' { s.drop_first() } else { s };
    if d.len() > 0 && all_digits(d) && digits_value(d) <= 255 {
        Some(digits_value(d) as u8)
    } else {
        None
    }
}

/// The key a name stands for.
pub open spec fn key_of(t: Seq<char>) -> Option<Key> {
    if t == "-"@ {
        Some(Key::Char('-'))
    } else if t == "space"@ {
        Some(Key::Char(' '))
    } else if t == "tab"@ {
        Some(Key::Tab)
    } else if t == "enter"@ || t == "return"@ {
        Some(Key::Enter)
    } else if t == "esc"@ || t == "escape"@ {
        Some(Key::Esc)
    } else if t == "backspace"@ {
        Some(Key::Backspace)
    } else if t == "delete"@ || t == "del"@ {
        Some(Key::Delete)
    } else if t == "insert"@ || t == "ins"@ {
        Some(Key::Insert)
    } else if t == "home"@ {
        Some(Key::Home)
    } else if t == "end"@ {
        Some(Key::End)
    } else if t == "pageup"@ {
        Some(Key::PageUp)
    } else if t == "pagedown"@ {
        Some(Key::PageDown)
    } else if t == "up"@ {
        Some(Key::Up)
    } else if t == "down"@ {
        Some(Key::Down)
    } else if t == "left"@ {
        Some(Key::Left)
    } else if t == "right"@ {
        Some(Key::Right)
    } else if t.len() == 1 {
        Some(Key::Char(t[0]))
    } else if t.len() > 0 && t[0] == 'f' {
        match u8_of(t.drop_first()) {
            Some(n) => Some(Key::F(n)),
            None => None,
        }
    } else {
        None
    }
}

/// The key names a chord string can use, aliases included, and the keys
/// they name: `-`, `space`, `tab`, `enter` or `return`, `esc` or `escape`,
/// `backspace`, `delete` or `del`, `insert` or `ins`, `home`, `end`,
/// `pageup`, `pagedown`, `up`, `down`, `left` and `right`.
pub proof fn law_key_names()
    ensures
        key_of("-"@) == Some(Key::Char('-')),
        key_of("space"@) == Some(Key::Char(' ')),
        key_of("tab"@) == Some(Key::Tab),
        key_of("enter"@) == Some(Key::Enter),
        key_of("return"@) == Some(Key::Enter),
        key_of("esc"@) == Some(Key::Esc),
        key_of("escape"@) == Some(Key::Esc),
        key_of("backspace"@) == Some(Key::Backspace),
        key_of("delete"@) == Some(Key::Delete),
        key_of("del"@) == Some(Key::Delete),
        key_of("insert"@) == Some(Key::Insert),
        key_of("ins"@) == Some(Key::Insert),
        key_of("home"@) == Some(Key::Home),
        key_of("end"@) == Some(Key::End),
        key_of("pageup"@) == Some(Key::PageUp),
        key_of("pagedown"@) == Some(Key::PageDown),
        key_of("up"@) == Some(Key::Up),
        key_of("down"@) == Some(Key::Down),
        key_of("left"@) == Some(Key::Left),
        key_of("right"@) == Some(Key::Right),
{
    assert(key_of("-"@) == Some(Key::Char('-'))) by {
        reveal_strlit("-");
    }
    assert(key_of("space"@) == Some(Key::Char(' '))) by {
        reveal_strlit("space");
        reveal_strlit("-");
        assert("space"@.len() != "-"@.len());
    }
    assert(key_of("tab"@) == Some(Key::Tab)) by {
        reveal_strlit("tab");
        reveal_strlit("-");
        reveal_strlit("space");
        assert("tab"@.len() != "-"@.len());
        assert("tab"@.len() != "space"@.len());
    }
    assert(key_of("enter"@) == Some(Key::Enter)) by {
        reveal_strlit("enter");
        reveal_strlit("-");
        reveal_strlit("space");
        reveal_strlit("tab");
        assert("enter"@.len() != "-"@.len());
        assert("enter"@[0] != "space"@[0]);
        assert("enter"@.len() != "tab"@.len());
    }
    assert(key_of("return"@) == Some(Key::Enter)) by {
        reveal_strlit("return");
        reveal_strlit("-");
        reveal_strlit("space");
        reveal_strlit("tab");
        assert("return"@.len() != "-"@.len());
        assert("return"@.len() != "space"@.len());
        assert("return"@.len() != "tab"@.len());
    }
    assert(key_of("esc"@) == Some(Key::Esc)) by {
        reveal_strlit("esc");
        reveal_strlit("-");
        reveal_strlit("space");
        reveal_strlit("tab");
        reveal_strlit("enter");
        reveal_strlit("return");
        assert("esc"@.len() != "-"@.len());
        assert("esc"@.len() != "space"@.len());
        assert("esc"@[0] != "tab"@[0]);
        assert("esc"@.len() != "enter"@.len());
        assert("esc"@.len() != "return"@.len());
    }
    assert(key_of("escape"@) == Some(Key::Esc)) by {
        reveal_strlit("escape");
        reveal_strlit("-");
        reveal_strlit("space");
        reveal_strlit("tab");
        reveal_strlit("enter");
        reveal_strlit("return");
        assert("escape"@.len() != "-"@.len());
        assert("escape"@.len() != "space"@.len());
        assert("escape"@.len() != "tab"@.len());
        assert("escape"@.len() != "enter"@.len());
        assert("escape"@[0] != "return"@[0]);
    }
    assert(key_of("backspace"@) == Some(Key::Backspace)) by {
        reveal_strlit("backspace");
        reveal_strlit("-");
        reveal_strlit("space");
        reveal_strlit("tab");
        reveal_strlit("enter");
        reveal_strlit("return");
        reveal_strlit("esc");
        reveal_strlit("escape");
        assert("backspace"@.len() != "-"@.len());
        assert("backspace"@.len() != "space"@.len());
        assert("backspace"@.len() != "tab"@.len());
        assert("backspace"@.len() != "enter"@.len());
        assert("backspace"@.len() != "return"@.len());
        assert("backspace"@.len() != "esc"@.len());
        assert("backspace"@.len() != "escape"@.len());
    }
    assert(key_of("delete"@) == Some(Key::Delete)) by {
        reveal_strlit("delete");
        reveal_strlit("-");
        reveal_strlit("space");
        reveal_strlit("tab");
        reveal_strlit("enter");
        reveal_strlit("return");
        reveal_strlit("esc");
        reveal_strlit("escape");
        reveal_strlit("backspace");
        assert("delete"@.len() != "-"@.len());
        assert("delete"@.len() != "space"@.len());
        assert("delete"@.len() != "tab"@.len());
        assert("delete"@.len() != "enter"@.len());
        assert("delete"@[0] != "return"@[0]);
        assert("delete"@.len() != "esc"@.len());
        assert("delete"@[0] != "escape"@[0]);
        assert("delete"@.len() != "backspace"@.len());
    }
    assert(key_of("del"@) == Some(Key::Delete)) by {
        reveal_strlit("del");
        reveal_strlit("-");
        reveal_strlit("space");
        reveal_strlit("tab");
        reveal_strlit("enter");
        reveal_strlit("return");
        reveal_strlit("esc");
        reveal_strlit("escape");
        reveal_strlit("backspace");
        assert("del"@.len() != "-"@.len());
        assert("del"@.len() != "space"@.len());
        assert("del"@[0] != "tab"@[0]);
        assert("del"@.len() != "enter"@.len());
        assert("del"@.len() != "return"@.len());
        assert("del"@[0] != "esc"@[0]);
        assert("del"@.len() != "escape"@.len());
        assert("del"@.len() != "backspace"@.len());
    }
    assert(key_of("insert"@) == Some(Key::Insert)) by {
        reveal_strlit("insert");
        reveal_strlit("-");
        reveal_strlit("space");
        reveal_strlit("tab");
        reveal_strlit("enter");
        reveal_strlit("return");
        reveal_strlit("esc");
        reveal_strlit("escape");
        reveal_strlit("backspace");
        reveal_strlit("delete");
        reveal_strlit("del");
        assert("insert"@.len() != "-"@.len());
        assert("insert"@.len() != "space"@.len());
        assert("insert"@.len() != "tab"@.len());
        assert("insert"@.len() != "enter"@.len());
        assert("insert"@[0] != "return"@[0]);
        assert("insert"@.len() != "esc"@.len());
        assert("insert"@[0] != "escape"@[0]);
        assert("insert"@.len() != "backspace"@.len());
        assert("insert"@[0] != "delete"@[0]);
        assert("insert"@.len() != "del"@.len());
    }
    assert(key_of("ins"@) == Some(Key::Insert)) by {
        reveal_strlit("ins");
        reveal_strlit("-");
        reveal_strlit("space");
        reveal_strlit("tab");
        reveal_strlit("enter");
        reveal_strlit("return");
        reveal_strlit("esc");
        reveal_strlit("escape");
        reveal_strlit("backspace");
        reveal_strlit("delete");
        reveal_strlit("del");
        assert("ins"@.len() != "-"@.len());
        assert("ins"@.len() != "space"@.len());
        assert("ins"@[0] != "tab"@[0]);
        assert("ins"@.len() != "enter"@.len());
        assert("ins"@.len() != "return"@.len());
        assert("ins"@[0] != "esc"@[0]);
        assert("ins"@.len() != "escape"@.len());
        assert("ins"@.len() != "backspace"@.len());
        assert("ins"@.len() != "delete"@.len());
        assert("ins"@[0] != "del"@[0]);
    }
    assert(key_of("home"@) == Some(Key::Home)) by {
        reveal_strlit("home");
        reveal_strlit("-");
        reveal_strlit("space");
        reveal_strlit("tab");
        reveal_strlit("enter");
        reveal_strlit("return");
        reveal_strlit("esc");
        reveal_strlit("escape");
        reveal_strlit("backspace");
        reveal_strlit("delete");
        reveal_strlit("del");
        reveal_strlit("insert");
        reveal_strlit("ins");
        assert("home"@.len() != "-"@.len());
        assert("home"@.len() != "space"@.len());
        assert("home"@.len() != "tab"@.len());
        assert("home"@.len() != "enter"@.len());
        assert("home"@.len() != "return"@.len());
        assert("home"@.len() != "esc"@.len());
        assert("home"@.len() != "escape"@.len());
        assert("home"@.len() != "backspace"@.len());
        assert("home"@.len() != "delete"@.len());
        assert("home"@.len() != "del"@.len());
        assert("home"@.len() != "insert"@.len());
        assert("home"@.len() != "ins"@.len());
    }
    assert(key_of("end"@) == Some(Key::End)) by {
        reveal_strlit("end");
        reveal_strlit("-");
        reveal_strlit("space");
        reveal_strlit("tab");
        reveal_strlit("enter");
        reveal_strlit("return");
        reveal_strlit("esc");
        reveal_strlit("escape");
        reveal_strlit("backspace");
        reveal_strlit("delete");
        reveal_strlit("del");
        reveal_strlit("insert");
        reveal_strlit("ins");
        reveal_strlit("home");
        assert("end"@.len() != "-"@.len());
        assert("end"@.len() != "space"@.len());
        assert("end"@[0] != "tab"@[0]);
        assert("end"@.len() != "enter"@.len());
        assert("end"@.len() != "return"@.len());
        assert("end"@[1] != "esc"@[1]);
        assert("end"@.len() != "escape"@.len());
        assert("end"@.len() != "backspace"@.len());
        assert("end"@.len() != "delete"@.len());
        assert("end"@[0] != "del"@[0]);
        assert("end"@.len() != "insert"@.len());
        assert("end"@[0] != "ins"@[0]);
        assert("end"@.len() != "home"@.len());
    }
    assert(key_of("pageup"@) == Some(Key::PageUp)) by {
        reveal_strlit("pageup");
        reveal_strlit("-");
        reveal_strlit("space");
        reveal_strlit("tab");
        reveal_strlit("enter");
        reveal_strlit("return");
        reveal_strlit("esc");
        reveal_strlit("escape");
        reveal_strlit("backspace");
        reveal_strlit("delete");
        reveal_strlit("del");
        reveal_strlit("insert");
        reveal_strlit("ins");
        reveal_strlit("home");
        reveal_strlit("end");
        assert("pageup"@.len() != "-"@.len());
        assert("pageup"@.len() != "space"@.len());
        assert("pageup"@.len() != "tab"@.len());
        assert("pageup"@.len() != "enter"@.len());
        assert("pageup"@[0] != "return"@[0]);
        assert("pageup"@.len() != "esc"@.len());
        assert("pageup"@[0] != "escape"@[0]);
        assert("pageup"@.len() != "backspace"@.len());
        assert("pageup"@[0] != "delete"@[0]);
        assert("pageup"@.len() != "del"@.len());
        assert("pageup"@[0] != "insert"@[0]);
        assert("pageup"@.len() != "ins"@.len());
        assert("pageup"@.len() != "home"@.len());
        assert("pageup"@.len() != "end"@.len());
    }
    assert(key_of("pagedown"@) == Some(Key::PageDown)) by {
        reveal_strlit("pagedown");
        reveal_strlit("-");
        reveal_strlit("space");
        reveal_strlit("tab");
        reveal_strlit("enter");
        reveal_strlit("return");
        reveal_strlit("esc");
        reveal_strlit("escape");
        reveal_strlit("backspace");
        reveal_strlit("delete");
        reveal_strlit("del");
        reveal_strlit("insert");
        reveal_strlit("ins");
        reveal_strlit("home");
        reveal_strlit("end");
        reveal_strlit("pageup");
        assert("pagedown"@.len() != "-"@.len());
        assert("pagedown"@.len() != "space"@.len());
        assert("pagedown"@.len() != "tab"@.len());
        assert("pagedown"@.len() != "enter"@.len());
        assert("pagedown"@.len() != "return"@.len());
        assert("pagedown"@.len() != "esc"@.len());
        assert("pagedown"@.len() != "escape"@.len());
        assert("pagedown"@.len() != "backspace"@.len());
        assert("pagedown"@.len() != "delete"@.len());
        assert("pagedown"@.len() != "del"@.len());
        assert("pagedown"@.len() != "insert"@.len());
        assert("pagedown"@.len() != "ins"@.len());
        assert("pagedown"@.len() != "home"@.len());
        assert("pagedown"@.len() != "end"@.len());
        assert("pagedown"@.len() != "pageup"@.len());
    }
    assert(key_of("up"@) == Some(Key::Up)) by {
        reveal_strlit("up");
        reveal_strlit("-");
        reveal_strlit("space");
        reveal_strlit("tab");
        reveal_strlit("enter");
        reveal_strlit("return");
        reveal_strlit("esc");
        reveal_strlit("escape");
        reveal_strlit("backspace");
        reveal_strlit("delete");
        reveal_strlit("del");
        reveal_strlit("insert");
        reveal_strlit("ins");
        reveal_strlit("home");
        reveal_strlit("end");
        reveal_strlit("pageup");
        reveal_strlit("pagedown");
        assert("up"@.len() != "-"@.len());
        assert("up"@.len() != "space"@.len());
        assert("up"@.len() != "tab"@.len());
        assert("up"@.len() != "enter"@.len());
        assert("up"@.len() != "return"@.len());
        assert("up"@.len() != "esc"@.len());
        assert("up"@.len() != "escape"@.len());
        assert("up"@.len() != "backspace"@.len());
        assert("up"@.len() != "delete"@.len());
        assert("up"@.len() != "del"@.len());
        assert("up"@.len() != "insert"@.len());
        assert("up"@.len() != "ins"@.len());
        assert("up"@.len() != "home"@.len());
        assert("up"@.len() != "end"@.len());
        assert("up"@.len() != "pageup"@.len());
        assert("up"@.len() != "pagedown"@.len());
    }
    assert(key_of("down"@) == Some(Key::Down)) by {
        reveal_strlit("down");
        reveal_strlit("-");
        reveal_strlit("space");
        reveal_strlit("tab");
        reveal_strlit("enter");
        reveal_strlit("return");
        reveal_strlit("esc");
        reveal_strlit("escape");
        reveal_strlit("backspace");
        reveal_strlit("delete");
        reveal_strlit("del");
        reveal_strlit("insert");
        reveal_strlit("ins");
        reveal_strlit("home");
        reveal_strlit("end");
        reveal_strlit("pageup");
        reveal_strlit("pagedown");
        reveal_strlit("up");
        assert("down"@.len() != "-"@.len());
        assert("down"@.len() != "space"@.len());
        assert("down"@.len() != "tab"@.len());
        assert("down"@.len() != "enter"@.len());
        assert("down"@.len() != "return"@.len());
        assert("down"@.len() != "esc"@.len());
        assert("down"@.len() != "escape"@.len());
        assert("down"@.len() != "backspace"@.len());
        assert("down"@.len() != "delete"@.len());
        assert("down"@.len() != "del"@.len());
        assert("down"@.len() != "insert"@.len());
        assert("down"@.len() != "ins"@.len());
        assert("down"@[0] != "home"@[0]);
        assert("down"@.len() != "end"@.len());
        assert("down"@.len() != "pageup"@.len());
        assert("down"@.len() != "pagedown"@.len());
        assert("down"@.len() != "up"@.len());
    }
    assert(key_of("left"@) == Some(Key::Left)) by {
        reveal_strlit("left");
        reveal_strlit("-");
        reveal_strlit("space");
        reveal_strlit("tab");
        reveal_strlit("enter");
        reveal_strlit("return");
        reveal_strlit("esc");
        reveal_strlit("escape");
        reveal_strlit("backspace");
        reveal_strlit("delete");
        reveal_strlit("del");
        reveal_strlit("insert");
        reveal_strlit("ins");
        reveal_strlit("home");
        reveal_strlit("end");
        reveal_strlit("pageup");
        reveal_strlit("pagedown");
        reveal_strlit("up");
        reveal_strlit("down");
        assert("left"@.len() != "-"@.len());
        assert("left"@.len() != "space"@.len());
        assert("left"@.len() != "tab"@.len());
        assert("left"@.len() != "enter"@.len());
        assert("left"@.len() != "return"@.len());
        assert("left"@.len() != "esc"@.len());
        assert("left"@.len() != "escape"@.len());
        assert("left"@.len() != "backspace"@.len());
        assert("left"@.len() != "delete"@.len());
        assert("left"@.len() != "del"@.len());
        assert("left"@.len() != "insert"@.len());
        assert("left"@.len() != "ins"@.len());
        assert("left"@[0] != "home"@[0]);
        assert("left"@.len() != "end"@.len());
        assert("left"@.len() != "pageup"@.len());
        assert("left"@.len() != "pagedown"@.len());
        assert("left"@.len() != "up"@.len());
        assert("left"@[0] != "down"@[0]);
    }
    assert(key_of("right"@) == Some(Key::Right)) by {
        reveal_strlit("right");
        reveal_strlit("-");
        reveal_strlit("space");
        reveal_strlit("tab");
        reveal_strlit("enter");
        reveal_strlit("return");
        reveal_strlit("esc");
        reveal_strlit("escape");
        reveal_strlit("backspace");
        reveal_strlit("delete");
        reveal_strlit("del");
        reveal_strlit("insert");
        reveal_strlit("ins");
        reveal_strlit("home");
        reveal_strlit("end");
        reveal_strlit("pageup");
        reveal_strlit("pagedown");
        reveal_strlit("up");
        reveal_strlit("down");
        reveal_strlit("left");
        assert("right"@.len() != "-"@.len());
        assert("right"@[0] != "space"@[0]);
        assert("right"@.len() != "tab"@.len());
        assert("right"@[0] != "enter"@[0]);
        assert("right"@.len() != "return"@.len());
        assert("right"@.len() != "esc"@.len());
        assert("right"@.len() != "escape"@.len());
        assert("right"@.len() != "backspace"@.len());
        assert("right"@.len() != "delete"@.len());
        assert("right"@.len() != "del"@.len());
        assert("right"@.len() != "insert"@.len());
        assert("right"@.len() != "ins"@.len());
        assert("right"@.len() != "home"@.len());
        assert("right"@.len() != "end"@.len());
        assert("right"@.len() != "pageup"@.len());
        assert("right"@.len() != "pagedown"@.len());
        assert("right"@.len() != "up"@.len());
        assert("right"@.len() != "down"@.len());
        assert("right"@.len() != "left"@.len());
    }
}

/// What a chord string parses to: the first unknown modifier, else the
/// unknown key, else the chord of the key and the modifiers.
pub open spec fn chord_parse(s: Seq<char>) -> Result<Chord, (bool, Seq<char>)> {
    let (m, k) = split_chord(s);
    match parse_mods(m, m.len() as int) {
        Err(t) => Err((true, t)),
        Ok(bits) => match key_of(k) {
            None => Err((false, k)),
            Some(key) => Ok(chord_of(key, Mods { bits })),
        },
    }
}

/// Parses a hyphen-separated chord string (e.g. `"ctrl-alt-d"`) into a `Chord`
pub fn parse_chord(input: &str) -> (r: Result<Chord, ParseError>)
    ensures
        input@.len() == 0 ==> r == Err::<Chord, ParseError>(ParseError::Empty),
        input@.len() > 0 ==> match chord_parse(input@) {
            Ok(c) => r == Ok::<Chord, ParseError>(c),
            Err((true, t)) => r matches Err(ParseError::UnknownModifier(m)) && m@ == t,
            Err((false, t)) => r matches Err(ParseError::UnknownKey(m)) && m@ == t,
        },
{
    let s = str_to_chars(input);
    if s.len() == 0 {
        return Err(ParseError::Empty);
    }
    let n = s.len();

    let (mods_end, key_start): (usize, usize) = if n == 1 && s[0] == '-' {
        (0, 0)
    } else if n >= 2 && s[n - 1] == '-' && s[n - 2] == '-' {
        (n - 2, n - 1)
    } else {
        proof {
            lemma_last_hyphen(s@, n as int);
        }
        match find_last_hyphen(s.as_slice(), n) {
            Some(i) => (i, i + 1),
            None => (0, 0),
        }
    };
    let mods_str = slice_subrange(s.as_slice(), 0, mods_end);
    let key_str = slice_subrange(s.as_slice(), key_start, n);
    proof {
        if n == 1 && s@[0] == '-' {
            assert(s@ =~= seq!['-']);
        }
        let sp = split_chord(s@);
        assert(mods_str@ =~= sp.0);
        assert(key_str@ =~= sp.1);
    }

    let bits = match parse_modifiers(mods_str, mods_str.len()) {
        Ok(b) => b,
        Err(t) => {
            return Err(ParseError::UnknownModifier(chars_to_string(t.as_slice())));
        },
    };

    let code = match parse_key(key_str) {
        Some(code) => code,
        None => {
            return Err(ParseError::UnknownKey(chars_to_string(key_str)));
        },
    };

    Ok(Chord::new(code, Mods { bits }))
}

fn find_last_hyphen(s: &[char], n: usize) -> (r: Option<usize>)
    requires
        n <= s@.len(),
    ensures
        match last_hyphen(s@, n as int) {
            Some(i) => r == Some(i as usize),
            None => r is None,
        },
    decreases n,
{
    if n == 0 {
        None
    } else if s[n - 1] == '-' {
        Some(n - 1)
    } else {
        find_last_hyphen(s, n - 1)
    }
}

fn parse_modifiers(s: &[char], n: usize) -> (r: Result<u8, Vec<char>>)
    requires
        n <= s@.len(),
    ensures
        match parse_mods(s@, n as int) {
            Ok(b) => r == Ok::<u8, Vec<char>>(b),
            Err(t) => r matches Err(v) && v@ == t,
        },
    decreases n,
{
    if n == 0 {
        return Ok(0);
    }
    proof {
        lemma_last_hyphen(s@, n as int);
    }
    match find_last_hyphen(s, n) {
        Some(i) => {
            match parse_modifiers(s, i) {
                Err(e) => Err(e),
                Ok(b) => add_modifier(b, slice_subrange(s, i + 1, n)),
            }
        },
        None => add_modifier(0, slice_subrange(s, 0, n)),
    }
}

fn add_modifier(b: u8, t: &[char]) -> (r: Result<u8, Vec<char>>)
    ensures
        match add_token(b, t@) {
            Ok(x) => r == Ok::<u8, Vec<char>>(x),
            Err(e) => r matches Err(v) && v@ == e,
        },
{
    if t.len() == 0 {
        return Ok(b);
    }
    match parse_modifier(t) {
        Some(f) => Ok(b | f),
        None => {
            let mut v: Vec<char> = Vec::new();
            crate::text::push_all(&mut v, t);
            Err(v)
        },
    }
}

/// Whether the chars `t` spell `w`
fn spells(t: &[char], w: &str) -> (r: bool)
    ensures
        r == (t@ == w@),
{
    let x = str_to_chars(w);
    crate::text::chars_eq(t, x.as_slice())
}

fn parse_modifier(token: &[char]) -> (r: Option<u8>)
    ensures
        r == modifier_flag(token@),
{
    if spells(token, "ctrl") || spells(token, "control") {
        Some(Mods::CONTROL_BITS)
    } else if spells(token, "alt") || spells(token, "opt") || spells(token, "option") {
        Some(Mods::ALT_BITS)
    } else if spells(token, "shift") {
        Some(Mods::SHIFT_BITS)
    } else if spells(token, "super") || spells(token, "cmd") || spells(token, "win") {
        Some(Mods::SUPER_BITS)
    } else if spells(token, "meta") {
        Some(Mods::META_BITS)
    } else if spells(token, "hyper") {
        Some(Mods::HYPER_BITS)
    } else {
        None
    }
}

/// The `u8` that `s` spells, as `u8`'s `from_str` reads it
fn parse_u8(s: &[char]) -> (r: Option<u8>)
    ensures
        r == u8_of(s@),
{
    let start: usize = if s.len() > 0 && s[0] == '+' { 1 } else { 0 };
    let d = slice_subrange(s, start, s.len());
    proof {
        if s@.len() > 0 && s@[0] == '+' {
            assert(d@ =~= s@.drop_first());
        } else {
            assert(d@ =~= s@);
        }
    }
    if d.len() == 0 {
        return None;
    }
    let mut value: u32 = 0;
    let mut i: usize = 0;
    while i < d.len()
        invariant
            d@ == (if s@.len() > 0 && s@[0] == '+' { s@.drop_first() } else { s@ }),
            d@.len() > 0,
            i <= d@.len(),
            all_digits(d@.take(i as int)),
            value == digits_value(d@.take(i as int)),
            value <= 255,
        decreases d.len() - i,
    {
        let c = d[i];
        if c < '0' || c > '9' {
            proof {
                assert(!all_digits(d@));
                let dd = if s@.len() > 0 && s@[0] == '+' { s@.drop_first() } else { s@ };
                assert(dd == d@);
                assert(u8_of(s@) is None);
            }
            return None;
        }
        let digit: u32 = (c as u32) - ('0' as u32);
        proof {
            assert(d@.take(i + 1).drop_last() =~= d@.take(i as int));
            assert(d@.take(i + 1).last() == c);
        }
        let next = value * 10 + digit;
        if next > 255 {
            proof {
                if all_digits(d@) {
                    lemma_digits_value_grows(d@, i as int + 1);
                }
            }
            return None;
        }
        value = next;
        i = i + 1;
        proof {
            assert forall|j: int| 0 <= j < i implies '0' <= #[trigger] d@.take(i as int)[j] <= '9' by {
                if j < i - 1 {
                    assert(d@.take(i as int)[j] == d@.take(i - 1)[j]);
                }
            }
        }
    }
    proof {
        assert(d@.take(d@.len() as int) =~= d@);
    }
    Some(value as u8)
}

/// The value of a longer run of digits is no smaller than that of its start.
proof fn lemma_digits_value_grows(s: Seq<char>, n: int)
    requires
        0 <= n <= s.len(),
        all_digits(s),
    ensures
        digits_value(s.take(n)) <= digits_value(s),
    decreases s.len() - n,
{
    if n < s.len() {
        lemma_digits_value_grows(s, n + 1);
        assert(s.take(n + 1).drop_last() =~= s.take(n));
        assert('0' <= s[n] <= '9');
    } else {
        assert(s.take(n) =~= s);
    }
}

fn parse_key(token: &[char]) -> (r: Option<Key>)
    ensures
        r == key_of(token@),
{
    if spells(token, "-") {
        Some(Key::Char('-'))
    } else if spells(token, "space") {
        Some(Key::Char(' '))
    } else if spells(token, "tab") {
        Some(Key::Tab)
    } else if spells(token, "enter") || spells(token, "return") {
        Some(Key::Enter)
    } else if spells(token, "esc") || spells(token, "escape") {
        Some(Key::Esc)
    } else if spells(token, "backspace") {
        Some(Key::Backspace)
    } else if spells(token, "delete") || spells(token, "del") {
        Some(Key::Delete)
    } else if spells(token, "insert") || spells(token, "ins") {
        Some(Key::Insert)
    } else if spells(token, "home") {
        Some(Key::Home)
    } else if spells(token, "end") {
        Some(Key::End)
    } else if spells(token, "pageup") {
        Some(Key::PageUp)
    } else if spells(token, "pagedown") {
        Some(Key::PageDown)
    } else if spells(token, "up") {
        Some(Key::Up)
    } else if spells(token, "down") {
        Some(Key::Down)
    } else if spells(token, "left") {
        Some(Key::Left)
    } else if spells(token, "right") {
        Some(Key::Right)
    } else if token.len() == 1 {
        Some(Key::Char(token[0]))
    } else if token.len() > 0 && token[0] == 'f' {
        let rest = slice_subrange(token, 1, token.len());
        assert(rest@ =~= token@.drop_first());
        match parse_u8(rest) {
            Some(n) => Some(Key::F(n)),
            None => None,
        }
    } else {
        None
    }
}

} // verus!

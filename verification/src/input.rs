//! Key chords and the trees of chord sequences that editor modes bind to events.
use vstd::prelude::*;
use crate::text::{chars_to_string, push_nat_digits, nat_digits, push_str, str_eq};

pub mod parse;
pub mod tree;
pub mod state;
pub mod round_trip;

verus! {

/// Modifier keys held with a key, as flags
#[derive(Debug, Clone, Copy, PartialEq, Eq, Structural)]
pub struct Mods {
    pub bits: u8,
}

impl Mods {
    pub const SHIFT_BITS: u8 = 1;
    pub const CONTROL_BITS: u8 = 2;
    pub const ALT_BITS: u8 = 4;
    pub const SUPER_BITS: u8 = 8;
    pub const HYPER_BITS: u8 = 16;
    pub const META_BITS: u8 = 32;

    /// No modifier
    pub fn none() -> (r: Mods)
        ensures
            r.bits == 0,
    {
        Mods { bits: 0 }
    }

    /// The modifiers of either
    pub fn union(self, other: Mods) -> (r: Mods)
        ensures
            r == mods_union(self, other),
    {
        Mods { bits: self.bits | other.bits }
    }

    /// Whether every flag of `other` is set here
    pub fn contains(self, other: Mods) -> (r: bool)
        ensures
            r == mods_contain(self, other),
    {
        self.bits & other.bits == other.bits
    }
}

/// The modifiers of either.
pub open spec fn mods_union(a: Mods, b: Mods) -> Mods {
    Mods { bits: a.bits | b.bits }
}

/// Every flag of `b` is set in `a`.
pub open spec fn mods_contain(a: Mods, b: Mods) -> bool {
    a.bits & b.bits == b.bits
}

/// A media key
#[derive(Debug, Clone, Copy, PartialEq, Eq, Structural)]
pub enum MediaKey {
    Play,
    Pause,
    PlayPause,
    Reverse,
    Stop,
    FastForward,
    Rewind,
    TrackNext,
    TrackPrevious,
    Record,
    LowerVolume,
    RaiseVolume,
    MuteVolume,
}

/// A modifier key pressed on its own
#[derive(Debug, Clone, Copy, PartialEq, Eq, Structural)]
pub enum ModifierKey {
    LeftShift,
    LeftControl,
    LeftAlt,
    LeftSuper,
    LeftHyper,
    LeftMeta,
    RightShift,
    RightControl,
    RightAlt,
    RightSuper,
    RightHyper,
    RightMeta,
    IsoLevel3Shift,
    IsoLevel5Shift,
}

/// A key of the keyboard
#[derive(Debug, Clone, Copy, PartialEq, Eq, Structural)]
pub enum Key {
    Backspace,
    Enter,
    Left,
    Right,
    Up,
    Down,
    Home,
    End,
    PageUp,
    PageDown,
    Tab,
    BackTab,
    Delete,
    Insert,
    F(u8),
    Char(char),
    Null,
    Esc,
    CapsLock,
    ScrollLock,
    NumLock,
    PrintScreen,
    Pause,
    Menu,
    KeypadBegin,
    Media(MediaKey),
    Modifier(ModifierKey),
}

/// A key together with the modifiers held with it
#[derive(Debug, Clone, Copy, PartialEq, Eq, Structural)]
pub struct Chord {
    pub code: Key,
    pub mods: Mods,
}

/// What `char::is_uppercase` answers for `c`.
pub uninterp spec fn is_uppercase_char(c: char) -> bool;

/// The first char of `char::to_lowercase` of `c`.
pub uninterp spec fn lowercase_first(c: char) -> Option<char>;

/// `char::is_uppercase`: whether `c` has the Unicode Uppercase property.
#[verifier::external_body]
fn char_is_uppercase(c: char) -> (r: bool)
    ensures
        r == is_uppercase_char(c),
{
    c.is_uppercase()
}

/// `char::to_lowercase`, its first char: the lowercase mapping of `c` begins with it.
#[verifier::external_body]
fn char_lowercase_first(c: char) -> (r: Option<char>)
    ensures
        r == lowercase_first(c),
{
    c.to_lowercase().next()
}

/// The chord of a key and modifiers: an uppercase char is held as its
/// lowercase form with `shift` added.
pub open spec fn chord_of(code: Key, mods: Mods) -> Chord {
    match code {
        Key::Char(c) => if is_uppercase_char(c) {
            Chord {
                code: Key::Char(match lowercase_first(c) { Some(l) => l, None => c }),
                mods: mods_union(mods, Mods { bits: Mods::SHIFT_BITS }),
            }
        } else {
            Chord { code, mods }
        },
        _ => Chord { code, mods },
    }
}

/// How a media key is named by `{:?}`.
pub open spec fn media_name(m: MediaKey) -> Seq<char> {
    match m {
        MediaKey::Play => "Play"@,
        MediaKey::Pause => "Pause"@,
        MediaKey::PlayPause => "PlayPause"@,
        MediaKey::Reverse => "Reverse"@,
        MediaKey::Stop => "Stop"@,
        MediaKey::FastForward => "FastForward"@,
        MediaKey::Rewind => "Rewind"@,
        MediaKey::TrackNext => "TrackNext"@,
        MediaKey::TrackPrevious => "TrackPrevious"@,
        MediaKey::Record => "Record"@,
        MediaKey::LowerVolume => "LowerVolume"@,
        MediaKey::RaiseVolume => "RaiseVolume"@,
        MediaKey::MuteVolume => "MuteVolume"@,
    }
}

/// How a modifier key is named by `{:?}`.
pub open spec fn modifier_name(m: ModifierKey) -> Seq<char> {
    match m {
        ModifierKey::LeftShift => "LeftShift"@,
        ModifierKey::LeftControl => "LeftControl"@,
        ModifierKey::LeftAlt => "LeftAlt"@,
        ModifierKey::LeftSuper => "LeftSuper"@,
        ModifierKey::LeftHyper => "LeftHyper"@,
        ModifierKey::LeftMeta => "LeftMeta"@,
        ModifierKey::RightShift => "RightShift"@,
        ModifierKey::RightControl => "RightControl"@,
        ModifierKey::RightAlt => "RightAlt"@,
        ModifierKey::RightSuper => "RightSuper"@,
        ModifierKey::RightHyper => "RightHyper"@,
        ModifierKey::RightMeta => "RightMeta"@,
        ModifierKey::IsoLevel3Shift => "IsoLevel3Shift"@,
        ModifierKey::IsoLevel5Shift => "IsoLevel5Shift"@,
    }
}

/// How a key is written in a chord.
pub open spec fn key_text(k: Key) -> Seq<char> {
    match k {
        Key::Char(' ') => "space"@,
        Key::Char(c) => seq![c],
        Key::Tab => "tab"@,
        Key::Enter => "enter"@,
        Key::Esc => "esc"@,
        Key::Backspace => "backspace"@,
        Key::Delete => "delete"@,
        Key::Insert => "insert"@,
        Key::Home => "home"@,
        Key::End => "end"@,
        Key::PageUp => "pageup"@,
        Key::PageDown => "pagedown"@,
        Key::Up => "up"@,
        Key::Down => "down"@,
        Key::Left => "left"@,
        Key::Right => "right"@,
        Key::F(n) => "f"@ + nat_digits(n as nat),
        Key::BackTab => "BackTab"@,
        Key::Null => "Null"@,
        Key::CapsLock => "CapsLock"@,
        Key::ScrollLock => "ScrollLock"@,
        Key::NumLock => "NumLock"@,
        Key::PrintScreen => "PrintScreen"@,
        Key::Pause => "Pause"@,
        Key::Menu => "Menu"@,
        Key::KeypadBegin => "KeypadBegin"@,
        Key::Media(m) => "Media("@ + media_name(m) + ")"@,
        Key::Modifier(m) => "Modifier("@ + modifier_name(m) + ")"@,
    }
}

/// `name-` when the flag is set, else nothing.
pub open spec fn flag_text(mods: Mods, bits: u8, name: Seq<char>) -> Seq<char> {
    if mods_contain(mods, Mods { bits }) { name + "-"@ } else { Seq::empty() }
}

/// How a chord is written: its modifiers, each followed by `-`, then its key.
pub open spec fn chord_text(c: Chord) -> Seq<char> {
    flag_text(c.mods, Mods::CONTROL_BITS, "ctrl"@) + flag_text(c.mods, Mods::ALT_BITS, "alt"@)
        + flag_text(c.mods, Mods::SHIFT_BITS, "shift"@) + flag_text(c.mods, Mods::SUPER_BITS, "super"@)
        + flag_text(c.mods, Mods::META_BITS, "meta"@) + flag_text(c.mods, Mods::HYPER_BITS, "hyper"@)
        + key_text(c.code)
}

fn push_flag(out: &mut Vec<char>, mods: Mods, bits: u8, name: &str)
    ensures
        final(out)@ == old(out)@ + flag_text(mods, bits, name@),
{
    if mods.contains(Mods { bits }) {
        push_str(out, name);
        push_str(out, "-");
    }
}

fn push_media(out: &mut Vec<char>, m: MediaKey)
    ensures
        final(out)@ == old(out)@ + media_name(m),
{
    match m {
        MediaKey::Play => push_str(out, "Play"),
        MediaKey::Pause => push_str(out, "Pause"),
        MediaKey::PlayPause => push_str(out, "PlayPause"),
        MediaKey::Reverse => push_str(out, "Reverse"),
        MediaKey::Stop => push_str(out, "Stop"),
        MediaKey::FastForward => push_str(out, "FastForward"),
        MediaKey::Rewind => push_str(out, "Rewind"),
        MediaKey::TrackNext => push_str(out, "TrackNext"),
        MediaKey::TrackPrevious => push_str(out, "TrackPrevious"),
        MediaKey::Record => push_str(out, "Record"),
        MediaKey::LowerVolume => push_str(out, "LowerVolume"),
        MediaKey::RaiseVolume => push_str(out, "RaiseVolume"),
        MediaKey::MuteVolume => push_str(out, "MuteVolume"),
    }
}

fn push_modifier(out: &mut Vec<char>, m: ModifierKey)
    ensures
        final(out)@ == old(out)@ + modifier_name(m),
{
    match m {
        ModifierKey::LeftShift => push_str(out, "LeftShift"),
        ModifierKey::LeftControl => push_str(out, "LeftControl"),
        ModifierKey::LeftAlt => push_str(out, "LeftAlt"),
        ModifierKey::LeftSuper => push_str(out, "LeftSuper"),
        ModifierKey::LeftHyper => push_str(out, "LeftHyper"),
        ModifierKey::LeftMeta => push_str(out, "LeftMeta"),
        ModifierKey::RightShift => push_str(out, "RightShift"),
        ModifierKey::RightControl => push_str(out, "RightControl"),
        ModifierKey::RightAlt => push_str(out, "RightAlt"),
        ModifierKey::RightSuper => push_str(out, "RightSuper"),
        ModifierKey::RightHyper => push_str(out, "RightHyper"),
        ModifierKey::RightMeta => push_str(out, "RightMeta"),
        ModifierKey::IsoLevel3Shift => push_str(out, "IsoLevel3Shift"),
        ModifierKey::IsoLevel5Shift => push_str(out, "IsoLevel5Shift"),
    }
}

fn push_key(out: &mut Vec<char>, k: Key)
    ensures
        final(out)@ == old(out)@ + key_text(k),
{
    match k {
        Key::Char(' ') => push_str(out, "space"),
        Key::Char(c) => {
            out.push(c);
        },
        Key::Tab => push_str(out, "tab"),
        Key::Enter => push_str(out, "enter"),
        Key::Esc => push_str(out, "esc"),
        Key::Backspace => push_str(out, "backspace"),
        Key::Delete => push_str(out, "delete"),
        Key::Insert => push_str(out, "insert"),
        Key::Home => push_str(out, "home"),
        Key::End => push_str(out, "end"),
        Key::PageUp => push_str(out, "pageup"),
        Key::PageDown => push_str(out, "pagedown"),
        Key::Up => push_str(out, "up"),
        Key::Down => push_str(out, "down"),
        Key::Left => push_str(out, "left"),
        Key::Right => push_str(out, "right"),
        Key::F(n) => {
            push_str(out, "f");
            push_nat_digits(out, n as u64);
        },
        Key::BackTab => push_str(out, "BackTab"),
        Key::Null => push_str(out, "Null"),
        Key::CapsLock => push_str(out, "CapsLock"),
        Key::ScrollLock => push_str(out, "ScrollLock"),
        Key::NumLock => push_str(out, "NumLock"),
        Key::PrintScreen => push_str(out, "PrintScreen"),
        Key::Pause => push_str(out, "Pause"),
        Key::Menu => push_str(out, "Menu"),
        Key::KeypadBegin => push_str(out, "KeypadBegin"),
        Key::Media(m) => {
            push_str(out, "Media(");
            push_media(out, m);
            push_str(out, ")");
        },
        Key::Modifier(m) => {
            push_str(out, "Modifier(");
            push_modifier(out, m);
            push_str(out, ")");
        },
    }
}

impl Chord {
    /// Builds a chord, folding an uppercase `Char` into its lowercase form plus `SHIFT`
    pub fn new(code: Key, mods: Mods) -> (r: Self)
        ensures
            r == chord_of(code, mods),
    {
        match code {
            Key::Char(c) => {
                if char_is_uppercase(c) {
                    let lower = match char_lowercase_first(c) {
                        Some(l) => l,
                        None => c,
                    };
                    Chord { code: Key::Char(lower), mods: mods.union(Mods { bits: Mods::SHIFT_BITS }) }
                } else {
                    Chord { code, mods }
                }
            },
            _ => Chord { code, mods },
        }
    }

    /// How the chord is written, e.g. `ctrl-alt-d` (its `Display` form)
    pub fn describe(&self) -> (r: String)
        ensures
            r@ == chord_text(*self),
    {
        let mut out: Vec<char> = Vec::new();
        push_flag(&mut out, self.mods, Mods::CONTROL_BITS, "ctrl");
        push_flag(&mut out, self.mods, Mods::ALT_BITS, "alt");
        push_flag(&mut out, self.mods, Mods::SHIFT_BITS, "shift");
        push_flag(&mut out, self.mods, Mods::SUPER_BITS, "super");
        push_flag(&mut out, self.mods, Mods::META_BITS, "meta");
        push_flag(&mut out, self.mods, Mods::HYPER_BITS, "hyper");
        push_key(&mut out, self.code);
        assert(out@ =~= chord_text(*self));
        chars_to_string(out.as_slice())
    }
}

} // verus!

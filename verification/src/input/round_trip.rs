//! Reading back what a chord is written as gives the chord again.
use vstd::prelude::*;
use crate::input::{Chord, Key, Mods, chord_of, chord_text, key_text, flag_text, mods_contain};
use crate::input::parse::{
    chord_parse, split_chord, last_hyphen, parse_mods, add_token, modifier_flag, key_of, u8_of,
    all_digits, digits_value,
};
use crate::text::{nat_digits, digit_char};

verus! {

/// Whether no char of `s` is `-`.
pub open spec fn no_dash(s: Seq<char>) -> bool {
    forall|i: int| 0 <= i < s.len() ==> #[trigger] s[i] != '-'
}

/// The keys a chord string can name.
pub open spec fn writable_key(k: Key) -> bool {
    match k {
        Key::Char(_) | Key::F(_) | Key::Tab | Key::Enter | Key::Esc | Key::Backspace | Key::Delete
        | Key::Insert | Key::Home | Key::End | Key::PageUp | Key::PageDown | Key::Up | Key::Down
        | Key::Left | Key::Right => true,
        _ => false,
    }
}

/// A chord that `Chord::new` leaves as it is, with no flag beyond the six
/// modifiers, on a key that a chord string can name, is read back from how
/// it is written: parsing `c.describe()` gives `c`.
pub proof fn law_chord_text_parses_back(c: Chord)
    requires
        chord_of(c.code, c.mods) == c,
        c.mods.bits < 64,
        writable_key(c.code),
    ensures
        chord_text(c).len() > 0,
        chord_parse(chord_text(c)) == Ok::<Chord, (bool, Seq<char>)>(c),
{
    lemma_modifier_names();
    let m = c.mods;
    let f1 = flag_text(m, Mods::CONTROL_BITS, "ctrl"@);
    let f2 = flag_text(m, Mods::ALT_BITS, "alt"@);
    let f3 = flag_text(m, Mods::SHIFT_BITS, "shift"@);
    let f4 = flag_text(m, Mods::SUPER_BITS, "super"@);
    let f5 = flag_text(m, Mods::META_BITS, "meta"@);
    let f6 = flag_text(m, Mods::HYPER_BITS, "hyper"@);
    let p0 = Seq::<char>::empty();
    assert(p0 + f1 =~= f1);
    lemma_flag_step(p0, 0, m, Mods::CONTROL_BITS, "ctrl"@);
    let b1: u8 = if mods_contain(m, Mods { bits: Mods::CONTROL_BITS }) { 0u8 | Mods::CONTROL_BITS } else { 0u8 };
    lemma_flag_step(f1, b1, m, Mods::ALT_BITS, "alt"@);
    let b2: u8 = if mods_contain(m, Mods { bits: Mods::ALT_BITS }) { b1 | Mods::ALT_BITS } else { b1 };
    lemma_flag_step(f1 + f2, b2, m, Mods::SHIFT_BITS, "shift"@);
    let b3: u8 = if mods_contain(m, Mods { bits: Mods::SHIFT_BITS }) { b2 | Mods::SHIFT_BITS } else { b2 };
    lemma_flag_step(f1 + f2 + f3, b3, m, Mods::SUPER_BITS, "super"@);
    let b4: u8 = if mods_contain(m, Mods { bits: Mods::SUPER_BITS }) { b3 | Mods::SUPER_BITS } else { b3 };
    lemma_flag_step(f1 + f2 + f3 + f4, b4, m, Mods::META_BITS, "meta"@);
    let b5: u8 = if mods_contain(m, Mods { bits: Mods::META_BITS }) { b4 | Mods::META_BITS } else { b4 };
    lemma_flag_step(f1 + f2 + f3 + f4 + f5, b5, m, Mods::HYPER_BITS, "hyper"@);
    let b6: u8 = if mods_contain(m, Mods { bits: Mods::HYPER_BITS }) { b5 | Mods::HYPER_BITS } else { b5 };
    let mt = f1 + f2 + f3 + f4 + f5 + f6;
    assert(mods_inv(mt, b6));
    let x = m.bits;
    assert(b6 == x) by (bit_vector)
        requires
            x < 64,
            b1 == (if x & 2 == 2 { 0u8 | 2 } else { 0u8 }),
            b2 == (if x & 4 == 4 { b1 | 4 } else { b1 }),
            b3 == (if x & 1 == 1 { b2 | 1 } else { b2 }),
            b4 == (if x & 8 == 8 { b3 | 8 } else { b3 }),
            b5 == (if x & 32 == 32 { b4 | 32 } else { b4 }),
            b6 == (if x & 16 == 16 { b5 | 16 } else { b5 }),
    ;
    let k = key_text(c.code);
    lemma_key_text(c.code);
    let s = chord_text(c);
    assert(s == mt + k);
    lemma_split(mt, k, b6);
    assert(Mods { bits: b6 } == m);
}

/// The names `describe` writes the modifiers with hold no `-` and read back as their flags.
proof fn lemma_modifier_names()
    ensures
        "ctrl"@.len() > 0 && no_dash("ctrl"@) && modifier_flag("ctrl"@) == Some(Mods::CONTROL_BITS),
        "alt"@.len() > 0 && no_dash("alt"@) && modifier_flag("alt"@) == Some(Mods::ALT_BITS),
        "shift"@.len() > 0 && no_dash("shift"@) && modifier_flag("shift"@) == Some(Mods::SHIFT_BITS),
        "super"@.len() > 0 && no_dash("super"@) && modifier_flag("super"@) == Some(Mods::SUPER_BITS),
        "meta"@.len() > 0 && no_dash("meta"@) && modifier_flag("meta"@) == Some(Mods::META_BITS),
        "hyper"@.len() > 0 && no_dash("hyper"@) && modifier_flag("hyper"@) == Some(Mods::HYPER_BITS),
{
    reveal_strlit("ctrl");
    reveal_strlit("control");
    reveal_strlit("alt");
    reveal_strlit("opt");
    reveal_strlit("option");
    reveal_strlit("shift");
    reveal_strlit("super");
    reveal_strlit("cmd");
    reveal_strlit("win");
    reveal_strlit("meta");
    reveal_strlit("hyper");
    assert(modifier_flag("alt"@) == Some(Mods::ALT_BITS)) by {
        assert("alt"@.len() == 3 && "ctrl"@.len() == 4 && "control"@.len() == 7);
    }
    assert(modifier_flag("shift"@) == Some(Mods::SHIFT_BITS)) by {
        assert("shift"@.len() == 5 && "ctrl"@.len() == 4 && "control"@.len() == 7);
        assert("alt"@.len() == 3 && "opt"@.len() == 3 && "option"@.len() == 6);
    }
    assert(modifier_flag("super"@) == Some(Mods::SUPER_BITS)) by {
        assert("super"@.len() == 5 && "ctrl"@.len() == 4 && "control"@.len() == 7);
        assert("alt"@.len() == 3 && "opt"@.len() == 3 && "option"@.len() == 6);
        assert("super"@[1] != "shift"@[1]);
    }
    assert(modifier_flag("meta"@) == Some(Mods::META_BITS)) by {
        assert("meta"@.len() == 4 && "control"@.len() == 7);
        assert("meta"@[0] != "ctrl"@[0]);
        assert("alt"@.len() == 3 && "opt"@.len() == 3 && "option"@.len() == 6);
        assert("shift"@.len() == 5 && "super"@.len() == 5 && "cmd"@.len() == 3 && "win"@.len() == 3);
    }
    assert(modifier_flag("hyper"@) == Some(Mods::HYPER_BITS)) by {
        assert("hyper"@.len() == 5 && "ctrl"@.len() == 4 && "control"@.len() == 7);
        assert("alt"@.len() == 3 && "opt"@.len() == 3 && "option"@.len() == 6);
        assert("hyper"@[0] != "shift"@[0] && "hyper"@[0] != "super"@[0]);
        assert("cmd"@.len() == 3 && "win"@.len() == 3 && "meta"@.len() == 4);
    }
}

/// What the modifiers written so far read back as: nothing at all, or names
/// each followed by `-`, whose list without the last `-` parses to `b`.
pub open spec fn mods_inv(p: Seq<char>, b: u8) -> bool {
    ||| p.len() == 0 && b == 0
    ||| p.len() > 0 && p.last() == '-' && parse_mods(p, p.len() - 1) == Ok::<u8, Seq<char>>(b)
}

/// `last_hyphen` looks past chars that are not `-`.
proof fn lemma_last_hyphen_skip(s: Seq<char>, lo: int, n: int)
    requires
        0 <= lo <= n <= s.len(),
        forall|j: int| lo <= j < n ==> #[trigger] s[j] != '-',
    ensures
        last_hyphen(s, n) == last_hyphen(s, lo),
    decreases n - lo,
{
    if n > lo {
        lemma_last_hyphen_skip(s, lo, n - 1);
    }
}

/// `last_hyphen` reads only the chars before `n`.
proof fn lemma_last_hyphen_prefix(s: Seq<char>, t: Seq<char>, n: int)
    requires
        0 <= n <= s.len(),
        n <= t.len(),
        s.subrange(0, n) == t.subrange(0, n),
    ensures
        last_hyphen(s, n) == last_hyphen(t, n),
    decreases n,
{
    if n > 0 {
        assert(s[n - 1] == s.subrange(0, n)[n - 1]);
        assert(t[n - 1] == t.subrange(0, n)[n - 1]);
        assert(s.subrange(0, n - 1) =~= s.subrange(0, n).subrange(0, n - 1));
        assert(t.subrange(0, n - 1) =~= t.subrange(0, n).subrange(0, n - 1));
        lemma_last_hyphen_prefix(s, t, n - 1);
    }
}

/// `parse_mods` reads only the chars before `n`.
proof fn lemma_parse_mods_prefix(s: Seq<char>, t: Seq<char>, n: int)
    requires
        0 <= n <= s.len(),
        n <= t.len(),
        s.subrange(0, n) == t.subrange(0, n),
    ensures
        parse_mods(s, n) == parse_mods(t, n),
    decreases n,
{
    if n > 0 {
        lemma_last_hyphen_prefix(s, t, n);
        crate::input::parse::lemma_last_hyphen(s, n);
        match last_hyphen(s, n) {
            Some(i) => {
                assert(s.subrange(0, i) =~= s.subrange(0, n).subrange(0, i));
                assert(t.subrange(0, i) =~= t.subrange(0, n).subrange(0, i));
                lemma_parse_mods_prefix(s, t, i);
                assert(s.subrange(i + 1, n) =~= s.subrange(0, n).subrange(i + 1, n));
                assert(t.subrange(i + 1, n) =~= t.subrange(0, n).subrange(i + 1, n));
            },
            None => {},
        }
    }
}

/// Writing one more modifier name and `-` reads back with its flag added.
proof fn lemma_mods_step(p: Seq<char>, name: Seq<char>, b: u8, f: u8)
    requires
        mods_inv(p, b),
        name.len() > 0,
        no_dash(name),
        modifier_flag(name) == Some(f),
    ensures
        mods_inv(p + name + seq!['-'], b | f),
{
    let q = p + name + seq!['-'];
    let n = q.len() - 1;
    assert(n == p.len() + name.len());
    assert forall|j: int| p.len() <= j < n implies #[trigger] q[j] != '-' by {
        assert(q[j] == name[j - p.len()]);
    }
    lemma_last_hyphen_skip(q, p.len() as int, n);
    assert(q.subrange(n - name.len(), n) =~= name);
    if p.len() == 0 {
        assert(last_hyphen(q, 0) is None);
        assert(q.subrange(0, n) =~= name);
        assert(parse_mods(q, n) == add_token(0, name));
        assert(b == 0);
        assert(0u8 | f == f) by (bit_vector);
    } else {
        let i = p.len() - 1;
        assert(q[i] == p.last());
        assert(last_hyphen(q, p.len() as int) == Some(i));
        assert(q.subrange(0, i) =~= p.subrange(0, i));
        lemma_parse_mods_prefix(q, p, i);
        crate::input::parse::lemma_last_hyphen(q, n);
        assert(q.subrange(i + 1, n) =~= name);
        assert(parse_mods(q, n) == add_token(b, name));
    }
    assert(q.last() == '-');
}

/// Writing a flag's name, when the flag is set, reads back with the flag added.
proof fn lemma_flag_step(p: Seq<char>, b: u8, m: Mods, bits: u8, name: Seq<char>)
    requires
        mods_inv(p, b),
        name.len() > 0,
        no_dash(name),
        modifier_flag(name) == Some(bits),
    ensures
        mods_inv(p + flag_text(m, bits, name), if mods_contain(m, Mods { bits }) { b | bits } else { b }),
{
    reveal_strlit("-");
    if mods_contain(m, Mods { bits }) {
        assert(flag_text(m, bits, name) == name + "-"@);
        assert(p + (name + "-"@) =~= p + name + seq!['-']);
        lemma_mods_step(p, name, b, bits);
    } else {
        assert(p + flag_text(m, bits, name) =~= p);
    }
}

/// How a key is written is not empty, holds no `-` unless it is the key `-`,
/// and reads back as the key.
proof fn lemma_key_text(k: Key)
    requires
        writable_key(k),
    ensures
        key_text(k).len() > 0,
        k != Key::Char('-') ==> no_dash(key_text(k)),
        k == Key::Char('-') ==> key_text(k) == seq!['-'],
        key_of(key_text(k)) == Some(k),
{
    reveal_strlit("-");
    reveal_strlit("space");
    reveal_strlit("tab");
    reveal_strlit("enter");
    reveal_strlit("return");
    reveal_strlit("esc");
    reveal_strlit("escape");
    reveal_strlit("backspace");
    reveal_strlit("delete");
    reveal_strlit("del");
    reveal_strlit("insert");
    reveal_strlit("ins");
    reveal_strlit("home");
    reveal_strlit("end");
    reveal_strlit("pageup");
    reveal_strlit("pagedown");
    reveal_strlit("up");
    reveal_strlit("down");
    reveal_strlit("left");
    reveal_strlit("right");
    reveal_strlit("f");
    match k {
        Key::F(n) => {
            let d = nat_digits(n as nat);
            lemma_nat_digits(n as nat);
            let t = key_text(k);
            assert(t == "f"@ + d);
            assert(t[0] == 'f');
            assert(t.drop_first() =~= d);
            assert(no_dash(t)) by {
                assert forall|i: int| 0 <= i < t.len() implies #[trigger] t[i] != '-' by {
                    if i > 0 {
                        assert(t[i] == d[i - 1]);
                    }
                }
            }
            assert(u8_of(d) == Some(n));
            assert(t.len() > 1);
            assert(t[0] != "space"@[0] && t[0] != "tab"@[0] && t[0] != "enter"@[0] && t[0] != "return"@[0]);
            assert(t[0] != "esc"@[0] && t[0] != "escape"@[0] && t[0] != "backspace"@[0] && t[0] != "delete"@[0]);
            assert(t[0] != "del"@[0] && t[0] != "insert"@[0] && t[0] != "ins"@[0] && t[0] != "home"@[0]);
            assert(t[0] != "end"@[0] && t[0] != "pageup"@[0] && t[0] != "pagedown"@[0] && t[0] != "up"@[0]);
            assert(t[0] != "down"@[0] && t[0] != "left"@[0] && t[0] != "right"@[0] && t[0] != "-"@[0]);
        },
        _ => {},
    }
}

/// The decimal digits of `n` are digits, at least one, whose value is `n`.
proof fn lemma_nat_digits(n: nat)
    ensures
        nat_digits(n).len() > 0,
        all_digits(nat_digits(n)),
        digits_value(nat_digits(n)) == n,
        nat_digits(n)[0] != '+',
        nat_digits(n)[0] != '-',
    decreases n,
{
    if n < 10 {
        lemma_digit_char(n as int);
        let s = nat_digits(n);
        assert(s.drop_last() =~= Seq::<char>::empty());
        assert(digits_value(s.drop_last()) == 0);
        assert(s.last() == digit_char(n as int));
        assert(digits_value(s) == digits_value(s.drop_last()) * 10 + ((s.last() as u32) - ('0' as u32)) as nat);
    } else {
        lemma_nat_digits(n / 10);
        lemma_digit_char((n % 10) as int);
        let s = nat_digits(n);
        let h = nat_digits(n / 10);
        assert(s.drop_last() =~= h);
        assert(s.last() == digit_char((n % 10) as int));
        assert(digits_value(s) == digits_value(h) * 10 + ((s.last() as u32) - ('0' as u32)) as nat);
        assert(n == (n / 10) * 10 + n % 10);
        assert(s[0] == h[0]);
        assert forall|i: int| 0 <= i < s.len() implies '0' <= #[trigger] s[i] <= '9' by {
            if i < h.len() {
                assert(s[i] == h[i]);
            }
        }
    }
}

/// A digit's char is a digit, and reads back as the digit.
proof fn lemma_digit_char(d: int)
    requires
        0 <= d < 10,
    ensures
        '0' <= digit_char(d) <= '9',
        ((digit_char(d) as u32) - ('0' as u32)) as nat == d,
{
    assert(('0' as u32) == 48);
    assert((((d + 48) as u8) as char) as u32 == d + 48);
}

/// How the modifiers and the key are split apart again.
proof fn lemma_split(mt: Seq<char>, k: Seq<char>, b: u8)
    requires
        mods_inv(mt, b),
        k.len() > 0,
        no_dash(k) || k == seq!['-'],
    ensures
        parse_mods(split_chord(mt + k).0, split_chord(mt + k).0.len() as int) == Ok::<u8, Seq<char>>(b),
        split_chord(mt + k).1 == k,
{
    let s = mt + k;
    if k == seq!['-'] {
        if mt.len() == 0 {
            assert(s =~= seq!['-']);
            assert(split_chord(s).0.len() == 0);
        } else {
            assert(s[s.len() - 1] == '-');
            assert(s[s.len() - 2] == mt.last());
            assert(s != seq!['-']);
            let m0 = s.subrange(0, s.len() - 2);
            assert(m0 =~= mt.subrange(0, mt.len() - 1));
            assert(m0.subrange(0, m0.len() as int) =~= mt.subrange(0, m0.len() as int));
            lemma_parse_mods_prefix(m0, mt, m0.len() as int);
            assert(s.subrange(s.len() - 1, s.len() as int) =~= seq!['-']);
        }
    } else {
        assert(s.last() == k.last());
        assert(s.last() != '-');
        assert(s != seq!['-']);
        assert forall|j: int| mt.len() <= j < s.len() implies #[trigger] s[j] != '-' by {
            assert(s[j] == k[j - mt.len()]);
        }
        lemma_last_hyphen_skip(s, mt.len() as int, s.len() as int);
        if mt.len() == 0 {
            assert(last_hyphen(s, 0) is None);
            assert(s =~= k);
            assert(split_chord(s).0.len() == 0);
        } else {
            let i = mt.len() - 1;
            assert(s[i] == mt.last());
            assert(last_hyphen(s, mt.len() as int) == Some(i));
            let m0 = s.subrange(0, i);
            assert(m0 =~= mt.subrange(0, i));
            assert(m0.subrange(0, i) =~= mt.subrange(0, i));
            lemma_parse_mods_prefix(m0, mt, i);
            assert(s.subrange(i + 1, s.len() as int) =~= k);
        }
    }
}

} // verus!

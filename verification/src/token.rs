//! The tokens the lexer produces.
use vstd::prelude::*;
use crate::text::{str_eq, chars_to_string, i32_to_chars, int_text, escape_default_chars, escaped_text, push_all, str_to_chars};

verus! {

/// The generic token type that's returned out of the lexer.
///
/// A float literal is held as the text it was written with (digits and one
/// `.`); that text stands for the `f32` it denotes.
#[derive(Clone, Debug)]
pub enum Token {
    Int(i32),
    Float(String),
    Str(String),
    Bool(bool),

    Ident(String),

    Let,
    For,
    In,
    If,
    Else,

    Return,
    Break,

    Fn,

    Ctrl(char),
    Op(String),
}

/// A token with its strings taken as char sequences.
pub enum TokenView {
    Int(i32),
    Float(Seq<char>),
    Str(Seq<char>),
    Bool(bool),
    Ident(Seq<char>),
    Let,
    For,
    In,
    If,
    Else,
    Return,
    Break,
    Fn,
    Ctrl(char),
    Op(Seq<char>),
}

impl View for Token {
    type V = TokenView;

    open spec fn view(&self) -> TokenView {
        match self {
            Token::Int(n) => TokenView::Int(*n),
            Token::Float(s) => TokenView::Float(s@),
            Token::Str(s) => TokenView::Str(s@),
            Token::Bool(b) => TokenView::Bool(*b),
            Token::Ident(s) => TokenView::Ident(s@),
            Token::Let => TokenView::Let,
            Token::For => TokenView::For,
            Token::In => TokenView::In,
            Token::If => TokenView::If,
            Token::Else => TokenView::Else,
            Token::Return => TokenView::Return,
            Token::Break => TokenView::Break,
            Token::Fn => TokenView::Fn,
            Token::Ctrl(c) => TokenView::Ctrl(*c),
            Token::Op(s) => TokenView::Op(s@),
        }
    }
}

impl PartialEq for Token {
    fn eq(&self, other: &Self) -> (r: bool) {
        match (self, other) {
            (Token::Int(a), Token::Int(b)) => *a == *b,
            (Token::Float(a), Token::Float(b)) => str_eq(a.as_str(), b.as_str()),
            (Token::Str(a), Token::Str(b)) => str_eq(a.as_str(), b.as_str()),
            (Token::Bool(a), Token::Bool(b)) => *a == *b,
            (Token::Ident(a), Token::Ident(b)) => str_eq(a.as_str(), b.as_str()),
            (Token::Let, Token::Let) => true,
            (Token::For, Token::For) => true,
            (Token::In, Token::In) => true,
            (Token::If, Token::If) => true,
            (Token::Else, Token::Else) => true,
            (Token::Return, Token::Return) => true,
            (Token::Break, Token::Break) => true,
            (Token::Fn, Token::Fn) => true,
            (Token::Ctrl(a), Token::Ctrl(b)) => *a == *b,
            (Token::Op(a), Token::Op(b)) => str_eq(a.as_str(), b.as_str()),
            _ => false,
        }
    }
}

impl vstd::std_specs::cmp::PartialEqSpecImpl for Token {
    open spec fn obeys_eq_spec() -> bool {
        true
    }

    open spec fn eq_spec(&self, other: &Token) -> bool {
        self@ == other@
    }
}

/// How a token is shown in messages, e.g. ``<int>`2` `` or ``<ctrl>`;` ``.
pub open spec fn token_text(t: TokenView) -> Seq<char> {
    match t {
        TokenView::Int(n) => seq!['<', 'i', 'n', 't', '>', '`'] + int_text(n as int) + seq!['`'],
        TokenView::Float(s) => seq!['<', 'f', 'l', 'o', 'a', 't', '>', '`'] + s + seq!['`'],
        TokenView::Str(s) => seq!['<', 's', 't', 'r', '>', '`'] + escaped_text(s) + seq!['`'],
        TokenView::Bool(b) => seq!['<', 'b', 'o', 'o', 'l', '>', '`'] + (if b {
            seq!['t', 'r', 'u', 'e']
        } else {
            seq!['f', 'a', 'l', 's', 'e']
        }) + seq!['`'],
        TokenView::Ident(s) => seq!['<', 'i', 'd', 'e', 'n', 't', '>', '`'] + s + seq!['`'],
        TokenView::Let => seq!['<', 'l', 'e', 't', '>'],
        TokenView::For => seq!['<', 'f', 'o', 'r', '>'],
        TokenView::In => seq!['<', 'i', 'n', '>'],
        TokenView::If => seq!['<', 'i', 'f', '>'],
        TokenView::Else => seq!['<', 'e', 'l', 's', 'e', '>'],
        TokenView::Return => seq!['<', 'r', 'e', 't', 'u', 'r', 'n', '>'],
        TokenView::Break => seq!['<', 'b', 'r', 'e', 'a', 'k', '>'],
        TokenView::Fn => seq!['<', 'f', 'n', '>'],
        TokenView::Ctrl(c) => seq!['<', 'c', 't', 'r', 'l', '>', '`', c, '`'],
        TokenView::Op(s) => seq!['<', 'o', 'p', '>', '`'] + s + seq!['`'],
    }
}

fn push_tag(out: &mut Vec<char>, tag: &str)
    ensures
        final(out)@ == old(out)@ + seq!['<'] + tag@ + seq!['>'],
{
    out.push('<');
    let t = str_to_chars(tag);
    push_all(out, t.as_slice());
    out.push('>');
}

impl Token {
    /// The token as it is shown in messages (its `Display` form)
    pub fn describe(&self) -> (r: String)
        ensures
            r@ == token_text(self@),
    {
        let mut out: Vec<char> = Vec::new();
        match self {
            Token::Int(n) => {
                push_tag(&mut out, "int");
                out.push('`');
                let d = i32_to_chars(*n);
                push_all(&mut out, d.as_slice());
                out.push('`');
            },
            Token::Float(s) => {
                push_tag(&mut out, "float");
                out.push('`');
                let d = str_to_chars(s.as_str());
                push_all(&mut out, d.as_slice());
                out.push('`');
            },
            Token::Str(s) => {
                push_tag(&mut out, "str");
                out.push('`');
                let d = escape_default_chars(s.as_str());
                push_all(&mut out, d.as_slice());
                out.push('`');
            },
            Token::Bool(b) => {
                push_tag(&mut out, "bool");
                out.push('`');
                if *b {
                    let d = str_to_chars("true");
                    push_all(&mut out, d.as_slice());
                } else {
                    let d = str_to_chars("false");
                    push_all(&mut out, d.as_slice());
                }
                out.push('`');
            },
            Token::Ident(s) => {
                push_tag(&mut out, "ident");
                out.push('`');
                let d = str_to_chars(s.as_str());
                push_all(&mut out, d.as_slice());
                out.push('`');
            },
            Token::Let => push_tag(&mut out, "let"),
            Token::For => push_tag(&mut out, "for"),
            Token::In => push_tag(&mut out, "in"),
            Token::If => push_tag(&mut out, "if"),
            Token::Else => push_tag(&mut out, "else"),
            Token::Return => push_tag(&mut out, "return"),
            Token::Break => push_tag(&mut out, "break"),
            Token::Fn => push_tag(&mut out, "fn"),
            Token::Ctrl(c) => {
                push_tag(&mut out, "ctrl");
                out.push('`');
                out.push(*c);
                out.push('`');
            },
            Token::Op(s) => {
                push_tag(&mut out, "op");
                out.push('`');
                let d = str_to_chars(s.as_str());
                push_all(&mut out, d.as_slice());
                out.push('`');
            },
        }
        proof {
            reveal_strlit("int");
            reveal_strlit("float");
            reveal_strlit("str");
            reveal_strlit("bool");
            reveal_strlit("true");
            reveal_strlit("false");
            reveal_strlit("ident");
            reveal_strlit("let");
            reveal_strlit("for");
            reveal_strlit("in");
            reveal_strlit("if");
            reveal_strlit("else");
            reveal_strlit("return");
            reveal_strlit("break");
            reveal_strlit("fn");
            reveal_strlit("ctrl");
            reveal_strlit("op");
            assert(out@ =~= token_text(self@));
        }
        chars_to_string(out.as_slice())
    }
}

} // verus!

//! How each token of a line is shown.
use vstd::prelude::*;
use crate::lex::{lex_from, LexOutcome, Lexer};
use crate::op_registry::OpRegistry;
use crate::spanned::Spanned;
use crate::token::{Token, TokenView};

verus! {

/// The kind of a token, for colouring it
#[derive(Debug, Clone, Copy, PartialEq, Eq, Structural)]
pub enum HighlightKind {
    Keyword,
    Ident,
    Number,
    StringLit,
    Bool,
    Operator,
    Punct,
}

/// The kind a token is shown as.
pub open spec fn highlight_of(t: TokenView) -> HighlightKind {
    match t {
        TokenView::Int(_) | TokenView::Float(_) => HighlightKind::Number,
        TokenView::Str(_) => HighlightKind::StringLit,
        TokenView::Bool(_) => HighlightKind::Bool,
        TokenView::Ident(_) => HighlightKind::Ident,
        TokenView::Let | TokenView::For | TokenView::In | TokenView::If | TokenView::Else
            | TokenView::Return | TokenView::Break | TokenView::Fn => HighlightKind::Keyword,
        TokenView::Ctrl(_) => HighlightKind::Punct,
        TokenView::Op(_) => HighlightKind::Operator,
    }
}

/// Numbers, integer or float, and only they, are shown as numbers; each
/// other kind of token has its own colour.
pub proof fn law_highlight_kinds(t: TokenView)
    ensures
        (highlight_of(t) == HighlightKind::Number) <==> (t is Int || t is Float),
        (highlight_of(t) == HighlightKind::StringLit) <==> t is Str,
        (highlight_of(t) == HighlightKind::Bool) <==> t is Bool,
        (highlight_of(t) == HighlightKind::Ident) <==> t is Ident,
        (highlight_of(t) == HighlightKind::Punct) <==> t is Ctrl,
        (highlight_of(t) == HighlightKind::Operator) <==> t is Op,
        (highlight_of(t) == HighlightKind::Keyword) <==> (t is Let || t is For || t is In || t is If || t is Else
            || t is Return || t is Break || t is Fn),
{
}

fn kind_of(tok: &Token) -> (r: HighlightKind)
    ensures
        r == highlight_of(tok@),
{
    match tok {
        Token::Int(_) | Token::Float(_) => HighlightKind::Number,
        Token::Str(_) => HighlightKind::StringLit,
        Token::Bool(_) => HighlightKind::Bool,

        Token::Ident(_) => HighlightKind::Ident,

        Token::Let
        | Token::For
        | Token::In
        | Token::If
        | Token::Else
        | Token::Return
        | Token::Break
        | Token::Fn => HighlightKind::Keyword,

        Token::Ctrl(_) => HighlightKind::Punct,
        Token::Op(_) => HighlightKind::Operator,
    }
}

/// The kind of every token of `source`, at the token's span; nothing when
/// `source` does not lex
pub fn classify_tokens(source: &str, ops: &OpRegistry) -> (r: Vec<Spanned<HighlightKind>>)
    requires
        lex_from(source@, *ops, 0) !is Overflow,
    ensures
        match lex_from(source@, *ops, 0) {
            LexOutcome::Tokens(ts) => {
                &&& r@.len() == ts.len()
                &&& forall|i: int| 0 <= i < ts.len() ==> {
                    &&& (#[trigger] r@[i]).start == ts[i].0
                    &&& r@[i].end == ts[i].1
                    &&& r@[i].value == highlight_of(ts[i].2)
                }
            },
            _ => r@.len() == 0,
        },
{
    let tokens = match Lexer::lex(source, ops) {
        Ok(tokens) => tokens,
        Err(_) => {
            return Vec::new();
        },
    };

    let mut out: Vec<Spanned<HighlightKind>> = Vec::new();
    let mut i: usize = 0;
    while i < tokens.len()
        invariant
            i <= tokens@.len(),
            out@.len() == i,
            forall|j: int| 0 <= j < i ==> {
                &&& (#[trigger] out@[j]).start == tokens@[j].start
                &&& out@[j].end == tokens@[j].end
                &&& out@[j].value == highlight_of(tokens@[j].value@)
            },
        decreases tokens.len() - i,
    {
        let tok = &tokens[i];
        out.push(Spanned::new(tok.start, tok.end, kind_of(&tok.value)));
        i = i + 1;
    }
    out
}

} // verus!

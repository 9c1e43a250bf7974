//! What the parser computes, stated over the token it stands on and the
//! positions it has saved.
//!
//! Each function here takes the tokens, the operators and the parser's
//! position, and gives the position it ends on with what it produced: a
//! tree, or the error it stopped at, spanned as the parser spans it (from
//! the last saved position, or over the token it stands on). A function
//! that would recurse from a position before the one it started at stops
//! with [`stuck`] instead; the parser never does so.
use vstd::prelude::*;
use crate::error::ErrorView;
use crate::expr::{ErrView, ExprView, NameView, SExprView};
use crate::op_registry::OpRegistry;
use crate::spanned::Spanned;
use crate::token::{Token, TokenView, token_text};
use crate::value::Value;

verus! {

/// Where the parser stands: the token it is on, and the positions it saved
pub struct PState {
    pub cursor: int,
    pub cps: Seq<usize>,
}

/// What a step of parsing ends with: the position, and a result or an error
pub type Outcome<T> = (PState, Result<T, ErrView>);

/// The error a step would stop with where it would not go forward
pub open spec fn stuck() -> ErrView {
    ErrView { start: 0, end: 0, err: ErrorView::External(Seq::empty()) }
}

/// The token the parser stands on
pub open spec fn tok_at(ts: Seq<Spanned<Token>>, s: PState) -> TokenView {
    ts[s.cursor].value@
}

/// The parser moved to `c`
pub open spec fn moved(s: PState, c: int) -> PState {
    PState { cursor: c, cps: s.cps }
}

/// The parser moved one token on
pub open spec fn forward(s: PState) -> PState {
    moved(s, s.cursor + 1)
}

/// The parser with its position saved
pub open spec fn saved(s: PState) -> PState {
    PState { cursor: s.cursor, cps: s.cps.push(s.cursor as usize) }
}

/// The parser with its last saved position dropped
pub open spec fn dropped(s: PState) -> PState {
    PState { cursor: s.cursor, cps: if s.cps.len() > 0 { s.cps.drop_last() } else { s.cps } }
}

/// Where spans made from the saved position start: at that position, or
/// at the token the parser stands on where none is saved
pub open spec fn saved_start(ts: Seq<Spanned<Token>>, s: PState) -> usize {
    ts[if s.cps.len() > 0 { s.cps.last() as int } else { s.cursor }].start
}

/// An error spanning from the saved position to the token the parser stands on
pub open spec fn err_at_saved(ts: Seq<Spanned<Token>>, s: PState, e: ErrorView) -> ErrView {
    ErrView { start: saved_start(ts, s), end: ts[s.cursor].end, err: e }
}

/// An error spanning the token the parser stands on
pub open spec fn err_at_token(ts: Seq<Spanned<Token>>, s: PState, e: ErrorView) -> ErrView {
    ErrView { start: ts[s.cursor].start, end: ts[s.cursor].end, err: e }
}

/// A tree spanning from the saved position to the token the parser stands on
pub open spec fn tree_at_saved(ts: Seq<Spanned<Token>>, s: PState, e: ExprView) -> SExprView {
    SExprView { start: saved_start(ts, s), end: ts[s.cursor].end, expr: e }
}

/// A tree spanning the token the parser stands on
pub open spec fn tree_at_token(ts: Seq<Spanned<Token>>, s: PState, e: ExprView) -> SExprView {
    SExprView { start: ts[s.cursor].start, end: ts[s.cursor].end, expr: e }
}

/// The error for `wanted` where the parser stands on something else
pub open spec fn wanted_here(ts: Seq<Spanned<Token>>, s: PState, wanted: Seq<char>) -> ErrView {
    err_at_saved(ts, s, ErrorView::Expected(wanted, token_text(tok_at(ts, s))))
}

/// Whether a statement ends in a block, after which `;` may be left out
pub open spec fn ends_in_block_view(e: ExprView) -> bool {
    e is If || e is For || e is Block
}

/// Stepping onto the next token, which must exist
pub open spec fn expect_advance_step(ts: Seq<Spanned<Token>>, s: PState, label: Seq<char>) -> Outcome<()> {
    if s.cursor + 1 >= ts.len() {
        (s, Err(err_at_saved(ts, s, ErrorView::ExpectedFoundEOF(label))))
    } else {
        (forward(s), Ok(()))
    }
}

/// Stepping over the token `t`, which must come next, onto the one after it
pub open spec fn skip_step(ts: Seq<Spanned<Token>>, s: PState, t: TokenView, after: Seq<char>) -> Outcome<()> {
    let (s1, r1) = expect_advance_step(ts, s, token_text(t));
    if r1 is Err {
        (s1, r1)
    } else if tok_at(ts, s1) != t {
        (s1, Err(wanted_here(ts, s1, token_text(t))))
    } else {
        expect_advance_step(ts, s1, after)
    }
}

/// Opening a bracketed construct: saves the position, which stays saved,
/// checks for `t` and steps past it
pub open spec fn open_step(ts: Seq<Spanned<Token>>, s: PState, t: TokenView, label: Seq<char>) -> Outcome<()> {
    let s1 = saved(s);
    if tok_at(ts, s1) != t {
        (s1, Err(wanted_here(ts, s1, token_text(t))))
    } else if s1.cursor + 1 >= ts.len() {
        (s1, Err(err_at_saved(ts, s1, ErrorView::ExpectedFoundEOF(label))))
    } else {
        (forward(s1), Ok(()))
    }
}

/// Closing a bracketed construct: steps onto `t`, which must come next
pub open spec fn close_step(ts: Seq<Spanned<Token>>, s: PState, t: TokenView) -> Outcome<()> {
    if s.cursor + 1 >= ts.len() {
        (s, Err(err_at_saved(ts, s, ErrorView::ExpectedFoundEOF(token_text(t)))))
    } else if tok_at(ts, forward(s)) != t {
        (forward(s), Err(wanted_here(ts, forward(s), token_text(t))))
    } else {
        (forward(s), Ok(()))
    }
}

/// Moving on to the last token before the next `;` (or the last token)
pub open spec fn skip_semi(ts: Seq<Spanned<Token>>, s: PState) -> PState
    decreases ts.len() - s.cursor,
{
    if s.cursor + 1 >= ts.len() || ts[s.cursor + 1].value@ == TokenView::Ctrl(';') {
        s
    } else {
        skip_semi(ts, forward(s))
    }
}

/// A name on the token the parser stands on
pub open spec fn ident_step(ts: Seq<Spanned<Token>>, s: PState) -> Result<NameView, ErrView> {
    match tok_at(ts, s) {
        TokenView::Ident(t) => Ok(NameView { start: ts[s.cursor].start, end: ts[s.cursor].end, name: t }),
        _ => Err(wanted_here(ts, s, "ident"@)),
    }
}

/// The further `,`-separated names of a parameter list
pub open spec fn args_loop(ts: Seq<Spanned<Token>>, s: PState, out: Seq<NameView>) -> Outcome<Seq<NameView>>
    decreases ts.len() - s.cursor,
{
    if s.cursor + 1 >= ts.len() {
        (s, Ok(out))
    } else if tok_at(ts, forward(s)) != TokenView::Ctrl(',') {
        (s, Ok(out))
    } else if s.cursor + 2 >= ts.len() {
        (forward(s), Ok(out))
    } else if tok_at(ts, moved(s, s.cursor + 2)) == TokenView::Ctrl(')') {
        (forward(s), Ok(out))
    } else {
        let s2 = moved(s, s.cursor + 2);
        match ident_step(ts, s2) {
            Ok(n) => args_loop(ts, s2, out.push(n)),
            Err(e) => (s2, Err(e)),
        }
    }
}

/// The names of a function's parameters, in round brackets
pub open spec fn fn_args_step(ts: Seq<Spanned<Token>>, s: PState) -> Outcome<Seq<NameView>> {
    let (s1, r1) = open_step(ts, s, TokenView::Ctrl('('), "argument"@);
    if r1 is Err {
        (s1, Err(r1->Err_0))
    } else {
        let (s2, r2) = if tok_at(ts, s1) == TokenView::Ctrl(')') {
            (moved(s1, s1.cursor - 1), Ok(Seq::<NameView>::empty()))
        } else {
            match ident_step(ts, s1) {
                Ok(n) => args_loop(ts, s1, seq![n]),
                Err(e) => (s1, Err(e)),
            }
        };
        match r2 {
            Err(e) => (s2, Err(e)),
            Ok(args) => {
                let (s3, r3) = close_step(ts, s2, TokenView::Ctrl(')'));
                match r3 {
                    Err(e) => (s3, Err(e)),
                    Ok(_) => (s3, Ok(args)),
                }
            },
        }
    }
}

/// Statements joined left to right: each next one after all before it
pub open spec fn fold_left(items: Seq<SExprView>) -> SExprView
    decreases items.len(),
{
    if items.len() <= 1 {
        items[0]
    } else {
        let a = fold_left(items.drop_last());
        let b = items.last();
        SExprView { start: a.start, end: b.end, expr: ExprView::Then { first: Box::new(a), next: Box::new(b) } }
    }
}

/// Statements joined right to left: each one before all after it
pub open spec fn fold_right(items: Seq<SExprView>) -> SExprView
    decreases items.len(),
{
    if items.len() <= 1 {
        items[0]
    } else {
        let a = items[0];
        let b = fold_right(items.drop_first());
        SExprView { start: a.start, end: b.end, expr: ExprView::Then { first: Box::new(a), next: Box::new(b) } }
    }
}

/// An expression, with the position saved while it is parsed
pub open spec fn expr_step(ts: Seq<Spanned<Token>>, reg: OpRegistry, s: PState) -> Outcome<SExprView>
    decreases ts.len() - s.cursor, 20nat,
{
    if s.cursor >= ts.len() {
        (s, Err(stuck()))
    } else {
        let (s1, r) = expr_inner_step(ts, reg, saved(s));
        (dropped(s1), r)
    }
}

/// An expression: `let`, `if`, `for`, or operators over postfix terms
pub open spec fn expr_inner_step(ts: Seq<Spanned<Token>>, reg: OpRegistry, s: PState) -> Outcome<SExprView>
    decreases ts.len() - s.cursor, 19nat,
{
    if s.cursor >= ts.len() {
        (s, Err(stuck()))
    } else {
        match tok_at(ts, s) {
            TokenView::Let => let_step(ts, reg, s),
            TokenView::If => if_step(ts, reg, s),
            TokenView::For => for_step(ts, reg, s),
            _ => binary_step(ts, reg, s, 0),
        }
    }
}

/// `let name = body`
pub open spec fn let_step(ts: Seq<Spanned<Token>>, reg: OpRegistry, s: PState) -> Outcome<SExprView>
    decreases ts.len() - s.cursor, 18nat,
{
    let (s1, r1) = expect_advance_step(ts, s, "name"@);
    if s.cursor >= ts.len() {
        (s, Err(stuck()))
    } else if r1 is Err {
        (s1, Err(r1->Err_0))
    } else {
        match tok_at(ts, s1) {
            TokenView::Ident(n) => {
                let name = NameView { start: ts[s1.cursor].start, end: ts[s1.cursor].end, name: n };
                let (s2, r2) = skip_step(ts, s1, TokenView::Op("="@), "expr"@);
                if r2 is Err {
                    (s2, Err(r2->Err_0))
                } else {
                    let (s3, r3) = expr_step(ts, reg, s2);
                    match r3 {
                        Err(e) => (s3, Err(e)),
                        Ok(body) => (s3, Ok(tree_at_saved(ts, s3, ExprView::Let { name, body: Box::new(body) }))),
                    }
                }
            },
            _ => (s1, Err(wanted_here(ts, s1, "name"@))),
        }
    }
}

/// The `else` part of an `if`, if one follows the position
pub open spec fn else_step(ts: Seq<Spanned<Token>>, reg: OpRegistry, s: PState) -> Outcome<Option<SExprView>>
    decreases ts.len() - s.cursor, 17nat,
{
    if s.cursor >= ts.len() {
        (s, Err(stuck()))
    } else if s.cursor + 1 < ts.len() && tok_at(ts, forward(s)) == TokenView::Else {
        let (s1, r1) = expect_advance_step(ts, forward(s), "if or block"@);
        if r1 is Err {
            (s1, Err(r1->Err_0))
        } else {
            let (s2, r2) = if tok_at(ts, s1) == TokenView::If {
                expr_step(ts, reg, s1)
            } else {
                block_step(ts, reg, s1)
            };
            match r2 {
                Err(e) => (s2, Err(e)),
                Ok(e) => (s2, Ok(Some(e))),
            }
        }
    } else {
        (s, Ok(None))
    }
}

/// `if cond { .. }`, with an `else` part where one follows
pub open spec fn if_step(ts: Seq<Spanned<Token>>, reg: OpRegistry, s: PState) -> Outcome<SExprView>
    decreases ts.len() - s.cursor, 18nat,
{
    let (s1, r1) = expect_advance_step(ts, s, "condition"@);
    if s.cursor >= ts.len() {
        (s, Err(stuck()))
    } else if r1 is Err {
        (s1, Err(r1->Err_0))
    } else {
        let (s2, r2) = binary_step(ts, reg, s1, 0);
        match r2 {
            Err(e) => (s2, Err(e)),
            Ok(cond) => {
                let (s3, r3) = expect_advance_step(ts, s2, "block"@);
                if s2.cursor < s1.cursor || s2.cursor >= ts.len() {
                    (s2, Err(stuck()))
                } else if r3 is Err {
                    (s3, Err(r3->Err_0))
                } else {
                    let (s4, r4) = block_step(ts, reg, s3);
                    match r4 {
                        Err(e) => (s4, Err(e)),
                        Ok(then) => {
                            if s4.cursor < s3.cursor || s4.cursor >= ts.len() {
                                (s4, Err(stuck()))
                            } else {
                                let (s5, r5) = else_step(ts, reg, s4);
                                match r5 {
                                    Err(e) => (s5, Err(e)),
                                    Ok(else_) => (s5, Ok(tree_at_saved(ts, s5, ExprView::If {
                                        cond: Box::new(cond),
                                        then: Box::new(then),
                                        else_: match else_ {
                                            Some(x) => Some(Box::new(x)),
                                            None => None,
                                        },
                                    }))),
                                }
                            }
                        },
                    }
                }
            },
        }
    }
}

/// The loop variable of a `for` (with the position after `in`), if one is named
pub open spec fn for_name_step(ts: Seq<Spanned<Token>>, s: PState) -> Outcome<Option<NameView>> {
    match tok_at(ts, s) {
        TokenView::Ident(n) => {
            let name = NameView { start: ts[s.cursor].start, end: ts[s.cursor].end, name: n };
            if s.cursor + 1 < ts.len() && tok_at(ts, forward(s)) == TokenView::In {
                let (s1, r1) = expect_advance_step(ts, forward(s), "expr"@);
                match r1 {
                    Err(e) => (s1, Err(e)),
                    Ok(_) => (s1, Ok(Some(name))),
                }
            } else {
                (s, Ok(None))
            }
        },
        _ => (s, Ok(None)),
    }
}

/// `for name in iterator { .. }`, the name and `in` optional
pub open spec fn for_step(ts: Seq<Spanned<Token>>, reg: OpRegistry, s: PState) -> Outcome<SExprView>
    decreases ts.len() - s.cursor, 18nat,
{
    let (s1, r1) = expect_advance_step(ts, s, "iterator or loop variable"@);
    if s.cursor >= ts.len() {
        (s, Err(stuck()))
    } else if r1 is Err {
        (s1, Err(r1->Err_0))
    } else {
        let (s2, r2) = for_name_step(ts, s1);
        match r2 {
            Err(e) => (s2, Err(e)),
            Ok(name) => {
                if s2.cursor < s1.cursor || s2.cursor >= ts.len() {
                    (s2, Err(stuck()))
                } else {
                    let (s3, r3) = expr_step(ts, reg, s2);
                    match r3 {
                        Err(e) => (s3, Err(e)),
                        Ok(iterator) => {
                            let (s4, r4) = expect_advance_step(ts, s3, "block"@);
                            if s3.cursor < s2.cursor || s3.cursor >= ts.len() {
                                (s3, Err(stuck()))
                            } else if r4 is Err {
                                (s4, Err(r4->Err_0))
                            } else {
                                let (s5, r5) = block_step(ts, reg, s4);
                                match r5 {
                                    Err(e) => (s5, Err(e)),
                                    Ok(body) => (s5, Ok(tree_at_saved(ts, s5, ExprView::For {
                                        name,
                                        iterator: Box::new(iterator),
                                        body: Box::new(body),
                                    }))),
                                }
                            }
                        },
                    }
                }
            },
        }
    }
}

/// Binary operators (and `=`) binding at least as tightly as `minp`
pub open spec fn binary_step(ts: Seq<Spanned<Token>>, reg: OpRegistry, s: PState, minp: u16) -> Outcome<SExprView>
    decreases ts.len() - s.cursor, 16nat,
{
    if s.cursor >= ts.len() {
        (s, Err(stuck()))
    } else {
        let (s1, r1) = unary_step(ts, reg, s);
        match r1 {
            Err(e) => (s1, Err(e)),
            Ok(lhs) => if s1.cursor < s.cursor || s1.cursor >= ts.len() {
                (s1, Err(stuck()))
            } else {
                binary_loop(ts, reg, s1, lhs, minp)
            },
        }
    }
}

/// The operators that follow `lhs`, left to right
pub open spec fn binary_loop(ts: Seq<Spanned<Token>>, reg: OpRegistry, s: PState, lhs: SExprView, minp: u16) -> Outcome<SExprView>
    decreases ts.len() - s.cursor, 15nat,
{
    if s.cursor >= ts.len() {
        (s, Err(stuck()))
    } else if s.cursor + 1 >= ts.len() {
        (s, Ok(lhs))
    } else {
        let s1 = forward(s);
        match tok_at(ts, s1) {
            TokenView::Op(op) => {
                if op == "="@ {
                    if minp > 0 {
                        (s, Ok(lhs))
                    } else {
                        match lhs.expr {
                            ExprView::Local { name } => {
                                let (s2, r2) = expect_advance_step(ts, s1, "expr"@);
                                if r2 is Err {
                                    (s2, Err(r2->Err_0))
                                } else {
                                    let (s3, r3) = binary_step(ts, reg, s2, 0);
                                    match r3 {
                                        Err(e) => (s3, Err(e)),
                                        Ok(body) => if s3.cursor < s2.cursor || s3.cursor >= ts.len() {
                                            (s3, Err(stuck()))
                                        } else {
                                            binary_loop(ts, reg, s3, SExprView {
                                                start: lhs.start,
                                                end: body.end,
                                                expr: ExprView::Assign { name, body: Box::new(body) },
                                            }, minp)
                                        },
                                    }
                                }
                            },
                            _ => (s1, Err(wanted_here(ts, s1, "assignable"@))),
                        }
                    }
                } else {
                    match reg.binary_spec(op) {
                        None => (s, Ok(lhs)),
                        Some(entry) => if entry.1 < minp || entry.1 >= u16::MAX {
                            (s, Ok(lhs))
                        } else {
                            let (s2, r2) = expect_advance_step(ts, s1, "expr"@);
                            if r2 is Err {
                                (s2, Err(r2->Err_0))
                            } else {
                                let (s3, r3) = binary_step(ts, reg, s2, (entry.1 + 1) as u16);
                                match r3 {
                                    Err(e) => (s3, Err(e)),
                                    Ok(rhs) => if s3.cursor < s2.cursor || s3.cursor >= ts.len() {
                                        (s3, Err(stuck()))
                                    } else {
                                        binary_loop(ts, reg, s3, SExprView {
                                            start: lhs.start,
                                            end: rhs.end,
                                            expr: ExprView::BinOp { left: Box::new(lhs), op, right: Box::new(rhs) },
                                        }, minp)
                                    },
                                }
                            }
                        },
                    }
                }
            },
            _ => (s, Ok(lhs)),
        }
    }
}

/// Prefix operators over a postfix term
pub open spec fn unary_step(ts: Seq<Spanned<Token>>, reg: OpRegistry, s: PState) -> Outcome<SExprView>
    decreases ts.len() - s.cursor, 14nat,
{
    if s.cursor >= ts.len() {
        (s, Err(stuck()))
    } else {
        match tok_at(ts, s) {
            TokenView::Op(op) => if reg.unary_spec(op) is None {
                (s, Err(err_at_saved(ts, s, ErrorView::Expected("valid operator"@, op))))
            } else {
                let (s1, r1) = expect_advance_step(ts, s, "expr"@);
                if r1 is Err {
                    (s1, Err(r1->Err_0))
                } else {
                    let (s2, r2) = unary_step(ts, reg, s1);
                    match r2 {
                        Err(e) => (s2, Err(e)),
                        Ok(body) => (s2, Ok(tree_at_saved(ts, s2, ExprView::UnaryOp { op, body: Box::new(body) }))),
                    }
                }
            },
            _ => postfix_step(ts, reg, s),
        }
    }
}

/// A term followed by calls
pub open spec fn postfix_step(ts: Seq<Spanned<Token>>, reg: OpRegistry, s: PState) -> Outcome<SExprView>
    decreases ts.len() - s.cursor, 13nat,
{
    if s.cursor >= ts.len() {
        (s, Err(stuck()))
    } else {
        let (s1, r1) = atom_step(ts, reg, s);
        match r1 {
            Err(e) => (s1, Err(e)),
            Ok(e) => if s1.cursor < s.cursor || s1.cursor >= ts.len() {
                (s1, Err(stuck()))
            } else {
                postfix_loop(ts, reg, s1, e)
            },
        }
    }
}

/// The calls that follow `e`
pub open spec fn postfix_loop(ts: Seq<Spanned<Token>>, reg: OpRegistry, s: PState, e: SExprView) -> Outcome<SExprView>
    decreases ts.len() - s.cursor, 12nat,
{
    if s.cursor >= ts.len() {
        (s, Err(stuck()))
    } else if s.cursor + 1 >= ts.len() || tok_at(ts, forward(s)) != TokenView::Ctrl('(') {
        (s, Ok(e))
    } else {
        let s1 = forward(s);
        let (s2, r2) = list_step(ts, reg, s1, '(', ')', "argument"@);
        match r2 {
            Err(err) => (s2, Err(err)),
            Ok(args) => if s2.cursor < s1.cursor || s2.cursor >= ts.len() {
                (s2, Err(stuck()))
            } else {
                postfix_loop(ts, reg, s2, SExprView {
                    start: e.start,
                    end: ts[s2.cursor].end,
                    expr: ExprView::Call { body: Box::new(e), args },
                })
            },
        }
    }
}

/// A literal, a name, or a bracketed or function term
pub open spec fn atom_step(ts: Seq<Spanned<Token>>, reg: OpRegistry, s: PState) -> Outcome<SExprView>
    decreases ts.len() - s.cursor, 11nat,
{
    if s.cursor >= ts.len() {
        (s, Err(stuck()))
    } else {
        match ts[s.cursor].value {
            Token::Int(i) => (s, Ok(tree_at_token(ts, s, ExprView::Literal(Value::Int(i))))),
            Token::Float(f) => (s, Ok(tree_at_token(ts, s, ExprView::Literal(Value::Float(f))))),
            Token::Bool(b) => (s, Ok(tree_at_token(ts, s, ExprView::Literal(Value::Bool(b))))),
            Token::Str(x) => (s, Ok(tree_at_token(ts, s, ExprView::Literal(Value::Str(x))))),
            Token::Ident(x) => (s, Ok(tree_at_token(ts, s, ExprView::Local {
                name: NameView { start: ts[s.cursor].start, end: ts[s.cursor].end, name: x@ },
            }))),
            Token::Ctrl('(') => paren_step(ts, reg, s),
            Token::Ctrl('{') => block_step(ts, reg, s),
            Token::Ctrl('[') => {
                let (s1, r1) = list_step(ts, reg, s, '[', ']', "expr"@);
                match r1 {
                    Err(e) => (s1, Err(e)),
                    Ok(items) => (s1, Ok(tree_at_saved(ts, s1, ExprView::List(items)))),
                }
            },
            Token::Fn => func_step(ts, reg, s),
            t => (s, Err(err_at_token(ts, s, ErrorView::Expected("atom"@, token_text(t@))))),
        }
    }
}

/// `fn (args) { .. }`
pub open spec fn func_step(ts: Seq<Spanned<Token>>, reg: OpRegistry, s: PState) -> Outcome<SExprView>
    decreases ts.len() - s.cursor, 10nat,
{
    let (s1, r1) = expect_advance_step(ts, s, "args"@);
    if s.cursor >= ts.len() {
        (s, Err(stuck()))
    } else if r1 is Err {
        (s1, Err(r1->Err_0))
    } else {
        let (s2, r2) = fn_args_step(ts, s1);
        match r2 {
            Err(e) => (s2, Err(e)),
            Ok(args) => {
                let (s3, r3) = expect_advance_step(ts, s2, "block"@);
                if s2.cursor < s1.cursor || s2.cursor >= ts.len() {
                    (s2, Err(stuck()))
                } else if r3 is Err {
                    (s3, Err(r3->Err_0))
                } else {
                    let (s4, r4) = block_step(ts, reg, s3);
                    match r4 {
                        Err(e) => (s4, Err(e)),
                        Ok(body) => (s4, Ok(tree_at_saved(ts, s4, ExprView::Func { args, body: Box::new(body) }))),
                    }
                }
            },
        }
    }
}

/// An expression in round brackets
pub open spec fn paren_step(ts: Seq<Spanned<Token>>, reg: OpRegistry, s: PState) -> Outcome<SExprView>
    decreases ts.len() - s.cursor, 10nat,
{
    let (s1, r1) = open_step(ts, s, TokenView::Ctrl('('), "paren"@);
    if s.cursor >= ts.len() {
        (s, Err(stuck()))
    } else if r1 is Err {
        (s1, Err(r1->Err_0))
    } else {
        let (s2, r2) = expr_step(ts, reg, s1);
        match r2 {
            Err(e) => (s2, Err(e)),
            Ok(res) => {
                let (s3, r3) = close_step(ts, s2, TokenView::Ctrl(')'));
                match r3 {
                    Err(e) => (s3, Err(e)),
                    Ok(_) => (s3, Ok(res)),
                }
            },
        }
    }
}

/// Expressions separated by `,` between the brackets `left` and `right`,
/// a trailing `,` allowed
pub open spec fn list_step(ts: Seq<Spanned<Token>>, reg: OpRegistry, s: PState, left: char, right: char,
    label: Seq<char>) -> Outcome<Seq<SExprView>>
    decreases ts.len() - s.cursor, 10nat,
{
    let (s1, r1) = open_step(ts, s, TokenView::Ctrl(left), label);
    if s.cursor >= ts.len() {
        (s, Err(stuck()))
    } else if r1 is Err {
        (s1, Err(r1->Err_0))
    } else {
        let (s2, r2) = separated_step(ts, reg, s1, TokenView::Ctrl(right));
        match r2 {
            Err(e) => (s2, Err(e)),
            Ok(items) => {
                let (s3, r3) = close_step(ts, s2, TokenView::Ctrl(right));
                match r3 {
                    Err(e) => (s3, Err(e)),
                    Ok(_) => (s3, Ok(items.0)),
                }
            },
        }
    }
}

/// The `,`-separated items up to `end`, with whether a `,` trails them;
/// the parser ends on the last item, or one token back when there is none
pub open spec fn separated_step(ts: Seq<Spanned<Token>>, reg: OpRegistry, s: PState, end: TokenView) -> Outcome<(Seq<SExprView>, bool)>
    decreases ts.len() - s.cursor, 22nat,
{
    if s.cursor >= ts.len() || s.cursor == 0 {
        (s, Err(stuck()))
    } else if tok_at(ts, s) == end {
        (moved(s, s.cursor - 1), Ok((Seq::empty(), false)))
    } else {
        let (s1, r1) = expr_step(ts, reg, s);
        match r1 {
            Err(e) => (s1, Err(e)),
            Ok(first) => if s1.cursor < s.cursor || s1.cursor >= ts.len() {
                (s1, Err(stuck()))
            } else {
                separated_loop(ts, reg, s1, seq![first], end)
            },
        }
    }
}

/// The further `,`-separated items up to `end`
pub open spec fn separated_loop(ts: Seq<Spanned<Token>>, reg: OpRegistry, s: PState, out: Seq<SExprView>,
    end: TokenView) -> Outcome<(Seq<SExprView>, bool)>
    decreases ts.len() - s.cursor, 21nat,
{
    if s.cursor >= ts.len() {
        (s, Err(stuck()))
    } else if s.cursor + 1 >= ts.len() || tok_at(ts, forward(s)) != TokenView::Ctrl(',') {
        (s, Ok((out, false)))
    } else if s.cursor + 2 >= ts.len() || tok_at(ts, moved(s, s.cursor + 2)) == end {
        (forward(s), Ok((out, true)))
    } else {
        let s2 = moved(s, s.cursor + 2);
        let (s3, r3) = expr_step(ts, reg, s2);
        match r3 {
            Err(e) => (s3, Err(e)),
            Ok(item) => if s3.cursor < s2.cursor || s3.cursor >= ts.len() {
                (s3, Err(stuck()))
            } else {
                separated_loop(ts, reg, s3, out.push(item), end)
            },
        }
    }
}

/// The statements of a block, with whether a `;` trails them; the parser
/// ends on the last one, or one token back when there is none
pub open spec fn block_items_step(ts: Seq<Spanned<Token>>, reg: OpRegistry, s: PState) -> Outcome<(Seq<SExprView>, bool)>
    decreases ts.len() - s.cursor, 22nat,
{
    if s.cursor >= ts.len() || s.cursor == 0 {
        (s, Err(stuck()))
    } else if tok_at(ts, s) == TokenView::Ctrl('}') {
        (moved(s, s.cursor - 1), Ok((Seq::empty(), false)))
    } else {
        block_items_loop(ts, reg, s, Seq::empty())
    }
}

/// The further statements of a block, after those in `out`
pub open spec fn block_items_loop(ts: Seq<Spanned<Token>>, reg: OpRegistry, s: PState, out: Seq<SExprView>) -> Outcome<(Seq<SExprView>, bool)>
    decreases ts.len() - s.cursor, 21nat,
{
    if s.cursor >= ts.len() {
        (s, Err(stuck()))
    } else {
        let (s1, r1) = expr_step(ts, reg, s);
        match r1 {
            Err(e) => (s1, Err(e)),
            Ok(item) => {
                let out2 = out.push(item);
                if s1.cursor < s.cursor || s1.cursor >= ts.len() {
                    (s1, Err(stuck()))
                } else if s1.cursor + 1 >= ts.len() {
                    (s1, Ok((out2, false)))
                } else {
                    let s2 = forward(s1);
                    if tok_at(ts, s2) == TokenView::Ctrl(';') {
                        if s2.cursor + 1 >= ts.len() || tok_at(ts, forward(s2)) == TokenView::Ctrl('}') {
                            (s2, Ok((out2, true)))
                        } else {
                            block_items_loop(ts, reg, forward(s2), out2)
                        }
                    } else if tok_at(ts, s2) == TokenView::Ctrl('}') {
                        (s1, Ok((out2, false)))
                    } else if ends_in_block_view(item.expr) {
                        block_items_loop(ts, reg, s2, out2)
                    } else {
                        (s2, Err(wanted_here(ts, s2, token_text(TokenView::Ctrl(';')))))
                    }
                }
            },
        }
    }
}

/// `{ statements }`: the statements joined in order (a trailing `;` adds
/// a null one), or null where there are none
pub open spec fn block_step(ts: Seq<Spanned<Token>>, reg: OpRegistry, s: PState) -> Outcome<SExprView>
    decreases ts.len() - s.cursor, 10nat,
{
    let (s1, r1) = open_step(ts, s, TokenView::Ctrl('{'), "expr"@);
    if s.cursor >= ts.len() {
        (s, Err(stuck()))
    } else if r1 is Err {
        (s1, Err(r1->Err_0))
    } else {
        let (s2, r2) = block_items_step(ts, reg, s1);
        match r2 {
            Err(e) => (s2, Err(e)),
            Ok(items) => {
                let (s3, r3) = close_step(ts, s2, TokenView::Ctrl('}'));
                match r3 {
                    Err(e) => (s3, Err(e)),
                    Ok(_) => {
                        let res = if items.1 { items.0.push(tree_at_token(ts, s3, ExprView::Null)) } else { items.0 };
                        let body = if res.len() == 0 { tree_at_token(ts, s3, ExprView::Null) } else { fold_left(res) };
                        (s3, Ok(SExprView { start: body.start, end: body.end, expr: ExprView::Block { body: Box::new(body) } }))
                    },
                }
            },
        }
    }
}

/// What the statement loop has gathered: the position, the statements,
/// the problems, and whether a `;` ends the input
pub type Gathered = (PState, Seq<SExprView>, Seq<ErrView>, bool);

/// The statements from the position on, each broken one kept as an error
/// node that reaches to the token before the next `;`
pub open spec fn statements(ts: Seq<Spanned<Token>>, reg: OpRegistry, s: PState, items: Seq<SExprView>, diags: Seq<ErrView>) -> Gathered
    decreases ts.len() - s.cursor,
{
    if s.cursor >= ts.len() {
        (s, items, diags, false)
    } else {
        let (s1, r) = expr_step(ts, reg, s);
        let (s2, items2, diags2, optional) = match r {
            Ok(item) => (s1, items.push(item), diags, ends_in_block_view(item.expr)),
            Err(err) => {
                let s2 = skip_semi(ts, moved(s1, s.cursor));
                (s2, items.push(SExprView {
                    start: ts[s.cursor].start,
                    end: ts[s2.cursor].end,
                    expr: ExprView::Error(err),
                }), diags.push(err), false)
            },
        };
        if s2.cursor < s.cursor || s2.cursor + 1 >= ts.len() {
            (s2, items2, diags2, false)
        } else {
            let s3 = forward(s2);
            if tok_at(ts, s3) != TokenView::Ctrl(';') {
                if optional {
                    statements(ts, reg, s3, items2, diags2)
                } else {
                    statements(ts, reg, s3, items2, diags2.push(err_at_token(ts, s3,
                        ErrorView::Expected(token_text(TokenView::Ctrl(';')), token_text(tok_at(ts, s3))))))
                }
            } else if s3.cursor + 1 >= ts.len() {
                (s3, items2, diags2, true)
            } else {
                statements(ts, reg, forward(s3), items2, diags2)
            }
        }
    }
}

/// The tree the tokens parse to, with every problem found on the way: the
/// statements joined in order (a trailing `;` adds a null one), each broken
/// statement an error node; null for no tokens
pub open spec fn recovered(ts: Seq<Spanned<Token>>, reg: OpRegistry) -> (SExprView, Seq<ErrView>) {
    if ts.len() == 0 {
        (SExprView { start: 0, end: 0, expr: ExprView::Null }, Seq::empty())
    } else {
        let (s, items, diags, trailing) = statements(ts, reg, PState { cursor: 0, cps: Seq::empty() }, Seq::empty(), Seq::empty());
        let items2 = if trailing { items.push(tree_at_token(ts, s, ExprView::Literal(Value::Null))) } else { items };
        (fold_right(items2), diags)
    }
}

} // verus!

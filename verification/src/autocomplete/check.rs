//! Diagnostics for a line of source: what does not lex or parse, and every
//! name used where no variable or function of that name is visible.
use vstd::prelude::*;
use crate::autocomplete::Span;
use crate::error::{error_text, KaonError};
use crate::expr::{Expr, SpannedExpr, sexpr_view};
use crate::lex::{lex_from, LexOutcome, Lexer, tokens_view};
use crate::op_registry::OpRegistry;
use crate::parse::{precedences_bounded, errs_view, Parser};
use crate::parse::model::recovered;
use crate::token::Token;
use crate::scope::{has_name, holds_name, Scope};
use crate::spanned::Spanned;
use crate::text::{chars_to_string, push_str};

verus! {

/// How serious a diagnostic is
#[derive(Debug, Clone, Copy, PartialEq, Eq, Structural)]
pub enum Severity {
    Error,
}

/// A problem found in a line, with where it is
#[derive(Debug, Clone, PartialEq)]
pub struct Diagnostic {
    pub span: Span,
    pub message: String,
    pub severity: Severity,
}

/// What the walk knows of the names: those visible, those of the global
/// frame, and whether the innermost frame is the global one.
pub type NameState = (Set<Seq<char>>, Set<Seq<char>>, bool);

/// The names a scope gives the walk.
pub open spec fn name_state(scope: Scope<()>) -> NameState {
    (
        Set::new(|k: Seq<char>| scope.lookup(k) is Some),
        Set::new(|k: Seq<char>| scope.frames()[0].get_spec(k) is Some),
        scope.frames().len() == 1,
    )
}

/// A name declared in the innermost frame.
pub open spec fn declare(st: NameState, n: Seq<char>) -> NameState {
    (st.0.insert(n), if st.2 { st.1.insert(n) } else { st.1 }, st.2)
}

/// The names declared one after another, in order.
pub open spec fn declare_all(st: NameState, names: Seq<Spanned<String>>) -> NameState
    decreases names.len(),
{
    if names.len() == 0 {
        st
    } else {
        declare_all(declare(st, names[0].value@), names.subrange(1, names.len() as int))
    }
}

/// A new frame that sees what the current one sees.
pub open spec fn enter(st: NameState) -> NameState {
    (st.0, st.1, false)
}

/// A new frame that sees only the global frame.
pub open spec fn enter_blocking(st: NameState) -> NameState {
    (st.1, st.1, false)
}

/// Walking an expression: the names used where neither a visible variable
/// nor a function (`funcs`) has them, in the order they are used, and the
/// names after the walk. Let declares its name after its body; a block, a
/// loop body and a function body see their own frame, which is gone after
/// them; a function body sees only the global frame and its arguments.
pub open spec fn walk_spec(e: SpannedExpr, st: NameState, funcs: Set<Seq<char>>) -> (Seq<Spanned<String>>, NameState)
    decreases e,
{
    match *e.value {
        Expr::Null | Expr::Literal(_) | Expr::Error(_) => (Seq::empty(), st),
        Expr::List(items) => walk_seq(items@, st, funcs),
        Expr::Let { name, body } => {
            let r = walk_spec(body, st, funcs);
            (r.0, declare(r.1, name.value@))
        },
        Expr::Assign { name, body } => {
            let r = walk_spec(body, st, funcs);
            (if r.1.0.contains(name.value@) { r.0 } else { r.0.push(name) }, r.1)
        },
        Expr::Local { name } => (
            if st.0.contains(name.value@) || funcs.contains(name.value@) { Seq::empty() } else { seq![name] },
            st,
        ),
        Expr::UnaryOp { op, body } => walk_spec(body, st, funcs),
        Expr::BinOp { left, op, right } => {
            let a = walk_spec(left, st, funcs);
            let b = walk_spec(right, a.1, funcs);
            (a.0 + b.0, b.1)
        },
        Expr::If { cond, then, else_ } => {
            let a = walk_spec(cond, st, funcs);
            let b = walk_spec(then, a.1, funcs);
            match else_ {
                Some(e2) => {
                    let c = walk_spec(e2, b.1, funcs);
                    (a.0 + b.0 + c.0, c.1)
                },
                None => (a.0 + b.0, b.1),
            }
        },
        Expr::For { name, iterator, body } => {
            let a = walk_spec(iterator, st, funcs);
            let inner = match name {
                Some(n) => declare(enter(a.1), n.value@),
                None => enter(a.1),
            };
            let b = walk_spec(body, inner, funcs);
            (a.0 + b.0, a.1)
        },
        Expr::Func { args, body } => {
            let b = walk_spec(body, declare_all(enter_blocking(st), args@), funcs);
            (b.0, st)
        },
        Expr::Then { first, next } => {
            let a = walk_spec(first, st, funcs);
            let b = walk_spec(next, a.1, funcs);
            (a.0 + b.0, b.1)
        },
        Expr::Block { body } => {
            let b = walk_spec(body, enter(st), funcs);
            (b.0, st)
        },
        Expr::Call { body, args } => {
            let a = walk_spec(body, st, funcs);
            let b = walk_seq(args@, a.1, funcs);
            (a.0 + b.0, b.1)
        },
    }
}

/// Walking expressions one after another.
pub open spec fn walk_seq(items: Seq<SpannedExpr>, st: NameState, funcs: Set<Seq<char>>) -> (Seq<Spanned<String>>, NameState)
    decreases items,
{
    if items.len() == 0 {
        (Seq::empty(), st)
    } else {
        let a = walk_spec(items[0], st, funcs);
        let b = walk_seq(items.subrange(1, items.len() as int), a.1, funcs);
        (a.0 + b.0, b.1)
    }
}

/// The names an expression declares anywhere in it: by `let`, as a loop's
/// variable, or as a function's arguments.
pub open spec fn binders(e: SpannedExpr) -> Set<Seq<char>>
    decreases e,
{
    match *e.value {
        Expr::Null | Expr::Literal(_) | Expr::Error(_) | Expr::Local { .. } => Set::empty(),
        Expr::List(items) => binders_seq(items@),
        Expr::Let { name, body } => binders(body).insert(name.value@),
        Expr::Assign { name, body } => binders(body),
        Expr::UnaryOp { op, body } => binders(body),
        Expr::BinOp { left, op, right } => binders(left).union(binders(right)),
        Expr::If { cond, then, else_ } => binders(cond).union(binders(then)).union(
            match else_ {
                Some(e2) => binders(e2),
                None => Set::empty(),
            },
        ),
        Expr::For { name, iterator, body } => binders(iterator).union(binders(body)).union(
            match name {
                Some(n) => Set::empty().insert(n.value@),
                None => Set::empty(),
            },
        ),
        Expr::Func { args, body } => binders(body).union(Set::new(|k: Seq<char>| exists|i: int| 0 <= i < args@.len() && #[trigger] args@[i].value@ == k)),
        Expr::Then { first, next } => binders(first).union(binders(next)),
        Expr::Block { body } => binders(body),
        Expr::Call { body, args } => binders(body).union(binders_seq(args@)),
    }
}

/// The names declared anywhere in the expressions.
pub open spec fn binders_seq(items: Seq<SpannedExpr>) -> Set<Seq<char>>
    decreases items,
{
    if items.len() == 0 {
        Set::empty()
    } else {
        binders(items[0]).union(binders_seq(items.subrange(1, items.len() as int)))
    }
}

/// Whether the expression uses the name `n` somewhere: as a variable read,
/// or as the target of an assignment.
pub open spec fn mentions(e: SpannedExpr, n: Spanned<String>) -> bool
    decreases e,
{
    match *e.value {
        Expr::Null | Expr::Literal(_) | Expr::Error(_) => false,
        Expr::Local { name } => name == n,
        Expr::List(items) => mentions_seq(items@, n),
        Expr::Let { name, body } => mentions(body, n),
        Expr::Assign { name, body } => name == n || mentions(body, n),
        Expr::UnaryOp { op, body } => mentions(body, n),
        Expr::BinOp { left, op, right } => mentions(left, n) || mentions(right, n),
        Expr::If { cond, then, else_ } => mentions(cond, n) || mentions(then, n) || match else_ {
            Some(e2) => mentions(e2, n),
            None => false,
        },
        Expr::For { name, iterator, body } => mentions(iterator, n) || mentions(body, n),
        Expr::Func { args, body } => mentions(body, n),
        Expr::Then { first, next } => mentions(first, n) || mentions(next, n),
        Expr::Block { body } => mentions(body, n),
        Expr::Call { body, args } => mentions(body, n) || mentions_seq(args@, n),
    }
}

/// Whether one of the expressions uses the name `n`.
pub open spec fn mentions_seq(items: Seq<SpannedExpr>, n: Spanned<String>) -> bool
    decreases items,
{
    if items.len() == 0 {
        false
    } else {
        mentions(items[0], n) || mentions_seq(items.subrange(1, items.len() as int), n)
    }
}

/// Whether the walk's names have `k`, as visible or as global.
pub open spec fn known(st: NameState, k: Seq<char>) -> bool {
    st.0.contains(k) || st.1.contains(k)
}

proof fn lemma_declare_all_known(st: NameState, names: Seq<Spanned<String>>, k: Seq<char>)
    ensures
        known(declare_all(st, names), k) ==> known(st, k) || exists|i: int| 0 <= i < names.len() && #[trigger] names[i].value@ == k,
    decreases names.len(),
{
    if names.len() > 0 {
        let rest = names.subrange(1, names.len() as int);
        lemma_declare_all_known(declare(st, names[0].value@), rest, k);
        if known(declare_all(st, names), k) && !known(st, k) && names[0].value@ != k {
            let i = choose|i: int| 0 <= i < rest.len() && #[trigger] rest[i].value@ == k;
            assert(names[i + 1] == rest[i]);
        }
    }
}

/// The walk learns no name that the expression does not declare.
proof fn lemma_walk_known(e: SpannedExpr, st: NameState, f: Set<Seq<char>>, k: Seq<char>)
    ensures
        known(walk_spec(e, st, f).1, k) ==> known(st, k) || binders(e).contains(k),
    decreases e,
{
    match *e.value {
        Expr::List(items) => {
            lemma_walk_seq_known(items@, st, f, k);
        },
        Expr::Let { name, body } => {
            lemma_walk_known(body, st, f, k);
        },
        Expr::Assign { name, body } => {
            lemma_walk_known(body, st, f, k);
        },
        Expr::UnaryOp { op, body } => {
            lemma_walk_known(body, st, f, k);
        },
        Expr::BinOp { left, op, right } => {
            lemma_walk_known(left, st, f, k);
            lemma_walk_known(right, walk_spec(left, st, f).1, f, k);
        },
        Expr::If { cond, then, else_ } => {
            lemma_walk_known(cond, st, f, k);
            let a = walk_spec(cond, st, f);
            lemma_walk_known(then, a.1, f, k);
            match else_ {
                Some(e2) => {
                    lemma_walk_known(e2, walk_spec(then, a.1, f).1, f, k);
                },
                None => {},
            }
        },
        Expr::For { name, iterator, body } => {
            lemma_walk_known(iterator, st, f, k);
        },
        Expr::Then { first, next } => {
            lemma_walk_known(first, st, f, k);
            lemma_walk_known(next, walk_spec(first, st, f).1, f, k);
        },
        Expr::Call { body, args } => {
            lemma_walk_known(body, st, f, k);
            lemma_walk_seq_known(args@, walk_spec(body, st, f).1, f, k);
        },
        _ => {},
    }
}

proof fn lemma_walk_seq_known(items: Seq<SpannedExpr>, st: NameState, f: Set<Seq<char>>, k: Seq<char>)
    ensures
        known(walk_seq(items, st, f).1, k) ==> known(st, k) || binders_seq(items).contains(k),
    decreases items,
{
    if items.len() > 0 {
        lemma_walk_known(items[0], st, f, k);
        lemma_walk_seq_known(items.subrange(1, items.len() as int), walk_spec(items[0], st, f).1, f, k);
    }
}

/// Every use of a name that neither the names the walk starts with, nor the
/// functions, nor any declaration in the expression has, is reported, in
/// every part of the expression: both branches of an `if`, loop and function
/// bodies, call arguments and list items alike.
pub proof fn law_walk_reports_unknown(e: SpannedExpr, st: NameState, f: Set<Seq<char>>, n: Spanned<String>)
    requires
        mentions(e, n),
        !known(st, n.value@),
        !f.contains(n.value@),
        !binders(e).contains(n.value@),
    ensures
        walk_spec(e, st, f).0.contains(n),
    decreases e,
{
    let k = n.value@;
    match *e.value {
        Expr::Local { name } => {
            assert(walk_spec(e, st, f).0 == seq![n]);
            assert(seq![n][0] == n);
        },
        Expr::List(items) => {
            law_walk_seq_reports_unknown(items@, st, f, n);
        },
        Expr::Let { name, body } => {
            law_walk_reports_unknown(body, st, f, n);
        },
        Expr::Assign { name, body } => {
            let r = walk_spec(body, st, f);
            lemma_walk_known(body, st, f, k);
            if mentions(body, n) {
                law_walk_reports_unknown(body, st, f, n);
                let i = choose|i: int| 0 <= i < r.0.len() && r.0[i] == n;
                assert(walk_spec(e, st, f).0[i] == n);
            } else {
                assert(name == n);
                assert(walk_spec(e, st, f).0 == r.0.push(name));
                assert(walk_spec(e, st, f).0[r.0.len() as int] == n);
            }
        },
        Expr::UnaryOp { op, body } => {
            law_walk_reports_unknown(body, st, f, n);
        },
        Expr::BinOp { left, op, right } => {
            let a = walk_spec(left, st, f);
            let b = walk_spec(right, a.1, f);
            lemma_walk_known(left, st, f, k);
            if mentions(left, n) {
                law_walk_reports_unknown(left, st, f, n);
                lemma_contains_concat(a.0, b.0, n);
            } else {
                law_walk_reports_unknown(right, a.1, f, n);
                lemma_contains_concat(a.0, b.0, n);
            }
        },
        Expr::If { cond, then, else_ } => {
            let a = walk_spec(cond, st, f);
            let b = walk_spec(then, a.1, f);
            lemma_walk_known(cond, st, f, k);
            lemma_walk_known(then, a.1, f, k);
            if mentions(cond, n) {
                law_walk_reports_unknown(cond, st, f, n);
                lemma_contains_concat(a.0, b.0, n);
            } else if mentions(then, n) {
                law_walk_reports_unknown(then, a.1, f, n);
                lemma_contains_concat(a.0, b.0, n);
            }
            match else_ {
                Some(e2) => {
                    let c = walk_spec(e2, b.1, f);
                    if mentions(e2, n) && !mentions(cond, n) && !mentions(then, n) {
                        law_walk_reports_unknown(e2, b.1, f, n);
                    }
                    lemma_contains_concat(a.0 + b.0, c.0, n);
                },
                None => {},
            }
        },
        Expr::For { name, iterator, body } => {
            let a = walk_spec(iterator, st, f);
            lemma_walk_known(iterator, st, f, k);
            let inner = match name {
                Some(m) => declare(enter(a.1), m.value@),
                None => enter(a.1),
            };
            let b = walk_spec(body, inner, f);
            if mentions(iterator, n) {
                law_walk_reports_unknown(iterator, st, f, n);
            } else {
                assert(!known(inner, k));
                law_walk_reports_unknown(body, inner, f, n);
            }
            lemma_contains_concat(a.0, b.0, n);
        },
        Expr::Func { args, body } => {
            let inner = declare_all(enter_blocking(st), args@);
            lemma_declare_all_known(enter_blocking(st), args@, k);
            if known(inner, k) {
                let i = choose|i: int| 0 <= i < args@.len() && #[trigger] args@[i].value@ == k;
                assert(binders(e).contains(k));
            }
            law_walk_reports_unknown(body, inner, f, n);
        },
        Expr::Then { first, next } => {
            let a = walk_spec(first, st, f);
            let b = walk_spec(next, a.1, f);
            lemma_walk_known(first, st, f, k);
            if mentions(first, n) {
                law_walk_reports_unknown(first, st, f, n);
            } else {
                law_walk_reports_unknown(next, a.1, f, n);
            }
            lemma_contains_concat(a.0, b.0, n);
        },
        Expr::Block { body } => {
            law_walk_reports_unknown(body, enter(st), f, n);
        },
        Expr::Call { body, args } => {
            let a = walk_spec(body, st, f);
            let b = walk_seq(args@, a.1, f);
            lemma_walk_known(body, st, f, k);
            if mentions(body, n) {
                law_walk_reports_unknown(body, st, f, n);
            } else {
                law_walk_seq_reports_unknown(args@, a.1, f, n);
            }
            lemma_contains_concat(a.0, b.0, n);
        },
        _ => {},
    }
}

/// The same, for expressions walked one after another.
pub proof fn law_walk_seq_reports_unknown(items: Seq<SpannedExpr>, st: NameState, f: Set<Seq<char>>, n: Spanned<String>)
    requires
        mentions_seq(items, n),
        !known(st, n.value@),
        !f.contains(n.value@),
        !binders_seq(items).contains(n.value@),
    ensures
        walk_seq(items, st, f).0.contains(n),
    decreases items,
{
    let rest = items.subrange(1, items.len() as int);
    let a = walk_spec(items[0], st, f);
    let b = walk_seq(rest, a.1, f);
    lemma_walk_known(items[0], st, f, n.value@);
    if mentions(items[0], n) {
        law_walk_reports_unknown(items[0], st, f, n);
    } else {
        law_walk_seq_reports_unknown(rest, a.1, f, n);
    }
    lemma_contains_concat(a.0, b.0, n);
}

proof fn lemma_contains_concat(a: Seq<Spanned<String>>, b: Seq<Spanned<String>>, n: Spanned<String>)
    ensures
        (a.contains(n) || b.contains(n)) ==> (a + b).contains(n),
{
    if a.contains(n) {
        let i = choose|i: int| 0 <= i < a.len() && a[i] == n;
        assert((a + b)[i] == n);
    } else if b.contains(n) {
        let i = choose|i: int| 0 <= i < b.len() && b[i] == n;
        assert((a + b)[a.len() + i] == n);
    }
}

/// Only uses are reported: every name the walk reports is read or assigned
/// in the expression, at the span it is reported at.
pub proof fn law_walk_reports_only_uses(e: SpannedExpr, st: NameState, f: Set<Seq<char>>, n: Spanned<String>)
    requires
        walk_spec(e, st, f).0.contains(n),
    ensures
        mentions(e, n),
    decreases e,
{
    match *e.value {
        Expr::Local { name } => {
            let r = walk_spec(e, st, f).0;
            let i = choose|i: int| 0 <= i < r.len() && r[i] == n;
            assert(r == seq![name]);
        },
        Expr::List(items) => {
            law_walk_seq_reports_only_uses(items@, st, f, n);
        },
        Expr::Let { name, body } => {
            law_walk_reports_only_uses(body, st, f, n);
        },
        Expr::Assign { name, body } => {
            let r = walk_spec(body, st, f);
            if r.0.contains(n) {
                law_walk_reports_only_uses(body, st, f, n);
            } else {
                let w = walk_spec(e, st, f).0;
                let i = choose|i: int| 0 <= i < w.len() && w[i] == n;
                if r.1.0.contains(name.value@) {
                    assert(w == r.0);
                } else {
                    assert(w == r.0.push(name));
                    if i < r.0.len() {
                        assert(w[i] == r.0[i]);
                    }
                }
                assert(name == n);
            }
        },
        Expr::UnaryOp { op, body } => {
            law_walk_reports_only_uses(body, st, f, n);
        },
        Expr::BinOp { left, op, right } => {
            let a = walk_spec(left, st, f);
            let b = walk_spec(right, a.1, f);
            lemma_concat_contains(a.0, b.0, n);
            if a.0.contains(n) {
                law_walk_reports_only_uses(left, st, f, n);
            } else {
                law_walk_reports_only_uses(right, a.1, f, n);
            }
        },
        Expr::If { cond, then, else_ } => {
            let a = walk_spec(cond, st, f);
            let b = walk_spec(then, a.1, f);
            let ab = a.0 + b.0;
            match else_ {
                Some(e2) => {
                    let c = walk_spec(e2, b.1, f);
                    lemma_concat_contains(ab, c.0, n);
                    if c.0.contains(n) {
                        law_walk_reports_only_uses(e2, b.1, f, n);
                    }
                },
                None => {},
            }
            if ab.contains(n) {
                lemma_concat_contains(a.0, b.0, n);
                if a.0.contains(n) {
                    law_walk_reports_only_uses(cond, st, f, n);
                } else {
                    law_walk_reports_only_uses(then, a.1, f, n);
                }
            }
        },
        Expr::For { name, iterator, body } => {
            let a = walk_spec(iterator, st, f);
            let inner = match name {
                Some(m) => declare(enter(a.1), m.value@),
                None => enter(a.1),
            };
            let b = walk_spec(body, inner, f);
            lemma_concat_contains(a.0, b.0, n);
            if a.0.contains(n) {
                law_walk_reports_only_uses(iterator, st, f, n);
            } else {
                law_walk_reports_only_uses(body, inner, f, n);
            }
        },
        Expr::Func { args, body } => {
            law_walk_reports_only_uses(body, declare_all(enter_blocking(st), args@), f, n);
        },
        Expr::Then { first, next } => {
            let a = walk_spec(first, st, f);
            let b = walk_spec(next, a.1, f);
            lemma_concat_contains(a.0, b.0, n);
            if a.0.contains(n) {
                law_walk_reports_only_uses(first, st, f, n);
            } else {
                law_walk_reports_only_uses(next, a.1, f, n);
            }
        },
        Expr::Block { body } => {
            law_walk_reports_only_uses(body, enter(st), f, n);
        },
        Expr::Call { body, args } => {
            let a = walk_spec(body, st, f);
            let b = walk_seq(args@, a.1, f);
            lemma_concat_contains(a.0, b.0, n);
            if a.0.contains(n) {
                law_walk_reports_only_uses(body, st, f, n);
            } else {
                law_walk_seq_reports_only_uses(args@, a.1, f, n);
            }
        },
        _ => {
            let r = walk_spec(e, st, f).0;
            assert(r.len() == 0);
        },
    }
}

/// The same, for expressions walked one after another.
pub proof fn law_walk_seq_reports_only_uses(items: Seq<SpannedExpr>, st: NameState, f: Set<Seq<char>>, n: Spanned<String>)
    requires
        walk_seq(items, st, f).0.contains(n),
    ensures
        mentions_seq(items, n),
    decreases items,
{
    if items.len() == 0 {
        let r = walk_seq(items, st, f).0;
        assert(r.len() == 0);
    } else {
        let rest = items.subrange(1, items.len() as int);
        let a = walk_spec(items[0], st, f);
        let b = walk_seq(rest, a.1, f);
        lemma_concat_contains(a.0, b.0, n);
        if a.0.contains(n) {
            law_walk_reports_only_uses(items[0], st, f, n);
        } else {
            law_walk_seq_reports_only_uses(rest, a.1, f, n);
        }
    }
}

proof fn lemma_concat_contains(a: Seq<Spanned<String>>, b: Seq<Spanned<String>>, n: Spanned<String>)
    ensures
        (a + b).contains(n) ==> a.contains(n) || b.contains(n),
{
    if (a + b).contains(n) {
        let i = choose|i: int| 0 <= i < (a + b).len() && (a + b)[i] == n;
        if i < a.len() {
            assert(a[i] == n);
        } else {
            assert(b[i - a.len()] == n);
        }
    }
}

/// The message for a name that nothing visible has.
pub open spec fn unknown_text(name: Seq<char>) -> Seq<char> {
    "unknown variable `"@ + name + "`"@
}

/// `d` reports the unknown name `n` at its span.
pub open spec fn reports(d: Diagnostic, n: Spanned<String>) -> bool {
    &&& d.span == (Span { start: n.start, end: n.end })
    &&& d.message@ == unknown_text(n.value@)
    &&& d.severity == Severity::Error
}

/// `after` is `before` followed by one report for each of `names`, in order.
pub open spec fn reported(after: Seq<Diagnostic>, before: Seq<Diagnostic>, names: Seq<Spanned<String>>) -> bool {
    &&& after.len() == before.len() + names.len()
    &&& after.subrange(0, before.len() as int) == before
    &&& forall|i: int| 0 <= i < names.len() ==> reports(#[trigger] after[before.len() + i], names[i])
}

proof fn lemma_reported_chain(a: Seq<Diagnostic>, b: Seq<Diagnostic>, c: Seq<Diagnostic>, x: Seq<Spanned<String>>, y: Seq<Spanned<String>>)
    requires
        reported(b, a, x),
        reported(c, b, y),
    ensures
        reported(c, a, x + y),
{
    assert(c.subrange(0, a.len() as int) =~= a) by {
        assert forall|i: int| 0 <= i < a.len() implies c[i] == a[i] by {
            assert(c.subrange(0, b.len() as int)[i] == b[i]);
            assert(b.subrange(0, a.len() as int)[i] == a[i]);
        }
    }
    assert forall|i: int| 0 <= i < (x + y).len() implies reports(#[trigger] c[a.len() + i], (x + y)[i]) by {
        if i < x.len() {
            assert(c.subrange(0, b.len() as int)[a.len() + i] == b[a.len() + i]);
            assert(reports(b[a.len() + i], x[i]));
        } else {
            assert(reports(c[b.len() + (i - x.len())], y[i - x.len()]));
        }
    }
}

proof fn lemma_reported_none(a: Seq<Diagnostic>)
    ensures
        reported(a, a, Seq::empty()),
{
    assert(a.subrange(0, a.len() as int) =~= a);
}

/// The functions as a set of names.
pub open spec fn name_set(funcs: Seq<String>) -> Set<Seq<char>> {
    Set::new(|k: Seq<char>| has_name(funcs, k))
}

fn diagnostic_from_error(err: &Spanned<KaonError>) -> (r: Diagnostic)
    ensures
        r.span == (Span { start: err.start, end: err.end }),
        r.message@ == error_text(err.value),
        r.severity == Severity::Error,
{
    Diagnostic {
        span: Span::new(err.start, err.end),
        message: err.value.message(),
        severity: Severity::Error,
    }
}

fn unknown_variable_diagnostic(name: &Spanned<String>) -> (r: Diagnostic)
    ensures
        reports(r, *name),
{
    let mut text: Vec<char> = Vec::new();
    push_str(&mut text, "unknown variable `");
    push_str(&mut text, name.value.as_str());
    push_str(&mut text, "`");
    Diagnostic {
        span: Span::new(name.start, name.end),
        message: chars_to_string(text.as_slice()),
        severity: Severity::Error,
    }
}

/// The frames below the innermost one are as they were, and there are as many.
pub open spec fn same_outer(a: Scope<()>, b: Scope<()>) -> bool {
    &&& a.wf()
    &&& a.frames().len() == b.frames().len()
    &&& a.frames().drop_last() == b.frames().drop_last()
}

proof fn lemma_same_frames(a: Scope<()>, b: Scope<()>)
    requires
        a.frames() == b.frames(),
    ensures
        name_state(a) == name_state(b),
{
    assert(name_state(a).0 =~= name_state(b).0);
    assert(name_state(a).1 =~= name_state(b).1);
}

/// Declares `name` in the innermost frame of `scope`.
fn declare_name(scope: &mut Scope<()>, name: &String)
    requires
        old(scope).wf(),
    ensures
        same_outer(*final(scope), *old(scope)),
        name_state(*final(scope)) == declare(name_state(*old(scope)), name@),
{
    scope.register(name.as_str(), ());
    proof {
        let a = name_state(*old(scope));
        let b = name_state(*scope);
        let d = declare(a, name@);
        assert(b.0 =~= d.0);
        if old(scope).frames().len() == 1 {
            assert(scope.frames()[0] == scope.frames().last());
            assert(old(scope).frames()[0] == old(scope).frames().last());
        } else {
            assert(scope.frames()[0] == scope.frames().drop_last()[0]);
            assert(old(scope).frames()[0] == old(scope).frames().drop_last()[0]);
        }
        assert(b.1 =~= d.1);
    }
}

/// Walks an expression, reporting into `out` every name used where
/// neither a visible variable nor one of `funcs` has it
fn walk(expr: &SpannedExpr, funcs: &Vec<String>, scope: &mut Scope<()>, out: &mut Vec<Diagnostic>)
    requires
        old(scope).wf(),
    ensures
        same_outer(*final(scope), *old(scope)),
        name_state(*final(scope)) == walk_spec(*expr, name_state(*old(scope)), name_set(funcs@)).1,
        reported(final(out)@, old(out)@, walk_spec(*expr, name_state(*old(scope)), name_set(funcs@)).0),
    decreases *expr,
{
    let ghost f = name_set(funcs@);
    let ghost st = name_state(*scope);
    match &*expr.value {
        Expr::Error(_) => {
            proof { lemma_reported_none(out@); }
        },
        Expr::Null | Expr::Literal(_) => {
            proof { lemma_reported_none(out@); }
        },

        Expr::List(items) => {
            walk_items(items, funcs, scope, out);
        },

        Expr::Let { name, body } => {
            walk(body, funcs, scope, out);
            declare_name(scope, &name.value);
        },

        Expr::Assign { name, body } => {
            walk(body, funcs, scope, out);
            let ghost mid = out@;
            if scope.get(name.value.as_str()).is_none() {
                out.push(unknown_variable_diagnostic(name));
                proof {
                    let n1 = seq![*name];
                    assert(reported(out@, mid, n1)) by {
                        assert(out@.subrange(0, mid.len() as int) =~= mid);
                        assert(out@[mid.len() as int] == out@.last());
                    }
                    lemma_reported_chain(old(out)@, mid, out@, walk_spec(*body, st, f).0, n1);
                }
            } else {
                proof {
                    assert(walk_spec(*body, st, f).0 + Seq::<Spanned<String>>::empty() =~= walk_spec(*body, st, f).0);
                }
            }
        },

        Expr::Local { name } => {
            let known = scope.get(name.value.as_str()).is_some() || holds_name(funcs, name.value.as_str());

            if !known {
                out.push(unknown_variable_diagnostic(name));
                proof {
                    assert(out@.subrange(0, old(out)@.len() as int) =~= old(out)@);
                    assert(out@[old(out)@.len() as int] == out@.last());
                }
            } else {
                proof { lemma_reported_none(out@); }
            }
        },

        Expr::UnaryOp { body, .. } => {
            walk(body, funcs, scope, out);
        },

        Expr::BinOp { left, right, .. } => {
            walk(left, funcs, scope, out);
            let ghost mid = out@;
            walk(right, funcs, scope, out);
            proof {
                let a = walk_spec(*left, st, f);
                lemma_reported_chain(old(out)@, mid, out@, a.0, walk_spec(*right, a.1, f).0);
            }
        },

        Expr::If { cond, then, else_ } => {
            walk(cond, funcs, scope, out);
            let ghost mid = out@;
            walk(then, funcs, scope, out);
            let ghost mid2 = out@;
            let ghost a = walk_spec(*cond, st, f);
            let ghost b = walk_spec(*then, a.1, f);
            proof {
                lemma_reported_chain(old(out)@, mid, mid2, a.0, b.0);
            }
            match else_ {
                Some(else_) => {
                    walk(else_, funcs, scope, out);
                    proof {
                        lemma_reported_chain(old(out)@, mid2, out@, a.0 + b.0, walk_spec(*else_, b.1, f).0);
                    }
                },
                None => {},
            }
        },

        Expr::For { name, iterator, body } => {
            walk(iterator, funcs, scope, out);
            let ghost mid = out@;
            let ghost a = walk_spec(*iterator, st, f);
            let ghost s1 = *scope;

            scope.push_frame();
            proof {
                assert(scope.frames()[0] == scope.frames().drop_last()[0]);
                assert(name_state(*scope).0 =~= enter(a.1).0);
                assert(name_state(*scope).1 =~= enter(a.1).1);
            }
            match name {
                Some(name) => {
                    declare_name(scope, &name.value);
                },
                None => {},
            }
            let ghost s2 = *scope;
            walk(body, funcs, scope, out);
            scope.pop_frame();
            proof {
                assert(scope.frames() =~= s1.frames());
                lemma_same_frames(*scope, s1);
                let inner = match name {
                    Some(n) => declare(enter(a.1), n.value@),
                    None => enter(a.1),
                };
                lemma_reported_chain(old(out)@, mid, out@, a.0, walk_spec(*body, inner, f).0);
            }
        },

        Expr::Func { args, body } => {
            let ghost s0 = *scope;
            scope.push_blocking_frame();
            proof {
                assert(scope.frames()[0] == scope.frames().drop_last()[0]);
                assert(name_state(*scope).0 =~= enter_blocking(st).0);
                assert(name_state(*scope).1 =~= enter_blocking(st).1);
                assert(name_state(*scope) == enter_blocking(st));
                assert(args@.subrange(0, args@.len() as int) =~= args@);
            }
            let mut i: usize = 0;
            while i < args.len()
                invariant
                    i <= args@.len(),
                    scope.wf(),
                    scope.frames().len() == s0.frames().len() + 1,
                    scope.frames().drop_last() == s0.frames(),
                    declare_all(name_state(*scope), args@.subrange(i as int, args@.len() as int))
                        == declare_all(enter_blocking(st), args@),
                decreases args.len() - i,
            {
                let ghost before = name_state(*scope);
                declare_name(scope, &args[i].value);
                proof {
                    let rest = args@.subrange(i as int, args@.len() as int);
                    assert(rest.subrange(1, rest.len() as int) =~= args@.subrange(i + 1, args@.len() as int));
                    assert(rest[0] == args@[i as int]);
                }
                i = i + 1;
            }
            proof {
                assert(args@.subrange(i as int, args@.len() as int) =~= Seq::<Spanned<String>>::empty());
            }
            walk(body, funcs, scope, out);
            scope.pop_frame();
            proof {
                assert(scope.frames() =~= s0.frames());
                lemma_same_frames(*scope, s0);
            }
        },

        Expr::Then { first, next } => {
            walk(first, funcs, scope, out);
            let ghost mid = out@;
            walk(next, funcs, scope, out);
            proof {
                let a = walk_spec(*first, st, f);
                lemma_reported_chain(old(out)@, mid, out@, a.0, walk_spec(*next, a.1, f).0);
            }
        },

        Expr::Block { body } => {
            let ghost s0 = *scope;
            scope.push_frame();
            proof {
                assert(scope.frames()[0] == scope.frames().drop_last()[0]);
                assert(name_state(*scope).0 =~= enter(st).0);
                assert(name_state(*scope).1 =~= enter(st).1);
            }
            walk(body, funcs, scope, out);
            scope.pop_frame();
            proof {
                assert(scope.frames() =~= s0.frames());
                lemma_same_frames(*scope, s0);
            }
        },

        Expr::Call { body, args } => {
            walk(body, funcs, scope, out);
            let ghost mid = out@;
            walk_items(args, funcs, scope, out);
            proof {
                let a = walk_spec(*body, st, f);
                lemma_reported_chain(old(out)@, mid, out@, a.0, walk_seq(args@, a.1, f).0);
            }
        },
    }
}

/// Walks the expressions one after another
fn walk_items(items: &Vec<SpannedExpr>, funcs: &Vec<String>, scope: &mut Scope<()>, out: &mut Vec<Diagnostic>)
    requires
        old(scope).wf(),
    ensures
        same_outer(*final(scope), *old(scope)),
        name_state(*final(scope)) == walk_seq(items@, name_state(*old(scope)), name_set(funcs@)).1,
        reported(final(out)@, old(out)@, walk_seq(items@, name_state(*old(scope)), name_set(funcs@)).0),
    decreases *items,
{
    let ghost f = name_set(funcs@);
    let ghost total = walk_seq(items@, name_state(*scope), f);
    let ghost mut done: Seq<Spanned<String>> = Seq::empty();
    proof {
        lemma_reported_none(out@);
        assert(items@.subrange(0, items@.len() as int) =~= items@);
        assert(done + total.0 =~= total.0);
    }
    let mut i: usize = 0;
    while i < items.len()
        invariant
            i <= items@.len(),
            same_outer(*scope, *old(scope)),
            reported(out@, old(out)@, done),
            total == walk_seq(items@, name_state(*old(scope)), f),
            f == name_set(funcs@),
            total.0 == done + walk_seq(items@.subrange(i as int, items@.len() as int), name_state(*scope), f).0,
            total.1 == walk_seq(items@.subrange(i as int, items@.len() as int), name_state(*scope), f).1,
        decreases items.len() - i,
    {
        let ghost before = out@;
        let ghost st = name_state(*scope);
        let ghost rest = items@.subrange(i as int, items@.len() as int);
        proof {
            assert(decreases_to!(*items => items@[i as int]));
        }
        walk(&items[i], funcs, scope, out);
        proof {
            assert(rest[0] == items@[i as int]);
            assert(rest.subrange(1, rest.len() as int) =~= items@.subrange(i + 1, items@.len() as int));
            let a = walk_spec(items@[i as int], st, f);
            lemma_reported_chain(old(out)@, before, out@, done, a.0);
            assert(done + walk_seq(rest, st, f).0 =~= (done + a.0)
                + walk_seq(items@.subrange(i + 1, items@.len() as int), name_state(*scope), f).0);
            done = done + a.0;
        }
        i = i + 1;
    }
    proof {
        assert(items@.subrange(i as int, items@.len() as int) =~= Seq::<SpannedExpr>::empty());
        assert(done + Seq::<Spanned<String>>::empty() =~= done);
    }
}

/// `r` are the diagnostics of the parsed line `tree` with the problems
/// `errors`: one for each problem, in order, then one for each name used
/// where neither a variable of `scope` (or one the line declares before)
/// nor one of `funcs` has it.
pub open spec fn checked<V>(r: Seq<Diagnostic>, tree: SpannedExpr, errors: Seq<Spanned<KaonError>>, funcs: Seq<String>,
    scope: Scope<V>) -> bool {
    &&& r.len() >= errors.len()
    &&& forall|i: int| 0 <= i < errors.len() ==> {
        &&& (#[trigger] r[i]).span == (Span { start: errors[i].start, end: errors[i].end })
        &&& r[i].message@ == error_text(errors[i].value)
        &&& r[i].severity == Severity::Error
    }
    &&& exists|s: Scope<()>| {
        &&& #[trigger] s.wf()
        &&& forall|k: Seq<char>| (#[trigger] s.lookup(k) is Some) == (scope.lookup(k) is Some)
        &&& forall|k: Seq<char>| (#[trigger] s.frames()[0].get_spec(k) is Some) == (scope.frames()[0].get_spec(k) is Some)
        &&& s.frames().len() == scope.frames().len()
        &&& reported(r, r.subrange(0, errors.len() as int), walk_spec(tree, name_state(s), name_set(funcs)).0)
    }
}

/// The diagnostics for a parsed line: the parse problems, then every name
/// used where neither a variable of `scope` (or one the line declares
/// before) nor one of `funcs` has it. `scope` itself is left as it is.
pub fn check_parsed<V>(tree: &SpannedExpr, errors: &Vec<Spanned<KaonError>>, funcs: &Vec<String>, scope: &Scope<V>) -> (r: Vec<Diagnostic>)
    requires
        scope.wf(),
    ensures
        checked(r@, *tree, errors@, funcs@, *scope),
{
    let mut diagnostics: Vec<Diagnostic> = Vec::new();
    let mut i: usize = 0;
    while i < errors.len()
        invariant
            i <= errors@.len(),
            diagnostics@.len() == i,
            forall|j: int| 0 <= j < i ==> {
                &&& (#[trigger] diagnostics@[j]).span == (Span { start: errors@[j].start, end: errors@[j].end })
                &&& diagnostics@[j].message@ == error_text(errors@[j].value)
                &&& diagnostics@[j].severity == Severity::Error
            },
        decreases errors.len() - i,
    {
        diagnostics.push(diagnostic_from_error(&errors[i]));
        i = i + 1;
    }

    let mut names = scope.outline();
    let ghost s = names;
    let ghost before = diagnostics@;
    walk(tree, funcs, &mut names, &mut diagnostics);
    proof {
        assert(diagnostics@.subrange(0, errors@.len() as int) == before);
        assert forall|j: int| 0 <= j < errors@.len() implies #[trigger] diagnostics@[j] == before[j] by {
            assert(diagnostics@.subrange(0, before.len() as int)[j] == diagnostics@[j]);
        }
        assert(s.wf());
    }

    diagnostics
}

/// The diagnostics for a line of source: the lex problem if it does not
/// lex, else those of the parsed line (see [`check_parsed`])
pub fn check_line<V>(ops: &OpRegistry, funcs: &Vec<String>, source: &str, scope: &Scope<V>) -> (r: Vec<Diagnostic>)
    requires
        lex_from(source@, *ops, 0) !is Overflow,
        precedences_bounded(ops),
        scope.wf(),
    ensures
        match lex_from(source@, *ops, 0) {
            LexOutcome::Failed(a, b, e) => {
                &&& r@.len() == 1
                &&& r@[0].span.start == a
                &&& r@[0].span.end == b
                &&& r@[0].message@ == error_text(e)
                &&& r@[0].severity == Severity::Error
            },
            LexOutcome::Tokens(ts) => {
                &&& ts.len() == 0 ==> r@.len() == 0
                &&& exists|toks: Seq<Spanned<Token>>, tree: SpannedExpr, errs: Seq<Spanned<KaonError>>|
                    #![trigger tokens_view(toks), checked(r@, tree, errs, funcs@, *scope)]
                    {
                        &&& tokens_view(toks) == ts
                        &&& (sexpr_view(tree), errs_view(errs)) == recovered(toks, *ops)
                        &&& checked(r@, tree, errs, funcs@, *scope)
                    }
            },
            LexOutcome::Overflow => false,
        },
{
    let tokens = match Lexer::lex(source, ops) {
        Ok(tokens) => tokens,
        Err(err) => {
            let mut r = Vec::new();
            r.push(diagnostic_from_error(&err));
            return r;
        },
    };

    let (tree, errors) = Parser::parse_recovering(ops, tokens.as_slice());

    let r = check_parsed(&tree, &errors, funcs, scope);
    proof {
        assert(tokens_view(tokens@) == tokens_view(tokens@) && checked(r@, tree, errors@, funcs@, *scope));
    }
    r
}

} // verus!

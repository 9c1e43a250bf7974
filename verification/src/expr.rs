//! The syntax tree of kaon programs.
use vstd::prelude::*;
use crate::spanned::Spanned;
use crate::value::Value;
use crate::error::{KaonError, ErrorView};

verus! {

pub type SpannedExpr = Spanned<Box<Expr>>;

#[derive(Debug, PartialEq)]
pub enum Expr {
    Null,
    Literal(Value),

    Error(Spanned<KaonError>),

    List(Vec<SpannedExpr>),

    Let { name: Spanned<String>, body: SpannedExpr },

    Assign { name: Spanned<String>, body: SpannedExpr },

    Local { name: Spanned<String> },

    UnaryOp { op: String, body: SpannedExpr },

    BinOp { left: SpannedExpr, op: String, right: SpannedExpr },

    If { cond: SpannedExpr, then: SpannedExpr, else_: Option<SpannedExpr> },

    For { name: Option<Spanned<String>>, iterator: SpannedExpr, body: SpannedExpr },

    Func { args: Vec<Spanned<String>>, body: SpannedExpr },

    Then { first: SpannedExpr, next: SpannedExpr },

    Block { body: SpannedExpr },

    Call { body: SpannedExpr, args: Vec<SpannedExpr> },
}

/// A name with its span, its text as chars
pub struct NameView {
    pub start: usize,
    pub end: usize,
    pub name: Seq<char>,
}

/// An error with its span
pub struct ErrView {
    pub start: usize,
    pub end: usize,
    pub err: ErrorView,
}

/// A syntax tree with its span, its texts as chars
pub struct SExprView {
    pub start: usize,
    pub end: usize,
    pub expr: ExprView,
}

/// What an [`Expr`] holds, its texts as chars and its children as views
pub enum ExprView {
    Null,
    Literal(Value),
    Error(ErrView),
    List(Seq<SExprView>),
    Let { name: NameView, body: Box<SExprView> },
    Assign { name: NameView, body: Box<SExprView> },
    Local { name: NameView },
    UnaryOp { op: Seq<char>, body: Box<SExprView> },
    BinOp { left: Box<SExprView>, op: Seq<char>, right: Box<SExprView> },
    If { cond: Box<SExprView>, then: Box<SExprView>, else_: Option<Box<SExprView>> },
    For { name: Option<NameView>, iterator: Box<SExprView>, body: Box<SExprView> },
    Func { args: Seq<NameView>, body: Box<SExprView> },
    Then { first: Box<SExprView>, next: Box<SExprView> },
    Block { body: Box<SExprView> },
    Call { body: Box<SExprView>, args: Seq<SExprView> },
}

/// The view of a spanned name
pub open spec fn name_view(n: Spanned<String>) -> NameView {
    NameView { start: n.start, end: n.end, name: n.value@ }
}

/// The view of a spanned error
pub open spec fn err_view(e: Spanned<KaonError>) -> ErrView {
    ErrView { start: e.start, end: e.end, err: e.value@ }
}

/// The views of spanned names
pub open spec fn names_view(s: Seq<Spanned<String>>) -> Seq<NameView> {
    Seq::new(s.len(), |i: int| name_view(s[i]))
}

/// The view of a spanned syntax tree
pub open spec fn sexpr_view(e: SpannedExpr) -> SExprView
    decreases e,
{
    SExprView { start: e.start, end: e.end, expr: expr_view(*e.value) }
}

/// The views of spanned syntax trees, in order
pub open spec fn sexprs_view(s: Seq<SpannedExpr>) -> Seq<SExprView>
    decreases s,
{
    Seq::new(s.len(), |i: int| if 0 <= i < s.len() { sexpr_view(s[i]) } else { SExprView { start: 0, end: 0, expr: ExprView::Null } })
}

/// The view of a syntax tree
pub open spec fn expr_view(e: Expr) -> ExprView
    decreases e,
{
    match e {
        Expr::Null => ExprView::Null,
        Expr::Literal(v) => ExprView::Literal(v),
        Expr::Error(err) => ExprView::Error(err_view(err)),
        Expr::List(v) => ExprView::List(sexprs_view(v@)),
        Expr::Let { name, body } => ExprView::Let { name: name_view(name), body: Box::new(sexpr_view(body)) },
        Expr::Assign { name, body } => ExprView::Assign { name: name_view(name), body: Box::new(sexpr_view(body)) },
        Expr::Local { name } => ExprView::Local { name: name_view(name) },
        Expr::UnaryOp { op, body } => ExprView::UnaryOp { op: op@, body: Box::new(sexpr_view(body)) },
        Expr::BinOp { left, op, right } => ExprView::BinOp {
            left: Box::new(sexpr_view(left)),
            op: op@,
            right: Box::new(sexpr_view(right)),
        },
        Expr::If { cond, then, else_ } => ExprView::If {
            cond: Box::new(sexpr_view(cond)),
            then: Box::new(sexpr_view(then)),
            else_: match else_ {
                Some(x) => Some(Box::new(sexpr_view(x))),
                None => None,
            },
        },
        Expr::For { name, iterator, body } => ExprView::For {
            name: match name {
                Some(n) => Some(name_view(n)),
                None => None,
            },
            iterator: Box::new(sexpr_view(iterator)),
            body: Box::new(sexpr_view(body)),
        },
        Expr::Func { args, body } => ExprView::Func { args: names_view(args@), body: Box::new(sexpr_view(body)) },
        Expr::Then { first, next } => ExprView::Then { first: Box::new(sexpr_view(first)), next: Box::new(sexpr_view(next)) },
        Expr::Block { body } => ExprView::Block { body: Box::new(sexpr_view(body)) },
        Expr::Call { body, args } => ExprView::Call { body: Box::new(sexpr_view(body)), args: sexprs_view(args@) },
    }
}

impl Expr {
    /// Reports whether a trailing `;` is optional after this expr in a statement sequence
    pub fn ends_in_block(&self) -> (r: bool)
        ensures
            r == (self is If || self is For || self is Block),
            r == (expr_view(*self) is If || expr_view(*self) is For || expr_view(*self) is Block),
    {
        match self {
            Expr::If { .. } | Expr::For { .. } | Expr::Block { .. } => true,
            _ => false,
        }
    }
}

} // verus!

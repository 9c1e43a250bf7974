//! The recursive-descent parser from tokens to a syntax tree, with
//! operator precedence from the registry and recovery at `;`.
use vstd::prelude::*;
use crate::error::KaonError;
use crate::expr::{Expr, ExprView, SpannedExpr, SExprView, ErrView, NameView, sexpr_view, sexprs_view, err_view, name_view, names_view};
use crate::op_registry::OpRegistry;
use crate::spanned::Spanned;
use crate::text::str_eq;
use crate::token::{Token, TokenView};
use crate::value::Value;
use crate::parse::model::{
    PState, recovered, statements, fold_left, fold_right, tree_at_token, expect_advance_step, skip_step,
    open_step, close_step, skip_semi, ident_step, args_loop, fn_args_step, expr_step, expr_inner_step, let_step,
    else_step, if_step, for_name_step, for_step, binary_step, binary_loop, unary_step, postfix_step, postfix_loop,
    atom_step, func_step, paren_step, list_step, separated_step, separated_loop, block_items_step,
    block_items_loop, block_step, wanted_here, err_at_saved, tok_at,
};

pub mod model;

verus! {

/// The result of parsing an expression
pub type ExprResult = Result<SpannedExpr, Spanned<KaonError>>;

/// What parsing the tokens gives: the first problem that recovering parsing
/// reports, or its tree when it reports none
pub open spec fn parsed(ts: Seq<Spanned<Token>>, reg: OpRegistry) -> Result<SExprView, ErrView> {
    let (tree, diags) = recovered(ts, reg);
    if diags.len() == 0 {
        Ok(tree)
    } else {
        Err(diags[0])
    }
}

/// Parsing fails exactly when recovering parsing reports a problem, with the
/// first one it reports, and otherwise gives the tree recovering parsing
/// builds; no tokens parse, with no problem, to a null expression at 0.
pub proof fn law_parse_agrees_with_recovering(ts: Seq<Spanned<Token>>, reg: OpRegistry)
    ensures
        (parsed(ts, reg) is Ok) <==> recovered(ts, reg).1.len() == 0,
        parsed(ts, reg) is Ok ==> parsed(ts, reg) == Ok::<SExprView, ErrView>(recovered(ts, reg).0),
        parsed(ts, reg) is Err ==> parsed(ts, reg) == Err::<SExprView, ErrView>(recovered(ts, reg).1[0]),
        ts.len() == 0 ==> recovered(ts, reg).1.len() == 0
            && parsed(ts, reg) == Ok::<SExprView, ErrView>(SExprView { start: 0, end: 0, expr: ExprView::Null }),
{
}

/// Every binary operator of the registry has a precedence below the
/// largest `u16`, so that the precedence one above it exists.
pub open spec fn precedences_bounded(registry: &OpRegistry) -> bool {
    forall|k: Seq<char>| #[trigger] registry.binary_spec(k) is Some ==> registry.binary_spec(k).unwrap().1 < u16::MAX
}

/// The view of a parsed expression or of the error it stopped at
pub open spec fn result_view(r: ExprResult) -> Result<SExprView, ErrView> {
    match r {
        Ok(e) => Ok(sexpr_view(e)),
        Err(e) => Err(err_view(e)),
    }
}

/// The views of spanned errors, in order
pub open spec fn errs_view(s: Seq<Spanned<KaonError>>) -> Seq<ErrView> {
    Seq::new(s.len(), |i: int| err_view(s[i]))
}

/// The view of a step that yields nothing or an error
pub open spec fn unit_view(r: Result<(), Spanned<KaonError>>) -> Result<(), ErrView> {
    match r {
        Ok(_) => Ok(()),
        Err(e) => Err(err_view(e)),
    }
}

/// The view of an optional expression or an error
pub open spec fn opt_view(r: Result<Option<SpannedExpr>, Spanned<KaonError>>) -> Result<Option<SExprView>, ErrView> {
    match r {
        Ok(Some(e)) => Ok(Some(sexpr_view(e))),
        Ok(None) => Ok(None),
        Err(e) => Err(err_view(e)),
    }
}

/// The view of an optional name or an error
pub open spec fn opt_name_view(r: Result<Option<Spanned<String>>, Spanned<KaonError>>) -> Result<Option<NameView>, ErrView> {
    match r {
        Ok(Some(n)) => Ok(Some(name_view(n))),
        Ok(None) => Ok(None),
        Err(e) => Err(err_view(e)),
    }
}

/// The view of a list of expressions or an error
pub open spec fn items_view(r: Result<Vec<SpannedExpr>, Spanned<KaonError>>) -> Result<Seq<SExprView>, ErrView> {
    match r {
        Ok(v) => Ok(sexprs_view(v@)),
        Err(e) => Err(err_view(e)),
    }
}

/// The view of a list of expressions with a flag, or an error
pub open spec fn flagged_view(r: Result<(Vec<SpannedExpr>, bool), Spanned<KaonError>>) -> Result<(Seq<SExprView>, bool), ErrView> {
    match r {
        Ok((v, b)) => Ok((sexprs_view(v@), b)),
        Err(e) => Err(err_view(e)),
    }
}

/// The view of a list of names or an error
pub open spec fn names_result_view(r: Result<Vec<Spanned<String>>, Spanned<KaonError>>) -> Result<Seq<NameView>, ErrView> {
    match r {
        Ok(v) => Ok(names_view(v@)),
        Err(e) => Err(err_view(e)),
    }
}

proof fn lemma_sexprs_push(s: Seq<SpannedExpr>, x: SpannedExpr)
    ensures
        sexprs_view(s.push(x)) == sexprs_view(s).push(sexpr_view(x)),
{
    assert(sexprs_view(s.push(x)) =~= sexprs_view(s).push(sexpr_view(x)));
}

proof fn lemma_errs_push(s: Seq<Spanned<KaonError>>, x: Spanned<KaonError>)
    ensures
        errs_view(s.push(x)) == errs_view(s).push(err_view(x)),
{
    assert(errs_view(s.push(x)) =~= errs_view(s).push(err_view(x)));
}

proof fn lemma_names_push(s: Seq<Spanned<String>>, x: Spanned<String>)
    ensures
        names_view(s.push(x)) == names_view(s).push(name_view(x)),
{
    assert(names_view(s.push(x)) =~= names_view(s).push(name_view(x)));
}

pub struct Parser<'src> {
    tokens: &'src [Spanned<Token>],

    start: bool,
    cursor: usize,

    checkpoints: Vec<usize>,

    registry: &'src OpRegistry,
}

impl<'src> Parser<'src> {
    /// The parser stands on a token, after its first step, and every saved
    /// position is a token too.
    spec fn wf(&self) -> bool {
        &&& self.tokens@.len() > 0
        &&& self.cursor < self.tokens@.len()
        &&& !self.start
        &&& forall|i: int| 0 <= i < self.checkpoints@.len() ==> #[trigger] self.checkpoints@[i] < self.tokens@.len()
        &&& precedences_bounded(self.registry)
    }

    /// `next` is a well-formed state of the parser `prev` over the same tokens and operators.
    spec fn kept(prev: &Parser<'src>, next: &Parser<'src>) -> bool {
        &&& next.wf()
        &&& next.tokens == prev.tokens
        &&& next.registry == prev.registry
    }

    /// Where the parser stands
    spec fn pstate(&self) -> PState {
        PState { cursor: self.cursor as int, cps: self.checkpoints@ }
    }

    /// Parses the tokens into one expression, failing with the first
    /// problem found
    pub fn parse(registry: &OpRegistry, tokens: &'src [Spanned<Token>]) -> (r: ExprResult)
        requires
            precedences_bounded(registry),
        ensures
            result_view(r) == parsed(tokens@, *registry),
            tokens@.len() == 0 ==> (r matches Ok(e) && e.start == 0 && e.end == 0 && *e.value == Expr::Null),
    {
        let (tree, diagnostics) = Self::parse_recovering(registry, tokens);
        first_diagnostic(tree, diagnostics)
    }

    /// Parses the tokens into one expression, going on after each broken
    /// statement, which becomes an error node, and reporting every problem
    pub fn parse_recovering(registry: &OpRegistry, tokens: &'src [Spanned<Token>]) -> (r: (SpannedExpr, Vec<Spanned<KaonError>>))
        requires
            precedences_bounded(registry),
        ensures
            (sexpr_view(r.0), errs_view(r.1@)) == recovered(tokens@, *registry),
            tokens@.len() == 0 ==> r.0.start == 0 && r.0.end == 0 && *r.0.value == Expr::Null && r.1@.len() == 0,
    {
        if tokens.len() == 0 {
            let r = (Spanned::new(0, 0, Box::new(Expr::Null)), Vec::new());
            assert(errs_view(r.1@) =~= Seq::<ErrView>::empty());
            return r;
        }

        let mut parser = Parser {
            tokens,

            start: true,
            cursor: 0,

            checkpoints: Vec::new(),

            registry,
        };

        parser.advance();
        assert(parser.pstate() == PState { cursor: 0, cps: Seq::<usize>::empty() });

        parser.exprs_recovering()
    }

    fn advance(&mut self) -> (r: bool)
        requires
            old(self).cursor < old(self).tokens@.len(),
        ensures
            final(self).tokens == old(self).tokens,
            final(self).registry == old(self).registry,
            final(self).checkpoints == old(self).checkpoints,
            !final(self).start,
            if old(self).start {
                r && final(self).cursor == old(self).cursor
            } else if old(self).cursor + 1 >= old(self).tokens@.len() {
                !r && final(self).cursor == old(self).cursor
            } else {
                r && final(self).cursor == old(self).cursor + 1
            },
    {
        if self.start {
            self.start = false;
            return true;
        }

        if self.cursor >= self.tokens.len() - 1 {
            return false;
        }

        self.cursor = self.cursor + 1;

        true
    }

    fn expect_advance(&mut self, label: &str) -> (r: Result<(), Spanned<KaonError>>)
        requires
            old(self).wf(),
        ensures
            Self::kept(old(self), final(self)),
            final(self).checkpoints@ == old(self).checkpoints@,
            r is Ok <==> old(self).cursor + 1 < old(self).tokens@.len(),
            r is Ok ==> final(self).cursor == old(self).cursor + 1,
            r is Err ==> final(self).cursor == old(self).cursor,
            (final(self).pstate(), unit_view(r)) == expect_advance_step(old(self).tokens@, old(self).pstate(), label@),
    {
        self.checkpoint();

        if !self.advance() {
            self.restore_checkpoint();

            return Err(self.create_checkpoint(KaonError::ExpectedFoundEOF(label.to_owned())));
        }

        self.remove_checkpoint();

        Ok(())
    }

    fn skip(&mut self, tok: &Token, after_label: &str) -> (r: Result<(), Spanned<KaonError>>)
        requires
            old(self).wf(),
        ensures
            Self::kept(old(self), final(self)),
            final(self).checkpoints@ == old(self).checkpoints@,
            r is Ok ==> final(self).cursor == old(self).cursor + 2,
            (final(self).pstate(), unit_view(r)) == skip_step(old(self).tokens@, old(self).pstate(), tok@, after_label@),
    {
        let label = tok.describe();
        self.expect_advance(label.as_str())?;

        self.expect(tok)?;

        self.expect_advance(after_label)?;

        Ok(())
    }

    fn expect(&self, tok: &Token) -> (r: Result<(), Spanned<KaonError>>)
        requires
            self.wf(),
        ensures
            r is Ok <==> self.tokens@[self.cursor as int].value@ == tok@,
            r matches Err(e) ==> err_view(e) == wanted_here(self.tokens@, self.pstate(), crate::token::token_text(tok@)),
    {
        if !(*self.get() == *tok) {
            return Err(
                self.create_checkpoint(KaonError::Expected(tok.describe(), self.get().describe()))
            );
        }

        Ok(())
    }

    fn back(&mut self)
        requires
            old(self).cursor > 0,
        ensures
            final(self).cursor == old(self).cursor - 1,
            final(self).tokens == old(self).tokens,
            final(self).registry == old(self).registry,
            final(self).checkpoints == old(self).checkpoints,
            final(self).start == old(self).start,
    {
        self.cursor = self.cursor - 1;
    }

    fn checkpoint(&mut self)
        ensures
            final(self).checkpoints@ == old(self).checkpoints@.push(old(self).cursor),
            final(self).checkpoints@.drop_last() == old(self).checkpoints@,
            final(self).checkpoints@.len() > 0,
            final(self).checkpoints@.last() == old(self).cursor,
            final(self).cursor == old(self).cursor,
            final(self).tokens == old(self).tokens,
            final(self).registry == old(self).registry,
            final(self).start == old(self).start,
    {
        self.checkpoints.push(self.cursor);
        assert(self.checkpoints@.drop_last() =~= old(self).checkpoints@);
    }

    fn remove_checkpoint(&mut self)
        ensures
            final(self).checkpoints@ == if old(self).checkpoints@.len() > 0 {
                old(self).checkpoints@.drop_last()
            } else {
                old(self).checkpoints@
            },
            final(self).cursor == old(self).cursor,
            final(self).tokens == old(self).tokens,
            final(self).registry == old(self).registry,
            final(self).start == old(self).start,
    {
        self.checkpoints.pop();
    }

    fn restore_checkpoint(&mut self)
        ensures
            final(self).checkpoints@ == if old(self).checkpoints@.len() > 0 {
                old(self).checkpoints@.drop_last()
            } else {
                old(self).checkpoints@
            },
            final(self).cursor == if old(self).checkpoints@.len() > 0 {
                old(self).checkpoints@.last()
            } else {
                old(self).cursor
            },
            final(self).tokens == old(self).tokens,
            final(self).registry == old(self).registry,
            final(self).start == old(self).start,
    {
        match self.checkpoints.pop() {
            Some(cursor) => {
                self.cursor = cursor;
            },
            None => {},
        }
    }

    /// The value spanning the token the parser stands on
    fn create<T>(&self, value: T) -> (r: Spanned<T>)
        requires
            self.cursor < self.tokens@.len(),
        ensures
            r.start == self.tokens@[self.cursor as int].start,
            r.end == self.tokens@[self.cursor as int].end,
            r.value == value,
    {
        Spanned::new(
            self.tokens[self.cursor].start,
            self.tokens[self.cursor].end,
            value,
        )
    }

    /// The value spanning from the last saved position to the token the
    /// parser stands on
    fn create_checkpoint<T>(&self, value: T) -> (r: Spanned<T>)
        requires
            self.wf(),
        ensures
            r.start == self.tokens@[if self.checkpoints@.len() > 0 { self.checkpoints@.last() as int } else { self.cursor as int }].start,
            r.end == self.tokens@[self.cursor as int].end,
            r.value == value,
    {
        let len = self.checkpoints.len();
        let from = if len > 0 { self.checkpoints[len - 1] } else { self.cursor };
        Spanned::new(
            self.tokens[from].start,
            self.tokens[self.cursor].end,
            value,
        )
    }

    fn expected(&self, label: &str, found: &Token) -> (r: Spanned<KaonError>)
        requires
            self.wf(),
        ensures
            err_view(r) == err_at_saved(self.tokens@, self.pstate(),
                crate::error::ErrorView::Expected(label@, crate::token::token_text(found@))),
    {
        self.create_checkpoint(KaonError::Expected(label.to_owned(), found.describe()))
    }

    fn get(&self) -> (r: &Token)
        requires
            self.cursor < self.tokens@.len(),
        ensures
            *r == self.tokens@[self.cursor as int].value,
    {
        &self.tokens[self.cursor].value
    }

    /// The opening of a bracketed construct: saves the position, which
    /// stays saved, checks for `start` and steps past it
    fn open_wrapped(&mut self, start: &Token, label: &str) -> (r: Result<(), Spanned<KaonError>>)
        requires
            old(self).wf(),
        ensures
            Self::kept(old(self), final(self)),
            final(self).checkpoints@ == old(self).checkpoints@.push(old(self).cursor),
            r is Ok ==> final(self).cursor == old(self).cursor + 1,
            (final(self).pstate(), unit_view(r)) == open_step(old(self).tokens@, old(self).pstate(), start@, label@),
    {
        self.checkpoint();

        if !(*self.get() == *start) {
            return Err(
                self.create_checkpoint(KaonError::Expected(start.describe(), self.get().describe()))
            );
        }

        if !self.advance() {
            return Err(self.create_checkpoint(KaonError::ExpectedFoundEOF(label.to_owned())));
        }
        Ok(())
    }

    /// The closing of a bracketed construct: steps onto `end` and checks it
    fn close_wrapped(&mut self, end: &Token) -> (r: Result<(), Spanned<KaonError>>)
        requires
            old(self).wf(),
        ensures
            Self::kept(old(self), final(self)),
            final(self).checkpoints@ == old(self).checkpoints@,
            r is Ok ==> final(self).cursor == old(self).cursor + 1,
            (final(self).pstate(), unit_view(r)) == close_step(old(self).tokens@, old(self).pstate(), end@),
    {
        if !self.advance() {
            return Err(self.create_checkpoint(KaonError::ExpectedFoundEOF(end.describe())));
        }

        if !(*self.get() == *end) {
            return Err(
                self.create_checkpoint(KaonError::Expected(end.describe(), self.get().describe()))
            );
        }

        Ok(())
    }

    fn exprs_recovering(&mut self) -> (r: (SpannedExpr, Vec<Spanned<KaonError>>))
        requires
            old(self).wf(),
        ensures
            ({
                let g = statements(old(self).tokens@, *old(self).registry, old(self).pstate(), Seq::empty(), Seq::empty());
                let items = if g.3 { g.1.push(tree_at_token(old(self).tokens@, g.0, ExprView::Literal(Value::Null))) } else { g.1 };
                sexpr_view(r.0) == fold_right(items) && errs_view(r.1@) == g.2
            }),
    {
        let mut diagnostics: Vec<Spanned<KaonError>> = Vec::new();
        let mut items: Vec<SpannedExpr> = Vec::new();
        let mut trailing = false;
        let ghost tokens = self.tokens;
        let ghost registry = self.registry;
        let ghost goal = statements(tokens@, *registry, self.pstate(), Seq::empty(), Seq::empty());
        proof {
            assert(sexprs_view(items@) =~= Seq::<SExprView>::empty());
            assert(errs_view(diagnostics@) =~= Seq::<ErrView>::empty());
        }

        loop
            invariant_except_break
                !trailing,
                statements(tokens@, *registry, self.pstate(), sexprs_view(items@), errs_view(diagnostics@)) == goal,
            invariant
                self.wf(),
                self.tokens == tokens,
                self.registry == registry,
            ensures
                self.wf(),
                self.tokens == tokens,
                items@.len() > 0,
                goal == (self.pstate(), sexprs_view(items@), errs_view(diagnostics@), trailing),
            decreases self.tokens@.len() - self.cursor,
        {
            let stmt_start = self.cursor;
            let mut optional_semi = false;

            match self.expr() {
                Ok(item) => {
                    optional_semi = item.value.ends_in_block();
                    proof {
                        lemma_sexprs_push(items@, item);
                    }
                    items.push(item);
                },
                Err(err) => {
                    self.cursor = stmt_start;
                    let end = self.skip_to_semicolon();

                    let copy = Spanned::new(err.start, err.end, err.value.duplicate());
                    let node = Spanned::new(
                        self.tokens[stmt_start].start,
                        end,
                        Box::new(Expr::Error(copy)),
                    );
                    proof {
                        lemma_sexprs_push(items@, node);
                        lemma_errs_push(diagnostics@, err);
                    }
                    items.push(node);
                    diagnostics.push(err);
                },
            }

            if !self.advance() {
                break;
            }

            if !(*self.get() == Token::Ctrl(';')) {
                if optional_semi {
                    continue;
                }

                let d = self.create(KaonError::Expected(
                    Token::Ctrl(';').describe(),
                    self.get().describe(),
                ));
                proof {
                    lemma_errs_push(diagnostics@, d);
                }
                diagnostics.push(d);
                continue;
            }

            if !self.advance() {
                trailing = true;
                break;
            }
        }

        if trailing {
            let n = self.create(Box::new(Expr::Literal(Value::Null)));
            proof {
                lemma_sexprs_push(items@, n);
            }
            items.push(n);
        }

        let acc = join_right(items);

        (acc, diagnostics)
    }

    fn skip_to_semicolon(&mut self) -> (r: usize)
        requires
            old(self).wf(),
        ensures
            Self::kept(old(self), final(self)),
            final(self).checkpoints == old(self).checkpoints,
            final(self).cursor >= old(self).cursor,
            final(self).pstate() == skip_semi(old(self).tokens@, old(self).pstate()),
            r == final(self).tokens@[final(self).cursor as int].end,
    {
        loop
            invariant
                Self::kept(old(self), self),
                self.checkpoints == old(self).checkpoints,
                self.cursor >= old(self).cursor,
                skip_semi(self.tokens@, self.pstate()) == skip_semi(old(self).tokens@, old(self).pstate()),
            ensures
                Self::kept(old(self), self),
                self.checkpoints == old(self).checkpoints,
                self.cursor >= old(self).cursor,
                self.pstate() == skip_semi(old(self).tokens@, old(self).pstate()),
            decreases self.tokens@.len() - self.cursor,
        {
            if self.cursor >= self.tokens.len() - 1 {
                break;
            }

            if self.tokens[self.cursor + 1].value == Token::Ctrl(';') {
                break;
            }

            self.cursor = self.cursor + 1;
        }

        self.tokens[self.cursor].end
    }

    fn expr(&mut self) -> (r: ExprResult)
        requires
            old(self).wf(),
        ensures
            Self::kept(old(self), final(self)),
            r is Ok ==> final(self).cursor >= old(self).cursor,
            (final(self).pstate(), result_view(r)) == expr_step(old(self).tokens@, *old(self).registry, old(self).pstate()),
        decreases old(self).tokens@.len() - old(self).cursor, 9nat,
    {
        self.checkpoint();

        let out = self.expr_inner();

        self.remove_checkpoint();

        out
    }

    fn expr_inner(&mut self) -> (r: ExprResult)
        requires
            old(self).wf(),
        ensures
            Self::kept(old(self), final(self)),
            r is Ok ==> final(self).cursor >= old(self).cursor,
            (final(self).pstate(), result_view(r)) == expr_inner_step(old(self).tokens@, *old(self).registry, old(self).pstate()),
        decreases old(self).tokens@.len() - old(self).cursor, 8nat,
    {
        match self.get() {
            Token::Let => self.let_expr(),
            Token::If => self.if_expr(),
            Token::For => self.for_expr(),
            _ => self.binary(0),
        }
    }

    /// `let name = body`
    fn let_expr(&mut self) -> (r: ExprResult)
        requires
            old(self).wf(),
        ensures
            Self::kept(old(self), final(self)),
            r is Ok ==> final(self).cursor >= old(self).cursor,
            (final(self).pstate(), result_view(r)) == let_step(old(self).tokens@, *old(self).registry, old(self).pstate()),
        decreases old(self).tokens@.len() - old(self).cursor, 7nat,
    {
        self.expect_advance("name")?;

        let name = match self.get() {
            Token::Ident(name) => name.clone(),
            _ => {
                return Err(self.expected("name", self.get()));
            },
        };
        let name = self.create(name);

        let eq = Token::Op("=".to_owned());
        self.skip(&eq, "expr")?;

        let body = self.expr()?;

        Ok(self.create_checkpoint(Box::new(Expr::Let { name, body })))
    }

    /// `if cond { .. }`, with an `else` part where one follows
    fn if_expr(&mut self) -> (r: ExprResult)
        requires
            old(self).wf(),
        ensures
            Self::kept(old(self), final(self)),
            r is Ok ==> final(self).cursor >= old(self).cursor,
            (final(self).pstate(), result_view(r)) == if_step(old(self).tokens@, *old(self).registry, old(self).pstate()),
        decreases old(self).tokens@.len() - old(self).cursor, 7nat,
    {
        self.expect_advance("condition")?;
        let cond = self.binary(0)?;

        self.expect_advance("block")?;
        let then = self.block()?;

        let else_ = self.else_part()?;

        Ok(self.create_checkpoint(Box::new(Expr::If { cond, then, else_ })))
    }

    /// The `else` part of an `if`, where one follows
    fn else_part(&mut self) -> (r: Result<Option<SpannedExpr>, Spanned<KaonError>>)
        requires
            old(self).wf(),
        ensures
            Self::kept(old(self), final(self)),
            r is Ok ==> final(self).cursor >= old(self).cursor,
            (final(self).pstate(), opt_view(r)) == else_step(old(self).tokens@, *old(self).registry, old(self).pstate()),
        decreases old(self).tokens@.len() - old(self).cursor, 7nat,
    {
        self.checkpoint();
        if self.advance() && *self.get() == Token::Else {
            self.remove_checkpoint();
            self.expect_advance("if or block")?;

            let e = if *self.get() == Token::If {
                self.expr()?
            } else {
                self.block()?
            };
            Ok(Some(e))
        } else {
            self.restore_checkpoint();
            Ok(None)
        }
    }

    /// The loop variable of a `for`, where one is named before `in`
    fn for_name(&mut self) -> (r: Result<Option<Spanned<String>>, Spanned<KaonError>>)
        requires
            old(self).wf(),
        ensures
            Self::kept(old(self), final(self)),
            r is Ok ==> final(self).cursor >= old(self).cursor,
            (final(self).pstate(), opt_name_view(r)) == for_name_step(old(self).tokens@, old(self).pstate()),
    {
        self.checkpoint();
        match self.get() {
            Token::Ident(n) => {
                let name_span = self.create(n.clone());

                if self.advance() && *self.get() == Token::In {
                    self.remove_checkpoint();
                    self.expect_advance("expr")?;

                    Ok(Some(name_span))
                } else {
                    self.restore_checkpoint();
                    Ok(None)
                }
            },
            _ => {
                self.remove_checkpoint();
                Ok(None)
            },
        }
    }

    /// `for name in iterator { .. }`, the name and `in` optional
    fn for_expr(&mut self) -> (r: ExprResult)
        requires
            old(self).wf(),
        ensures
            Self::kept(old(self), final(self)),
            r is Ok ==> final(self).cursor >= old(self).cursor,
            (final(self).pstate(), result_view(r)) == for_step(old(self).tokens@, *old(self).registry, old(self).pstate()),
        decreases old(self).tokens@.len() - old(self).cursor, 7nat,
    {
        self.expect_advance("iterator or loop variable")?;

        let name = self.for_name()?;

        let iterator = self.expr()?;

        self.expect_advance("block")?;
        let body = self.block()?;

        Ok(self.create_checkpoint(Box::new(Expr::For {
            name,
            iterator,
            body,
        })))
    }

    fn binary(&mut self, min_precedence: u16) -> (r: ExprResult)
        requires
            old(self).wf(),
        ensures
            Self::kept(old(self), final(self)),
            r is Ok ==> final(self).cursor >= old(self).cursor,
            (final(self).pstate(), result_view(r)) == binary_step(old(self).tokens@, *old(self).registry, old(self).pstate(), min_precedence),
        decreases old(self).tokens@.len() - old(self).cursor, 7nat,
    {
        let ghost goal = binary_step(self.tokens@, *self.registry, self.pstate(), min_precedence);
        let mut lhs = self.unary()?;
        let ghost entry = old(self).cursor;
        let ghost tokens = self.tokens;
        let ghost registry = self.registry;

        loop
            invariant_except_break
                binary_loop(tokens@, *registry, self.pstate(), sexpr_view(lhs), min_precedence) == goal,
            invariant
                self.wf(),
                self.tokens == tokens,
                self.registry == registry,
                tokens == old(self).tokens,
                registry == old(self).registry,
                entry == old(self).cursor,
                self.cursor >= entry,
                goal == binary_step(old(self).tokens@, *old(self).registry, old(self).pstate(), min_precedence),
            ensures
                self.wf(),
                self.tokens == tokens,
                self.registry == registry,
                self.cursor >= entry,
                goal == (self.pstate(), Ok::<SExprView, ErrView>(sexpr_view(lhs))),
            decreases self.tokens@.len() - self.cursor,
        {
            if !self.advance() {
                break;
            }

            let op = match self.get() {
                Token::Op(op) => op.clone(),
                _ => {
                    self.back();
                    break;
                },
            };

            if str_eq(op.as_str(), "=") {
                if min_precedence > 0 {
                    self.back();
                    break;
                }

                let name = match &*lhs.value {
                    Expr::Local { name } => Spanned::new(name.start, name.end, name.value.clone()),
                    _ => {
                        return Err(self.expected("assignable", self.get()));
                    },
                };

                self.expect_advance("expr")?;
                let body = self.binary(0)?;

                let start = lhs.start;
                let end = body.end;
                lhs = Spanned::new(start, end, Box::new(Expr::Assign { name, body }));

                continue;
            }

            let entry_op = match self.registry.binary(op.as_str()) {
                Some(e) => e,
                None => {
                    self.back();
                    break;
                },
            };

            let prec = entry_op.1;

            if prec < min_precedence {
                self.back();
                break;
            }

            self.expect_advance("expr")?;
            let rhs = self.binary(prec + 1)?;

            let start = lhs.start;
            let end = rhs.end;
            lhs = Spanned::new(
                start,
                end,
                Box::new(Expr::BinOp {
                    left: lhs,
                    op,
                    right: rhs,
                }),
            );
        }

        Ok(lhs)
    }

    fn unary(&mut self) -> (r: ExprResult)
        requires
            old(self).wf(),
        ensures
            Self::kept(old(self), final(self)),
            r is Ok ==> final(self).cursor >= old(self).cursor,
            (final(self).pstate(), result_view(r)) == unary_step(old(self).tokens@, *old(self).registry, old(self).pstate()),
        decreases old(self).tokens@.len() - old(self).cursor, 6nat,
    {
        match self.get() {
            Token::Op(op) => {
                let op = op.clone();
                let op_exists = self.registry.unary(op.as_str()).is_some();

                if !op_exists {
                    return Err(self.create_checkpoint(KaonError::Expected("valid operator".to_owned(), op)));
                }

                self.expect_advance("expr")?;
                let body = self.unary()?;

                Ok(self.create_checkpoint(Box::new(Expr::UnaryOp { op, body })))
            },
            _ => self.postfix(),
        }
    }

    #[verifier::rlimit(50)]
    fn postfix(&mut self) -> (r: ExprResult)
        requires
            old(self).wf(),
        ensures
            Self::kept(old(self), final(self)),
            r is Ok ==> final(self).cursor >= old(self).cursor,
            (final(self).pstate(), result_view(r)) == postfix_step(old(self).tokens@, *old(self).registry, old(self).pstate()),
        decreases old(self).tokens@.len() - old(self).cursor, 5nat,
    {
        let ghost goal = postfix_step(self.tokens@, *self.registry, self.pstate());
        let mut expr = self.atom()?;
        let ghost entry = old(self).cursor;
        let ghost tokens = self.tokens;
        let ghost registry = self.registry;

        loop
            invariant_except_break
                postfix_loop(tokens@, *registry, self.pstate(), sexpr_view(expr)) == goal,
            invariant
                goal == postfix_step(old(self).tokens@, *old(self).registry, old(self).pstate()),
                self.wf(),
                self.tokens == tokens,
                self.registry == registry,
                tokens == old(self).tokens,
                registry == old(self).registry,
                entry == old(self).cursor,
                self.cursor >= entry,
            ensures
                self.wf(),
                self.tokens == tokens,
                self.registry == registry,
                self.cursor >= entry,
                goal == (self.pstate(), Ok::<SExprView, ErrView>(sexpr_view(expr))),
            decreases self.tokens@.len() - self.cursor,
        {
            self.checkpoint();

            if !self.advance() || !(*self.get() == Token::Ctrl('(')) {
                self.restore_checkpoint();
                break;
            }

            self.remove_checkpoint();

            let args = self.list_exprs('(', ')', "argument")?;

            let start = expr.start;
            let end = self.tokens[self.cursor].end;
            expr = Spanned::new(
                start,
                end,
                Box::new(Expr::Call { body: expr, args }),
            );
        }

        Ok(expr)
    }

    fn atom(&mut self) -> (r: ExprResult)
        requires
            old(self).wf(),
        ensures
            Self::kept(old(self), final(self)),
            r is Ok ==> final(self).cursor >= old(self).cursor,
            (final(self).pstate(), result_view(r)) == atom_step(old(self).tokens@, *old(self).registry, old(self).pstate()),
        decreases old(self).tokens@.len() - old(self).cursor, 4nat,
    {
        match self.get() {
            Token::Int(i) => Ok(self.create(Box::new(Expr::Literal(Value::Int(*i))))),
            Token::Float(f) => Ok(self.create(Box::new(Expr::Literal(Value::Float(f.clone()))))),
            Token::Bool(b) => Ok(self.create(Box::new(Expr::Literal(Value::Bool(*b))))),
            Token::Str(s) => Ok(self.create(Box::new(Expr::Literal(Value::Str(s.clone()))))),

            Token::Ident(text) => {
                let name = self.create(text.clone());
                Ok(self.create(Box::new(Expr::Local { name })))
            },

            Token::Ctrl('(') => self.paren(),
            Token::Ctrl('{') => self.block(),
            Token::Ctrl('[') => {
                let items = self.list_exprs('[', ']', "expr")?;
                let expr = Box::new(Expr::List(items));

                Ok(self.create_checkpoint(expr))
            },

            Token::Fn => self.func(),

            tok => Err(self.create(KaonError::Expected("atom".to_owned(), tok.describe()))),
        }
    }

    /// `fn (args) { .. }`
    fn func(&mut self) -> (r: ExprResult)
        requires
            old(self).wf(),
        ensures
            Self::kept(old(self), final(self)),
            r is Ok ==> final(self).cursor >= old(self).cursor,
            (final(self).pstate(), result_view(r)) == func_step(old(self).tokens@, *old(self).registry, old(self).pstate()),
        decreases old(self).tokens@.len() - old(self).cursor, 3nat,
    {
        self.expect_advance("args")?;
        let args = self.fn_args()?;

        self.expect_advance("block")?;

        let body = self.block()?;

        Ok(self.create_checkpoint(Box::new(Expr::Func { args, body })))
    }

    /// An expression in round brackets
    fn paren(&mut self) -> (r: ExprResult)
        requires
            old(self).wf(),
        ensures
            Self::kept(old(self), final(self)),
            r is Ok ==> final(self).cursor >= old(self).cursor,
            (final(self).pstate(), result_view(r)) == paren_step(old(self).tokens@, *old(self).registry, old(self).pstate()),
        decreases old(self).tokens@.len() - old(self).cursor, 3nat,
    {
        self.open_wrapped(&Token::Ctrl('('), "paren")?;
        let res = self.expr()?;
        self.close_wrapped(&Token::Ctrl(')'))?;
        Ok(res)
    }

    /// Expressions separated by `,` between the brackets `left` and
    /// `right`, a trailing `,` allowed
    fn list_exprs(&mut self, left: char, right: char, item_msg: &str) -> (r: Result<Vec<SpannedExpr>, Spanned<KaonError>>)
        requires
            old(self).wf(),
        ensures
            Self::kept(old(self), final(self)),
            r is Ok ==> final(self).cursor >= old(self).cursor,
            (final(self).pstate(), items_view(r)) == list_step(old(self).tokens@, *old(self).registry, old(self).pstate(),
                left, right, item_msg@),
        decreases old(self).tokens@.len() - old(self).cursor, 3nat,
    {
        let end = Token::Ctrl(right);
        self.open_wrapped(&Token::Ctrl(left), item_msg)?;
        let (items, _) = self.separated_exprs(&end)?;
        self.close_wrapped(&end)?;
        Ok(items)
    }

    /// The `,`-separated items up to `end`; the parser ends on the last
    /// item, or one token back when there is none
    #[verifier::rlimit(50)]
    fn separated_exprs(&mut self, end: &Token) -> (r: Result<(Vec<SpannedExpr>, bool), Spanned<KaonError>>)
        requires
            old(self).wf(),
            old(self).cursor > 0,
        ensures
            Self::kept(old(self), final(self)),
            r is Ok ==> final(self).cursor + 1 >= old(self).cursor,
            (final(self).pstate(), flagged_view(r)) == separated_step(old(self).tokens@, *old(self).registry, old(self).pstate(), end@),
        decreases old(self).tokens@.len() - old(self).cursor, 10nat,
    {
        let ghost goal = separated_step(self.tokens@, *self.registry, self.pstate(), end@);
        if *self.get() == *end {
            self.back();
            let r = (Vec::new(), false);
            assert(sexprs_view(r.0@) =~= Seq::<SExprView>::empty());
            return Ok(r);
        }

        let first = self.expr()?;
        let mut out: Vec<SpannedExpr> = Vec::new();
        out.push(first);
        assert(sexprs_view(out@) =~= seq![sexpr_view(first)]);
        let mut trailing = false;
        let ghost entry = old(self).cursor;
        let ghost tokens = self.tokens;
        let ghost registry = self.registry;

        loop
            invariant_except_break
                !trailing,
                separated_loop(tokens@, *registry, self.pstate(), sexprs_view(out@), end@) == goal,
            invariant
                goal == separated_step(old(self).tokens@, *old(self).registry, old(self).pstate(), end@),
                self.wf(),
                self.tokens == tokens,
                self.registry == registry,
                tokens == old(self).tokens,
                registry == old(self).registry,
                entry == old(self).cursor,
                self.cursor >= entry,
            ensures
                self.wf(),
                self.tokens == tokens,
                self.registry == registry,
                self.cursor + 1 >= entry,
                goal == (self.pstate(), Ok::<(Seq<SExprView>, bool), ErrView>((sexprs_view(out@), trailing))),
            decreases self.tokens@.len() - self.cursor,
        {
            if !self.advance() {
                break;
            }

            if !(*self.get() == Token::Ctrl(',')) {
                self.back();
                break;
            }

            if !self.advance() {
                trailing = true;
                break;
            }

            if *self.get() == *end {
                self.back();
                trailing = true;
                break;
            }

            let item = self.expr()?;
            proof {
                lemma_sexprs_push(out@, item);
            }
            out.push(item);
            trailing = false;
        }

        Ok((out, trailing))
    }

    /// The names of a function's parameters, in round brackets
    fn fn_args(&mut self) -> (r: Result<Vec<Spanned<String>>, Spanned<KaonError>>)
        requires
            old(self).wf(),
        ensures
            Self::kept(old(self), final(self)),
            r is Ok ==> final(self).cursor >= old(self).cursor,
            (final(self).pstate(), names_result_view(r)) == fn_args_step(old(self).tokens@, old(self).pstate()),
    {
        let end = Token::Ctrl(')');
        self.open_wrapped(&Token::Ctrl('('), "argument")?;

        let mut out: Vec<Spanned<String>> = Vec::new();
        if *self.get() == end {
            self.back();
            assert(names_view(out@) =~= Seq::<NameView>::empty());
        } else {
            let ghost s1 = self.pstate();
            let first = self.ident()?;
            let ghost first_v = name_view(first);
            out.push(first);
            assert(names_view(out@) =~= seq![name_view(first)]);
            let ghost entry = self.cursor;
            let ghost tokens = self.tokens;
            let ghost registry = self.registry;
            let ghost goal = args_loop(self.tokens@, self.pstate(), names_view(out@));

            loop
                invariant_except_break
                    args_loop(tokens@, self.pstate(), names_view(out@)) == goal,
                invariant
                    end == Token::Ctrl(')'),
                    open_step(old(self).tokens@, old(self).pstate(), TokenView::Ctrl('('), "argument"@) == (s1, Ok::<(), ErrView>(())),
                    tok_at(old(self).tokens@, s1) != TokenView::Ctrl(')'),
                    ident_step(old(self).tokens@, s1) == Ok::<NameView, ErrView>(first_v),
                    goal == args_loop(old(self).tokens@, s1, seq![first_v]),
                    self.wf(),
                    self.tokens == tokens,
                    self.registry == registry,
                    tokens == old(self).tokens,
                    registry == old(self).registry,
                    entry == old(self).cursor + 1,
                    self.cursor >= entry,
                ensures
                    self.wf(),
                    self.tokens == tokens,
                    self.registry == registry,
                    self.cursor + 1 >= entry,
                    goal == (self.pstate(), Ok::<Seq<NameView>, ErrView>(names_view(out@))),
                decreases self.tokens@.len() - self.cursor,
            {
                if !self.advance() {
                    break;
                }

                if !(*self.get() == Token::Ctrl(',')) {
                    self.back();
                    break;
                }

                if !self.advance() {
                    break;
                }

                if *self.get() == end {
                    self.back();
                    break;
                }

                let item = self.ident()?;
                proof {
                    lemma_names_push(out@, item);
                }
                out.push(item);
            }
        }

        self.close_wrapped(&end)?;
        Ok(out)
    }

    /// A name, spanning its token
    fn ident(&self) -> (r: Result<Spanned<String>, Spanned<KaonError>>)
        requires
            self.wf(),
        ensures
            match r {
                Ok(n) => ident_step(self.tokens@, self.pstate()) == Ok::<NameView, ErrView>(name_view(n)),
                Err(e) => ident_step(self.tokens@, self.pstate()) == Err::<NameView, ErrView>(err_view(e)),
            },
    {
        match self.get() {
            Token::Ident(t) => Ok(self.create(t.clone())),
            _ => Err(self.expected("ident", self.get())),
        }
    }

    /// The statements of a block; the parser ends on the last one, or one
    /// token back when there is none
    fn block_items(&mut self) -> (r: Result<(Vec<SpannedExpr>, bool), Spanned<KaonError>>)
        requires
            old(self).wf(),
            old(self).cursor > 0,
        ensures
            Self::kept(old(self), final(self)),
            r is Ok ==> final(self).cursor + 1 >= old(self).cursor,
            (final(self).pstate(), flagged_view(r)) == block_items_step(old(self).tokens@, *old(self).registry, old(self).pstate()),
        decreases old(self).tokens@.len() - old(self).cursor, 10nat,
    {
        let ghost goal = block_items_step(self.tokens@, *self.registry, self.pstate());
        if *self.get() == Token::Ctrl('}') {
            self.back();
            let r = (Vec::new(), false);
            assert(sexprs_view(r.0@) =~= Seq::<SExprView>::empty());
            return Ok(r);
        }

        let mut out: Vec<SpannedExpr> = Vec::new();
        let mut trailing = false;
        let ghost entry = old(self).cursor;
        let ghost tokens = self.tokens;
        let ghost registry = self.registry;
        assert(sexprs_view(out@) =~= Seq::<SExprView>::empty());

        loop
            invariant_except_break
                !trailing,
                block_items_loop(tokens@, *registry, self.pstate(), sexprs_view(out@)) == goal,
            invariant
                goal == block_items_step(old(self).tokens@, *old(self).registry, old(self).pstate()),
                self.wf(),
                self.tokens == tokens,
                self.registry == registry,
                tokens == old(self).tokens,
                registry == old(self).registry,
                entry == old(self).cursor,
                self.cursor >= entry,
            ensures
                self.wf(),
                self.tokens == tokens,
                self.registry == registry,
                self.cursor >= entry,
                goal == (self.pstate(), Ok::<(Seq<SExprView>, bool), ErrView>((sexprs_view(out@), trailing))),
            decreases self.tokens@.len() - self.cursor,
        {
            let item = self.expr()?;
            let optional_semi = item.value.ends_in_block();
            proof {
                lemma_sexprs_push(out@, item);
            }
            out.push(item);
            trailing = false;

            if !self.advance() {
                break;
            }

            if *self.get() == Token::Ctrl(';') {
                self.checkpoint();

                if !self.advance() {
                    self.remove_checkpoint();
                    trailing = true;
                    break;
                }

                if *self.get() == Token::Ctrl('}') {
                    self.restore_checkpoint();
                    trailing = true;
                    break;
                }

                self.remove_checkpoint();
                continue;
            }

            if *self.get() == Token::Ctrl('}') {
                self.back();
                break;
            }

            if optional_semi {
                continue;
            }

            let found = self.get().describe();
            return Err(self.create_checkpoint(KaonError::Expected(Token::Ctrl(';').describe(), found)));
        }

        Ok((out, trailing))
    }

    fn block(&mut self) -> (r: ExprResult)
        requires
            old(self).wf(),
        ensures
            Self::kept(old(self), final(self)),
            r is Ok ==> final(self).cursor >= old(self).cursor,
            (final(self).pstate(), result_view(r)) == block_step(old(self).tokens@, *old(self).registry, old(self).pstate()),
        decreases old(self).tokens@.len() - old(self).cursor, 3nat,
    {
        let ghost ts = self.tokens@;
        self.open_wrapped(&Token::Ctrl('{'), "expr")?;
        let (mut res, trailing) = self.block_items()?;
        let ghost items_v = sexprs_view(res@);
        self.close_wrapped(&Token::Ctrl('}'))?;
        let ghost s3 = self.pstate();
        let ghost res_v = if trailing { items_v.push(tree_at_token(ts, s3, ExprView::Null)) } else { items_v };

        if trailing {
            let n = self.create(Box::new(Expr::Null));
            proof {
                lemma_sexprs_push(res@, n);
            }
            res.push(n);
        }
        assert(sexprs_view(res@) == res_v);

        let res = if res.len() == 0 {
            self.create(Box::new(Expr::Null))
        } else {
            join_left(res)
        };
        assert(sexpr_view(res) == if res_v.len() == 0 { tree_at_token(ts, s3, ExprView::Null) } else { fold_left(res_v) });

        let start = res.start;
        let end = res.end;
        Ok(Spanned::new(
            start,
            end,
            Box::new(Expr::Block { body: res }),
        ))
    }
}

/// The statements joined left to right: each next one after all before it
fn join_left(res: Vec<SpannedExpr>) -> (r: SpannedExpr)
    requires
        res@.len() > 0,
    ensures
        sexpr_view(r) == fold_left(sexprs_view(res@)),
{
    let ghost full = sexprs_view(res@);
    let mut res = res;
    let mut acc = res.remove(0);
    let ghost mut k: int = 1;
    proof {
        assert(full.take(1) =~= seq![full[0]]);
    }
    while res.len() > 0
        invariant
            1 <= k <= full.len(),
            res@.len() == full.len() - k,
            forall|i: int| 0 <= i < res@.len() ==> sexpr_view(#[trigger] res@[i]) == full[k + i],
            sexpr_view(acc) == fold_left(full.take(k)),
        decreases res@.len(),
    {
        let b = res.remove(0);
        proof {
            assert(full.take(k + 1).drop_last() =~= full.take(k));
        }
        let start = acc.start;
        let end = b.end;
        acc = Spanned::new(start, end, Box::new(Expr::Then { first: acc, next: b }));
        proof {
            k = k + 1;
        }
    }
    proof {
        assert(full.take(k) =~= full);
    }
    acc
}

/// The statements joined right to left: each one before all after it
fn join_right(items: Vec<SpannedExpr>) -> (r: SpannedExpr)
    requires
        items@.len() > 0,
    ensures
        sexpr_view(r) == fold_right(sexprs_view(items@)),
{
    let ghost full = sexprs_view(items@);
    let mut items = items;
    let mut acc = items.pop().unwrap();
    proof {
        assert(full.skip(items@.len() as int) =~= seq![full[full.len() - 1]]);
    }

    while items.len() > 0
        invariant
            items@.len() < full.len(),
            forall|i: int| 0 <= i < items@.len() ==> sexpr_view(#[trigger] items@[i]) == full[i],
            sexpr_view(acc) == fold_right(full.skip(items@.len() as int)),
        decreases items@.len(),
    {
        let ghost m = items@.len() as int;
        let item = items.pop().unwrap();
        proof {
            assert(full.skip(m - 1).drop_first() =~= full.skip(m));
        }
        let end = acc.end;
        acc = Spanned::new(
            item.start,
            end,
            Box::new(Expr::Then {
                first: item,
                next: acc,
            }),
        );
    }
    proof {
        assert(full.skip(0) =~= full);
    }
    acc
}

/// The tree when no problem was reported, else the first problem
pub fn first_diagnostic(tree: SpannedExpr, diagnostics: Vec<Spanned<KaonError>>) -> (r: ExprResult)
    ensures
        diagnostics@.len() == 0 ==> r == Ok::<SpannedExpr, Spanned<KaonError>>(tree),
        diagnostics@.len() > 0 ==> r == Err::<SpannedExpr, Spanned<KaonError>>(diagnostics@[0]),
{
    let mut diagnostics = diagnostics;
    if diagnostics.len() > 0 {
        Err(diagnostics.remove(0))
    } else {
        Ok(tree)
    }
}

} // verus!

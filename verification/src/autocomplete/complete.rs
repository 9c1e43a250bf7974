//! Completions at a position in a line: the names, keywords and operators
//! that fit there and start with the partial word before the position.
use vstd::prelude::*;
use crate::autocomplete::Span;
use crate::error::{KaonError, ErrorView};
use crate::lex::{lex_from, tokens_view, LexOutcome, Lexer};
use crate::op_registry::OpRegistry;
use crate::parse::{precedences_bounded, errs_view, Parser};
use crate::parse::model::recovered;
use crate::scope::{has_name, Scope};
use crate::spanned::Spanned;
use crate::text::{str_to_chars, chars_to_string, str_eq};
use crate::token::{Token, TokenView};
use vstd::slice::slice_subrange;

verus! {

/// What a completion stands for
#[derive(Debug, Clone, Copy, PartialEq, Eq, Structural)]
pub enum CompletionKind {
    Variable,
    Function,
    Keyword,
    Operator,
}

/// A word that can be put in place of `replace`
#[derive(Debug, Clone, PartialEq)]
pub struct Completion {
    pub text: String,
    pub kind: CompletionKind,
    pub replace: Span,
}

/// What may come next at a position
#[derive(Debug, Clone, Copy, PartialEq, Eq, Structural)]
pub enum Expectation {
    /// A name being declared
    Ident,
    /// The start of an expression
    ExprStart,
    /// Anything, operators included
    Any,
}

/// The keywords offered where an expression can start.
pub open spec fn keyword_list() -> Seq<Seq<char>> {
    seq!["let"@, "for"@, "in"@, "if"@, "else"@, "return"@, "break"@, "fn"@, "true"@, "false"@]
}

fn keywords() -> (r: Vec<String>)
    ensures
        r@.len() == keyword_list().len(),
        forall|i: int| 0 <= i < r@.len() ==> #[trigger] r@[i]@ == keyword_list()[i],
{
    let mut r: Vec<String> = Vec::new();
    r.push("let".to_owned());
    r.push("for".to_owned());
    r.push("in".to_owned());
    r.push("if".to_owned());
    r.push("else".to_owned());
    r.push("return".to_owned());
    r.push("break".to_owned());
    r.push("fn".to_owned());
    r.push("true".to_owned());
    r.push("false".to_owned());
    r
}

/// The order completions are offered in: variables, functions, keywords, operators.
pub open spec fn rank_of(kind: CompletionKind) -> u8 {
    match kind {
        CompletionKind::Variable => 0,
        CompletionKind::Function => 1,
        CompletionKind::Keyword => 2,
        CompletionKind::Operator => 3,
    }
}

fn rank(kind: CompletionKind) -> (r: u8)
    ensures
        r == rank_of(kind),
{
    match kind {
        CompletionKind::Variable => 0,
        CompletionKind::Function => 1,
        CompletionKind::Keyword => 2,
        CompletionKind::Operator => 3,
    }
}

/// `a` comes no later than `b` in the order of chars (the order of their
/// code points), a prefix first.
pub open spec fn text_le(a: Seq<char>, b: Seq<char>) -> bool
    decreases a.len(),
{
    if a.len() == 0 {
        true
    } else if b.len() == 0 {
        false
    } else if a[0] != b[0] {
        (a[0] as int) < (b[0] as int)
    } else {
        text_le(a.drop_first(), b.drop_first())
    }
}

/// Of two texts, one comes no later than the other.
pub proof fn lemma_text_le_total(a: Seq<char>, b: Seq<char>)
    ensures
        text_le(a, b) || text_le(b, a),
    decreases a.len(),
{
    if a.len() > 0 && b.len() > 0 && a[0] == b[0] {
        lemma_text_le_total(a.drop_first(), b.drop_first());
    }
}

/// The order of texts is transitive.
pub proof fn lemma_text_le_trans(a: Seq<char>, b: Seq<char>, c: Seq<char>)
    requires
        text_le(a, b),
        text_le(b, c),
    ensures
        text_le(a, c),
    decreases a.len(),
{
    if a.len() > 0 && b.len() > 0 && c.len() > 0 && a[0] == b[0] && b[0] == c[0] {
        lemma_text_le_trans(a.drop_first(), b.drop_first(), c.drop_first());
    }
}

/// The order of completions: by kind, then by text.
pub open spec fn cand_le(a: (Seq<char>, CompletionKind), b: (Seq<char>, CompletionKind)) -> bool {
    rank_of(a.1) < rank_of(b.1) || (rank_of(a.1) == rank_of(b.1) && text_le(a.0, b.0))
}

/// Whether `a` comes no later than `b`, comparing their chars in order
fn text_le_exec(a: &str, b: &str) -> (r: bool)
    ensures
        r == text_le(a@, b@),
{
    let x = str_to_chars(a);
    let y = str_to_chars(b);
    let mut i: usize = 0;
    proof {
        assert(x@.subrange(0, x@.len() as int) =~= x@);
        assert(y@.subrange(0, y@.len() as int) =~= y@);
    }
    while i < x.len() && i < y.len() && x[i] == y[i]
        invariant
            i <= x@.len(),
            i <= y@.len(),
            text_le(x@, y@) == text_le(x@.subrange(i as int, x@.len() as int), y@.subrange(i as int, y@.len() as int)),
        decreases x.len() - i,
    {
        proof {
            let xs = x@.subrange(i as int, x@.len() as int);
            let ys = y@.subrange(i as int, y@.len() as int);
            assert(xs.drop_first() =~= x@.subrange(i + 1, x@.len() as int));
            assert(ys.drop_first() =~= y@.subrange(i + 1, y@.len() as int));
        }
        i = i + 1;
    }
    proof {
        assert(x@.subrange(0, x@.len() as int) =~= x@);
        assert(y@.subrange(0, y@.len() as int) =~= y@);
    }
    if i == x.len() {
        true
    } else if i == y.len() {
        false
    } else {
        x[i] < y[i]
    }
}

fn cand_le_exec(a: &(String, CompletionKind), b: &(String, CompletionKind)) -> (r: bool)
    ensures
        r == cand_le((a.0@, a.1), (b.0@, b.1)),
{
    let ra = rank(a.1);
    let rb = rank(b.1);
    ra < rb || (ra == rb && text_le_exec(a.0.as_str(), b.0.as_str()))
}

/// The chars of `source` before position `cursor`
fn char_prefix(source: &str, cursor: usize) -> (r: String)
    ensures
        r@ == source@.take(if cursor < source@.len() { cursor as int } else { source@.len() as int }),
{
    let chars = str_to_chars(source);
    let n = if cursor < chars.len() { cursor } else { chars.len() };
    let head = slice_subrange(chars.as_slice(), 0, n);
    chars_to_string(head)
}

/// The identifier that ends just before `cursor`, as the partial word:
/// it is what a completion replaces, and the tokens before it are the
/// context. Without one the partial word is empty.
fn split_partial_ident(tokens: &[Spanned<Token>], cursor: usize) -> (r: (String, Span, &[Spanned<Token>]))
    ensures
        ({
            let n = tokens@.len();
            if n > 0 && tokens@[n - 1].value is Ident && tokens@[n - 1].end + 1 == cursor {
                &&& r.0@ == tokens@[n - 1].value->Ident_0@
                &&& r.1 == (Span { start: tokens@[n - 1].start, end: cursor })
                &&& r.2@ == tokens@.drop_last()
            } else {
                &&& r.0@ == Seq::<char>::empty()
                &&& r.1 == (Span { start: cursor, end: cursor })
                &&& r.2@ == tokens@
            }
        }),
{
    let n = tokens.len();
    if n > 0 && cursor > 0 {
        let last = &tokens[n - 1];
        match &last.value {
            Token::Ident(text) => {
                if last.end == cursor - 1 {
                    let rest = slice_subrange(tokens, 0, n - 1);
                    assert(rest@ =~= tokens@.drop_last());
                    return (text.clone(), Span::new(last.start, cursor), rest);
                }
            },
            _ => {},
        }
    }

    (String::new(), Span::empty_at(cursor), tokens)
}

/// What an expected-label says may come next.
pub open spec fn label_expectation(label: Seq<char>) -> Expectation {
    if label == "name"@ {
        Expectation::Ident
    } else if label == "expr"@ || label == "argument"@ || label == "atom"@ || label == "condition"@
        || label == "iterator or loop variable"@ {
        Expectation::ExprStart
    } else {
        Expectation::Any
    }
}

/// What a parse problem says may come next.
pub open spec fn expectation_of(e: KaonError) -> Expectation {
    match e {
        KaonError::Expected(label, _) => label_expectation(label@),
        KaonError::ExpectedFoundEOF(label) => label_expectation(label@),
        _ => Expectation::Any,
    }
}

/// What a parse problem, taken by its view, says may come next.
pub open spec fn expectation_of_view(e: ErrorView) -> Expectation {
    match e {
        ErrorView::Expected(label, _) => label_expectation(label),
        ErrorView::ExpectedFoundEOF(label) => label_expectation(label),
        _ => Expectation::Any,
    }
}

/// What may come after the tokens `ctx`: an expression where there are
/// none, else what the last problem of parsing them says, and anything
/// where they parse.
pub open spec fn expectation_after(ctx: Seq<Spanned<Token>>, ops: OpRegistry) -> Expectation {
    if ctx.len() == 0 {
        Expectation::ExprStart
    } else {
        let errs = recovered(ctx, ops).1;
        if errs.len() > 0 { expectation_of_view(errs.last().err) } else { Expectation::Any }
    }
}

/// What may come where the parse stopped with `err`
pub fn expectation_from_error(err: &Spanned<KaonError>) -> (r: Expectation)
    ensures
        r == expectation_of(err.value),
{
    let label = match &err.value {
        KaonError::Expected(label, _) => label.as_str(),
        KaonError::ExpectedFoundEOF(label) => label.as_str(),
        _ => {
            return Expectation::Any;
        },
    };

    if str_eq(label, "name") {
        Expectation::Ident
    } else if str_eq(label, "expr") || str_eq(label, "argument") || str_eq(label, "atom")
        || str_eq(label, "condition") || str_eq(label, "iterator or loop variable") {
        Expectation::ExprStart
    } else {
        Expectation::Any
    }
}

/// A word of kind `kind` is offered when `exp` is expected: variables of
/// `scope`, functions `funcs` and keywords where an expression can start,
/// and the operators of `ops` where anything can come.
pub open spec fn offered<V>(exp: Expectation, ops: OpRegistry, funcs: Seq<String>, scope: Scope<V>, t: Seq<char>, kind: CompletionKind) -> bool {
    let exprs = exp is ExprStart || exp is Any;
    match kind {
        CompletionKind::Variable => exprs && scope.lookup(t) is Some,
        CompletionKind::Function => exprs && has_name(funcs, t),
        CompletionKind::Keyword => exprs && keyword_list().contains(t),
        CompletionKind::Operator => exp is Any && ops.is_op(t),
    }
}

/// Whether some completion of the list is `t` of kind `kind`.
pub open spec fn lists(r: Seq<Completion>, t: Seq<char>, kind: CompletionKind) -> bool {
    exists|i: int| 0 <= i < r.len() && (#[trigger] r[i]).text@ == t && r[i].kind == kind
}

/// `r` is the list of completions for `exp` after the partial word
/// `partial`: exactly the offered words that start with it, each as often
/// as the candidates offer it and replacing `replace`, ordered by kind and
/// then by text.
pub open spec fn completion_list<V>(r: Seq<Completion>, exp: Expectation, partial: Seq<char>, replace: Span,
    ops: OpRegistry, funcs: Seq<String>, scope: Scope<V>) -> bool {
    &&& forall|i: int| 0 <= i < r.len() ==> (#[trigger] r[i]).replace == replace
    &&& forall|t: Seq<char>, kind: CompletionKind| #[trigger] lists(r, t, kind)
        <==> (partial.is_prefix_of(t) && offered(exp, ops, funcs, scope, t, kind))
    &&& forall|i: int, j: int| 0 <= i <= j < r.len() ==>
        cand_le(((#[trigger] r[i]).text@, r[i].kind), ((#[trigger] r[j]).text@, r[j].kind))
    &&& forall|t: Seq<char>, kind: CompletionKind| #[trigger] completions_view(r).to_multiset().count((t, kind))
        == if partial.is_prefix_of(t) { candidate_count(exp, ops, funcs, scope, t, kind) } else { 0 }
}

/// How many times the candidates for `exp` offer `t` as a word of kind
/// `kind`, counting each source: once per visible variable, once per entry
/// of `funcs`, once per keyword, and once per binary and once per unary
/// operator spelled `t`.
pub open spec fn candidate_count<V>(exp: Expectation, ops: OpRegistry, funcs: Seq<String>, scope: Scope<V>,
    t: Seq<char>, kind: CompletionKind) -> nat {
    let exprs = exp is ExprStart || exp is Any;
    match kind {
        CompletionKind::Variable => if exprs && scope.lookup(t) is Some { 1 } else { 0 },
        CompletionKind::Function => if exprs { texts(funcs).to_multiset().count(t) } else { 0 },
        CompletionKind::Keyword => if exprs { keyword_list().to_multiset().count(t) } else { 0 },
        CompletionKind::Operator => if exp is Any {
            (ops.binary_keys() + ops.unary_keys()).to_multiset().count(t)
        } else {
            0
        },
    }
}

/// The strings, as chars
pub open spec fn texts(ws: Seq<String>) -> Seq<Seq<char>> {
    ws.map_values(|w: String| w@)
}

/// The words `ws`, each with the kind `kind`
pub open spec fn tagged(ws: Seq<Seq<char>>, kind: CompletionKind) -> Seq<(Seq<char>, CompletionKind)> {
    ws.map_values(|w: Seq<char>| (w, kind))
}

/// The text and kind of each completion
pub open spec fn completions_view(r: Seq<Completion>) -> Seq<(Seq<char>, CompletionKind)> {
    r.map_values(|c: Completion| (c.text@, c.kind))
}

/// The text and kind of each candidate
spec fn cand_view(c: Seq<(String, CompletionKind)>) -> Seq<(Seq<char>, CompletionKind)> {
    c.map_values(|e: (String, CompletionKind)| (e.0@, e.1))
}

/// Tagging words with a kind counts each word once per occurrence, under that kind only.
proof fn lemma_tagged_count(ws: Seq<Seq<char>>, kind: CompletionKind, t: Seq<char>, k: CompletionKind)
    ensures
        tagged(ws, kind).to_multiset().count((t, k)) == if k == kind { ws.to_multiset().count(t) } else { 0 },
    decreases ws.len(),
{
    if ws.len() == 0 {
        assert(tagged(ws, kind) =~= Seq::<(Seq<char>, CompletionKind)>::empty());
        vstd::seq_lib::to_multiset_contains(ws, t);
        vstd::seq_lib::to_multiset_contains(tagged(ws, kind), (t, k));
    } else {
        let w = ws.drop_last();
        lemma_tagged_count(w, kind, t, k);
        assert(tagged(ws, kind) =~= tagged(w, kind).push((ws.last(), kind)));
        assert(ws =~= w.push(ws.last()));
        vstd::seq_lib::to_multiset_build(tagged(w, kind), (ws.last(), kind));
        vstd::seq_lib::to_multiset_build(w, ws.last());
    }
}

/// Words that are all different occur once each.
proof fn lemma_distinct_count(ws: Seq<String>, t: Seq<char>)
    requires
        forall|i: int, j: int| 0 <= i < j < ws.len() ==> (#[trigger] ws[i])@ != (#[trigger] ws[j])@,
    ensures
        texts(ws).to_multiset().count(t) == if has_name(ws, t) { 1nat } else { 0nat },
{
    let v = texts(ws);
    assert(v.no_duplicates()) by {
        assert forall|i: int, j: int| 0 <= i < v.len() && 0 <= j < v.len() && i != j implies v[i] != v[j] by {
            if i < j {
                assert(ws[i]@ != ws[j]@);
            } else {
                assert(ws[j]@ != ws[i]@);
            }
        }
    }
    v.lemma_multiset_has_no_duplicates();
    vstd::seq_lib::to_multiset_contains(v, t);
    if has_name(ws, t) {
        let i = choose|i: int| 0 <= i < ws.len() && #[trigger] ws[i]@ == t;
        assert(v[i] == t);
    }
    if v.contains(t) {
        let i = choose|i: int| 0 <= i < v.len() && v[i] == t;
        assert(ws[i]@ == t);
    }
}

/// Whether a candidate list holds `t` of kind `kind`.
spec fn holds_cand(c: Seq<(String, CompletionKind)>, t: Seq<char>, kind: CompletionKind) -> bool {
    exists|i: int| 0 <= i < c.len() && (#[trigger] c[i]).0@ == t && c[i].1 == kind
}

/// Appends each of `words` as a candidate of kind `kind`.
fn push_candidates(out: &mut Vec<(String, CompletionKind)>, words: &Vec<String>, kind: CompletionKind)
    ensures
        forall|t: Seq<char>, k: CompletionKind| #[trigger] holds_cand(final(out)@, t, k)
            <==> (holds_cand(old(out)@, t, k) || (k == kind && has_name(words@, t))),
        cand_view(final(out)@) == cand_view(old(out)@) + tagged(texts(words@), kind),
{
    let mut i: usize = 0;
    while i < words.len()
        invariant
            i <= words@.len(),
            cand_view(out@) == cand_view(old(out)@) + tagged(texts(words@.take(i as int)), kind),
            forall|t: Seq<char>, k: CompletionKind| #[trigger] holds_cand(out@, t, k)
                <==> (holds_cand(old(out)@, t, k) || (k == kind && has_name(words@.take(i as int), t))),
        decreases words.len() - i,
    {
        let ghost before = out@;
        out.push((words[i].clone(), kind));
        proof {
            assert(tagged(texts(words@.take(i + 1)), kind) =~= tagged(texts(words@.take(i as int)), kind).push((words@[i as int]@, kind)));
            assert(cand_view(out@) =~= cand_view(before).push((words@[i as int]@, kind)));
            assert forall|t: Seq<char>, k: CompletionKind| #[trigger] holds_cand(out@, t, k)
                <==> (holds_cand(old(out)@, t, k) || (k == kind && has_name(words@.take(i + 1), t))) by {
                if holds_cand(out@, t, k) {
                    let j = choose|j: int| 0 <= j < out@.len() && (#[trigger] out@[j]).0@ == t && out@[j].1 == k;
                    if j < before.len() {
                        assert(before[j] == out@[j]);
                    } else {
                        assert(words@.take(i + 1)[i as int] == words@[i as int]);
                    }
                }
                if holds_cand(before, t, k) {
                    let j = choose|j: int| 0 <= j < before.len() && (#[trigger] before[j]).0@ == t && before[j].1 == k;
                    assert(out@[j] == before[j]);
                }
                if k == kind && has_name(words@.take(i + 1), t) {
                    let j = choose|j: int| 0 <= j < words@.take(i + 1).len() && #[trigger] words@.take(i + 1)[j]@ == t;
                    if j < i {
                        assert(words@.take(i as int)[j] == words@.take(i + 1)[j]);
                    } else {
                        assert(out@[before.len() as int].0@ == t);
                    }
                }
                if k == kind && has_name(words@.take(i as int), t) {
                    let j = choose|j: int| 0 <= j < words@.take(i as int).len() && #[trigger] words@.take(i as int)[j]@ == t;
                    assert(words@.take(i as int)[j] == words@.take(i + 1)[j]);
                }
            }
        }
        i = i + 1;
    }
    proof {
        assert(words@.take(words@.len() as int) =~= words@);
    }
}

/// Every word offered for `expectation`, with its kind
fn candidates_for<V>(expectation: Expectation, ops: &OpRegistry, funcs: &Vec<String>, scope: &Scope<V>) -> (r: Vec<(String, CompletionKind)>)
    requires
        scope.wf(),
    ensures
        forall|t: Seq<char>, k: CompletionKind| #[trigger] holds_cand(r@, t, k) <==> offered(expectation, *ops, funcs@, *scope, t, k),
        forall|t: Seq<char>, k: CompletionKind| #[trigger] cand_view(r@).to_multiset().count((t, k))
            == candidate_count(expectation, *ops, funcs@, *scope, t, k),
{
    let mut out: Vec<(String, CompletionKind)> = Vec::new();

    let want_exprs = match expectation {
        Expectation::ExprStart | Expectation::Any => true,
        Expectation::Ident => false,
    };
    let want_ops = match expectation {
        Expectation::Any => true,
        _ => false,
    };

    let ghost e = Seq::<(Seq<char>, CompletionKind)>::empty();
    assert(cand_view(out@) =~= e);
    let ghost mut names_v = Seq::<Seq<char>>::empty();
    let ghost mut kw_v = Seq::<Seq<char>>::empty();
    if want_exprs {
        let names = scope.names();
        push_candidates(&mut out, &names, CompletionKind::Variable);
        push_candidates(&mut out, funcs, CompletionKind::Function);
        let kw = keywords();
        push_candidates(&mut out, &kw, CompletionKind::Keyword);
        proof {
            names_v = texts(names@);
            kw_v = texts(kw@);
            assert(kw_v =~= keyword_list());
            assert forall|t: Seq<char>| #[trigger] names_v.to_multiset().count(t) == if scope.lookup(t) is Some { 1nat } else { 0nat } by {
                lemma_distinct_count(names@, t);
            }
            assert forall|t: Seq<char>| #[trigger] has_name(kw@, t) <==> keyword_list().contains(t) by {
                if keyword_list().contains(t) {
                    let j = choose|j: int| 0 <= j < keyword_list().len() && keyword_list()[j] == t;
                    assert(kw@[j]@ == t);
                }
            }
        }
    }

    let ghost mid = cand_view(out@);
    let ghost mut ops_v = Seq::<Seq<char>>::empty();
    if want_ops {
        let ops_text = ops.op_strings();
        push_candidates(&mut out, &ops_text, CompletionKind::Operator);
        proof {
            ops_v = texts(ops_text@);
        }
    }
    proof {
        let fv = texts(funcs@);
        assert(want_exprs ==> mid == e + tagged(names_v, CompletionKind::Variable) + tagged(fv, CompletionKind::Function)
            + tagged(kw_v, CompletionKind::Keyword));
        assert(!want_exprs ==> mid == e);
        assert(cand_view(out@) == mid + tagged(ops_v, CompletionKind::Operator));
        assert(want_ops ==> ops_v == ops.binary_keys() + ops.unary_keys());
        assert(!want_ops ==> ops_v.len() == 0);
        assert forall|t: Seq<char>, k: CompletionKind| #[trigger] cand_view(out@).to_multiset().count((t, k))
            == candidate_count(expectation, *ops, funcs@, *scope, t, k) by {
            let x = (t, k);
            let tv = tagged(names_v, CompletionKind::Variable);
            let tf = tagged(fv, CompletionKind::Function);
            let tk = tagged(kw_v, CompletionKind::Keyword);
            let to = tagged(ops_v, CompletionKind::Operator);
            lemma_tagged_count(names_v, CompletionKind::Variable, t, k);
            lemma_tagged_count(fv, CompletionKind::Function, t, k);
            lemma_tagged_count(kw_v, CompletionKind::Keyword, t, k);
            lemma_tagged_count(ops_v, CompletionKind::Operator, t, k);
            vstd::seq_lib::lemma_multiset_commutative(mid, to);
            vstd::seq_lib::lemma_multiset_commutative(e, tv);
            vstd::seq_lib::lemma_multiset_commutative(e + tv, tf);
            vstd::seq_lib::lemma_multiset_commutative(e + tv + tf, tk);
            vstd::seq_lib::to_multiset_contains(e, x);
            vstd::seq_lib::to_multiset_contains(ops_v, t);
        }
    }
    out
}

/// The completions for `expectation` after the partial word `partial`,
/// each replacing `replace`
pub fn complete_with<V>(expectation: Expectation, partial: &str, replace: Span, ops: &OpRegistry, funcs: &Vec<String>, scope: &Scope<V>) -> (r: Vec<Completion>)
    requires
        scope.wf(),
    ensures
        completion_list(r@, expectation, partial@, replace, *ops, funcs@, *scope),
{
    let candidates = candidates_for(expectation, ops, funcs, scope);
    let pre = str_to_chars(partial);

    // Keep those that start with the partial word, placing each after
    // every kept one that comes no later than it
    let mut sorted: Vec<(String, CompletionKind)> = Vec::new();
    let mut i: usize = 0;
    proof {
        assert forall|x: (Seq<char>, CompletionKind)| #[trigger] cand_view(sorted@).to_multiset().count(x)
            == if partial@.is_prefix_of(x.0) { cand_view(candidates@.take(0)).to_multiset().count(x) } else { 0 } by {
            vstd::seq_lib::to_multiset_contains(cand_view(sorted@), x);
            vstd::seq_lib::to_multiset_contains(cand_view(candidates@.take(0)), x);
        }
    }
    while i < candidates.len()
        invariant
            i <= candidates@.len(),
            pre@ == partial@,
            forall|t: Seq<char>, k: CompletionKind| #[trigger] holds_cand(sorted@, t, k)
                <==> (holds_cand(candidates@.take(i as int), t, k) && partial@.is_prefix_of(t)),
            forall|a: int, b: int| 0 <= a <= b < sorted@.len() ==>
                cand_le(((#[trigger] sorted@[a]).0@, sorted@[a].1), ((#[trigger] sorted@[b]).0@, sorted@[b].1)),
            forall|x: (Seq<char>, CompletionKind)| #[trigger] cand_view(sorted@).to_multiset().count(x)
                == if partial@.is_prefix_of(x.0) { cand_view(candidates@.take(i as int)).to_multiset().count(x) } else { 0 },
        decreases candidates.len() - i,
    {
        let c = &candidates[i];
        let ghost before = sorted@;
        proof {
            let cv = (c.0@, c.1);
            assert(cand_view(candidates@.take(i + 1)) =~= cand_view(candidates@.take(i as int)).push(cv));
            vstd::seq_lib::to_multiset_build(cand_view(candidates@.take(i as int)), cv);
        }
        let word = str_to_chars(c.0.as_str());
        let keep = starts_with_chars(word.as_slice(), pre.as_slice());
        if keep {
            let mut p: usize = 0;
            while p < sorted.len() && cand_le_exec(&sorted[p], c)
                invariant
                    p <= sorted@.len(),
                    sorted@ == before,
                    forall|a: int| 0 <= a < p ==> cand_le(((#[trigger] sorted@[a]).0@, sorted@[a].1), (c.0@, c.1)),
                decreases sorted.len() - p,
            {
                p = p + 1;
            }
            sorted.insert(p, (c.0.clone(), c.1));
            proof {
                let cv = (c.0@, c.1);
                assert(cand_view(sorted@) =~= cand_view(before).insert(p as int, cv));
                vstd::seq_lib::to_multiset_insert(cand_view(before), p as int, cv);
                assert forall|a: int, b: int| 0 <= a <= b < sorted@.len() implies
                    cand_le(((#[trigger] sorted@[a]).0@, sorted@[a].1), ((#[trigger] sorted@[b]).0@, sorted@[b].1)) by {
                    let sa = (sorted@[a].0@, sorted@[a].1);
                    let sb = (sorted@[b].0@, sorted@[b].1);
                    if a < p && b < p {
                        assert(sorted@[a] == before[a] && sorted@[b] == before[b]);
                    } else if a < p && b == p {
                        assert(sorted@[a] == before[a]);
                    } else if a < p {
                        assert(sorted@[a] == before[a] && sorted@[b] == before[b - 1]);
                        assert(cand_le(((before[a]).0@, before[a].1), cv));
                        lemma_cand_after(cv, (before[p as int].0@, before[p as int].1), (before[b - 1].0@, before[b - 1].1));
                        lemma_cand_trans((before[a].0@, before[a].1), cv, sb);
                    } else if a == p {
                        if b > p {
                            assert(sorted@[b] == before[b - 1]);
                            lemma_cand_after(cv, (before[p as int].0@, before[p as int].1), (before[b - 1].0@, before[b - 1].1));
                        } else {
                            lemma_cand_refl(cv);
                        }
                    } else {
                        assert(sorted@[a] == before[a - 1] && sorted@[b] == before[b - 1]);
                    }
                }
            }
            proof {
                assert forall|t: Seq<char>, k: CompletionKind| #[trigger] holds_cand(sorted@, t, k)
                    <==> (holds_cand(candidates@.take(i + 1), t, k) && partial@.is_prefix_of(t)) by {
                    let ti = candidates@.take(i as int);
                    let tn = candidates@.take(i + 1);
                    assert(tn[i as int] == candidates@[i as int]);
                    if holds_cand(ti, t, k) {
                        let j = choose|j: int| 0 <= j < ti.len() && (#[trigger] ti[j]).0@ == t && ti[j].1 == k;
                        assert(tn[j] == ti[j]);
                    }
                    if holds_cand(tn, t, k) {
                        let j = choose|j: int| 0 <= j < tn.len() && (#[trigger] tn[j]).0@ == t && tn[j].1 == k;
                        if j < i {
                            assert(tn[j] == ti[j]);
                        }
                    }
                    if holds_cand(sorted@, t, k) {
                        let j = choose|j: int| 0 <= j < sorted@.len() && (#[trigger] sorted@[j]).0@ == t && sorted@[j].1 == k;
                        if j != p {
                            let jj = if j < p { j } else { j - 1 };
                            assert(sorted@[j] == before[jj]);
                        }
                    }
                    if holds_cand(before, t, k) {
                        let j = choose|j: int| 0 <= j < before.len() && (#[trigger] before[j]).0@ == t && before[j].1 == k;
                        let jj = if j < p { j } else { j + 1 };
                        assert(sorted@[jj] == before[j]);
                    }
                    assert(sorted@[p as int].0@ == candidates@[i as int].0@);
                }
            }
        } else {
            proof {
                assert forall|t: Seq<char>, k: CompletionKind| #[trigger] holds_cand(sorted@, t, k)
                    <==> (holds_cand(candidates@.take(i + 1), t, k) && partial@.is_prefix_of(t)) by {
                    let ti = candidates@.take(i as int);
                    let tn = candidates@.take(i + 1);
                    assert(tn[i as int] == candidates@[i as int]);
                    if holds_cand(ti, t, k) {
                        let j = choose|j: int| 0 <= j < ti.len() && (#[trigger] ti[j]).0@ == t && ti[j].1 == k;
                        assert(tn[j] == ti[j]);
                    }
                    if holds_cand(tn, t, k) {
                        let j = choose|j: int| 0 <= j < tn.len() && (#[trigger] tn[j]).0@ == t && tn[j].1 == k;
                        if j < i {
                            assert(tn[j] == ti[j]);
                        }
                    }
                    assert(sorted@ == before);
                }
            }
        }
        i = i + 1;
    }
    proof {
        assert(candidates@.take(candidates@.len() as int) =~= candidates@);
    }
    let ghost sorted_v = cand_view(sorted@);

    let mut out: Vec<Completion> = Vec::new();
    let mut j: usize = 0;
    while j < sorted.len()
        invariant
            j <= sorted@.len(),
            out@.len() == j,
            forall|m: int| 0 <= m < j ==> {
                &&& (#[trigger] out@[m]).text@ == sorted@[m].0@
                &&& out@[m].kind == sorted@[m].1
                &&& out@[m].replace == replace
            },
        decreases sorted.len() - j,
    {
        out.push(Completion { text: sorted[j].0.clone(), kind: sorted[j].1, replace });
        j = j + 1;
    }
    proof {
        assert forall|t: Seq<char>, kind: CompletionKind| #[trigger] lists(out@, t, kind) <==> holds_cand(sorted@, t, kind) by {
            if lists(out@, t, kind) {
                let m = choose|m: int| 0 <= m < out@.len() && (#[trigger] out@[m]).text@ == t && out@[m].kind == kind;
                assert(sorted@[m].0@ == t);
            }
            if holds_cand(sorted@, t, kind) {
                let m = choose|m: int| 0 <= m < sorted@.len() && (#[trigger] sorted@[m]).0@ == t && sorted@[m].1 == kind;
                assert(out@[m].text@ == t);
            }
        }
        assert forall|a: int, b: int| 0 <= a <= b < out@.len() implies
            cand_le(((#[trigger] out@[a]).text@, out@[a].kind), ((#[trigger] out@[b]).text@, out@[b].kind)) by {
            assert(cand_le((sorted@[a].0@, sorted@[a].1), (sorted@[b].0@, sorted@[b].1)));
        }
        assert(completions_view(out@) =~= sorted_v);
        assert forall|t: Seq<char>, kind: CompletionKind| #[trigger] completions_view(out@).to_multiset().count((t, kind))
            == if partial@.is_prefix_of(t) { candidate_count(expectation, *ops, funcs@, *scope, t, kind) } else { 0 } by {
            assert(sorted_v.to_multiset().count((t, kind)) == if partial@.is_prefix_of(t) {
                cand_view(candidates@).to_multiset().count((t, kind))
            } else {
                0
            });
        }
    }
    out
}

proof fn lemma_cand_refl(a: (Seq<char>, CompletionKind))
    ensures
        cand_le(a, a),
{
    lemma_text_le_total(a.0, a.0);
}

proof fn lemma_cand_trans(a: (Seq<char>, CompletionKind), b: (Seq<char>, CompletionKind), c: (Seq<char>, CompletionKind))
    requires
        cand_le(a, b),
        cand_le(b, c),
    ensures
        cand_le(a, c),
{
    if rank_of(a.1) == rank_of(b.1) && rank_of(b.1) == rank_of(c.1) {
        lemma_text_le_trans(a.0, b.0, c.0);
    }
}

/// Where `c` does not come no later than `p`, it comes before `p` and
/// before anything `p` comes before.
proof fn lemma_cand_after(c: (Seq<char>, CompletionKind), p: (Seq<char>, CompletionKind), q: (Seq<char>, CompletionKind))
    requires
        !cand_le(p, c),
        cand_le(p, q),
    ensures
        cand_le(c, q),
{
    lemma_text_le_total(p.0, c.0);
    lemma_cand_trans(c, p, q);
}

/// Whether `s` starts with `p`
fn starts_with_chars(s: &[char], p: &[char]) -> (r: bool)
    ensures
        r == p@.is_prefix_of(s@),
{
    if p.len() > s.len() {
        return false;
    }
    let mut i: usize = 0;
    while i < p.len()
        invariant
            i <= p@.len() <= s@.len(),
            forall|m: int| 0 <= m < i ==> p@[m] == s@[m],
        decreases p.len() - i,
    {
        if p[i] != s[i] {
            return false;
        }
        i = i + 1;
    }
    true
}

/// The completions `r` fit the tokens `ts` before `cursor`, which are
/// the views of `toks`: the words that fit where the tokens before the
/// partial identifier (if any) stop, starting with that identifier.
pub open spec fn completes_after<V>(r: Seq<Completion>, ts: Seq<(int, int, TokenView)>, toks: Seq<Spanned<Token>>,
    cursor: usize, ops: OpRegistry, funcs: Seq<String>, scope: Scope<V>) -> bool {
    let ctx = if ends_in_partial(ts, cursor) { toks.drop_last() } else { toks };
    completion_list(r, expectation_after(ctx, ops), partial_of(ts, cursor), replaced(ts, cursor), ops, funcs, scope)
}

/// The last token is an identifier that ends just before `cursor`.
pub open spec fn ends_in_partial(ts: Seq<(int, int, TokenView)>, cursor: usize) -> bool {
    let n = ts.len();
    n > 0 && ts[n - 1].2 is Ident && ts[n - 1].1 + 1 == cursor
}

/// The partial word before `cursor`: the identifier that ends there, or nothing.
pub open spec fn partial_of(ts: Seq<(int, int, TokenView)>, cursor: usize) -> Seq<char> {
    if ends_in_partial(ts, cursor) { ts[ts.len() - 1].2->Ident_0 } else { Seq::<char>::empty() }
}

/// What a completion replaces: the partial word, or the empty span at `cursor`.
pub open spec fn replaced(ts: Seq<(int, int, TokenView)>, cursor: usize) -> Span {
    if ends_in_partial(ts, cursor) {
        Span { start: ts[ts.len() - 1].0 as usize, end: cursor }
    } else {
        Span { start: cursor, end: cursor }
    }
}

/// The completions at position `cursor` of `source`: after the partial
/// identifier that ends there (if any), the words that fit where the line
/// before it stops, as the parser's last problem says (an expression
/// where the line is empty, anything where it parses)
pub fn complete_at<V>(ops: &OpRegistry, funcs: &Vec<String>, source: &str, cursor: usize, scope: &Scope<V>) -> (r: Vec<Completion>)
    requires
        lex_from(source@.take(if cursor < source@.len() { cursor as int } else { source@.len() as int }), *ops, 0) !is Overflow,
        precedences_bounded(ops),
        scope.wf(),
    ensures
        match lex_from(source@.take(if cursor < source@.len() { cursor as int } else { source@.len() as int }), *ops, 0) {
            LexOutcome::Tokens(ts) => exists|toks: Seq<Spanned<Token>>| #![trigger tokens_view(toks)]
                tokens_view(toks) == ts && completes_after(r@, ts, toks, cursor, *ops, funcs@, *scope),
            _ => r@.len() == 0,
        },
{
    let prefix = char_prefix(source, cursor);

    let tokens = match Lexer::lex(prefix.as_str(), ops) {
        Ok(tokens) => tokens,
        Err(_) => {
            return Vec::new();
        },
    };

    let (partial, replace, context_tokens) = split_partial_ident(tokens.as_slice(), cursor);

    let expectation = if context_tokens.len() == 0 {
        Expectation::ExprStart
    } else {
        let (_, errors) = Parser::parse_recovering(ops, context_tokens);
        if errors.len() > 0 {
            proof {
                assert(errs_view(errors@).last() == crate::expr::err_view(errors@[errors@.len() - 1]));
            }
            expectation_from_error(&errors[errors.len() - 1])
        } else {
            Expectation::Any
        }
    };

    let r = complete_with(expectation, partial.as_str(), replace, ops, funcs, scope);
    proof {
        let ts = tokens_view(tokens@);
        let n = tokens@.len();
        assert(ts.len() == n);
        if n > 0 {
            assert(ts[n - 1] == (tokens@[n - 1].start as int, tokens@[n - 1].end as int, tokens@[n - 1].value@));
        }
        assert(partial@ == partial_of(ts, cursor));
        assert(replace == replaced(ts, cursor));
        assert(context_tokens@ == if ends_in_partial(ts, cursor) { tokens@.drop_last() } else { tokens@ });
        assert(expectation == expectation_after(context_tokens@, *ops));
        assert(completes_after(r@, ts, tokens@, cursor, *ops, funcs@, *scope));
    }
    r
}

} // verus!

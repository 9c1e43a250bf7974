//! What a kaon module declares for registration: each of its functions,
//! under its path, with its description, the arguments it is called with,
//! and how each argument is taken from a call.
//!
//! A module is read as plain values: its items, each function with its doc
//! lines and parameters, each parameter with its name, the last segment of
//! its type's path, its doc lines and whether it is marked variadic.
use vstd::prelude::*;
use crate::text::{is_whitespace_char, char_is_whitespace, str_to_chars, chars_to_string, push_str, push_all, str_eq};
use crate::value::Type;

verus! {

/// A kaon type that an argument of a module function may be declared with
#[derive(Debug, Clone, Copy, PartialEq, Eq, Structural)]
pub enum Marker {
    Str,
    Int,
    Float,
    Bool,
    List,
    Method,
    Value,
}

/// A parameter of a module function, as its declaration reads
pub enum Param {
    /// `self`, in any form
    Receiver,
    /// `pattern: type`: the pattern's name where it is a plain identifier,
    /// the last segment of the type where it is a path, the doc lines, and
    /// whether the parameter is marked variadic
    Typed { name: Option<String>, ty: Option<String>, docs: Vec<String>, variadic: bool },
}

/// A function of a module: its name, doc lines and parameters
pub struct FnItem {
    pub name: String,
    pub docs: Vec<String>,
    pub params: Vec<Param>,
}

/// An item of a module, as its declaration reads
pub enum ModItem {
    Func(FnItem),
    /// A nested module, with its items where it has a body
    Mod { name: String, body: Option<Vec<ModItem>> },
    /// `type name = ty;`, with the type as written
    TypeAlias { name: String, ty: String },
    Other,
}

/// Why a module cannot be registered
#[derive(Debug, Clone, Copy, PartialEq, Eq, Structural)]
pub enum ModuleError {
    NoBody,
    NoContext,
    NestedWithoutBody,
    NotFnOrMod,
    Receiver,
    NotIdent,
    UnsupportedType,
}

/// The message of a module error.
pub open spec fn module_error_text(e: ModuleError) -> Seq<char> {
    match e {
        ModuleError::NoBody => "#[kaon::module] requires a `mod name { .. }` with a body"@,
        ModuleError::NoContext => "#[kaon::module] requires a leading `type Cx = YourStateType;`"@,
        ModuleError::NestedWithoutBody => "kaon::module! requires `mod name { .. }`"@,
        ModuleError::NotFnOrMod => "kaon::module! only accepts `fn` and `mod`"@,
        ModuleError::Receiver => "kaon::module! functions cannot take `self`"@,
        ModuleError::NotIdent => "kaon::module! function arguments must be simple identifiers"@,
        ModuleError::UnsupportedType => "unsupported argument type: expected Str, Int, Float, Bool, List, Method, or Value"@,
    }
}

impl ModuleError {
    /// The message this error is reported with
    pub fn message(&self) -> (r: String)
        ensures
            r@ == module_error_text(*self),
    {
        let mut out: Vec<char> = Vec::new();
        match self {
            ModuleError::NoBody => push_str(&mut out, "#[kaon::module] requires a `mod name { .. }` with a body"),
            ModuleError::NoContext => push_str(&mut out, "#[kaon::module] requires a leading `type Cx = YourStateType;`"),
            ModuleError::NestedWithoutBody => push_str(&mut out, "kaon::module! requires `mod name { .. }`"),
            ModuleError::NotFnOrMod => push_str(&mut out, "kaon::module! only accepts `fn` and `mod`"),
            ModuleError::Receiver => push_str(&mut out, "kaon::module! functions cannot take `self`"),
            ModuleError::NotIdent => push_str(&mut out, "kaon::module! function arguments must be simple identifiers"),
            ModuleError::UnsupportedType => push_str(&mut out,
                "unsupported argument type: expected Str, Int, Float, Bool, List, Method, or Value"),
        }
        chars_to_string(out.as_slice())
    }
}

/// The first index at or after `i` whose char is kept by trimming (`s.len()` if none).
pub open spec fn first_kept(s: Seq<char>, i: int) -> int
    decreases s.len() - i,
{
    if i >= s.len() || !is_whitespace_char(s[i]) {
        i
    } else {
        first_kept(s, i + 1)
    }
}

/// The end of the chars before `j` and after `lo` that trimming keeps.
pub open spec fn last_kept(s: Seq<char>, j: int, lo: int) -> int
    decreases j - lo,
{
    if j <= lo || !is_whitespace_char(s[j - 1]) {
        j
    } else {
        last_kept(s, j - 1, lo)
    }
}

/// `s` without the whitespace at either end (what `str::trim` leaves).
pub open spec fn trimmed(s: Seq<char>) -> Seq<char> {
    let a = first_kept(s, 0);
    s.subrange(a, last_kept(s, s.len() as int, a))
}

/// `s` without the whitespace at either end
fn trim_chars(s: &str) -> (r: Vec<char>)
    ensures
        r@ == trimmed(s@),
{
    let chars = str_to_chars(s);
    let n = chars.len();
    let mut a: usize = 0;
    while a < n && char_is_whitespace(chars[a])
        invariant
            n == chars@.len(),
            chars@ == s@,
            a <= n,
            first_kept(s@, a as int) == first_kept(s@, 0),
        decreases n - a,
    {
        a = a + 1;
    }
    let mut b: usize = n;
    while b > a && char_is_whitespace(chars[b - 1])
        invariant
            n == chars@.len(),
            chars@ == s@,
            a <= b <= n,
            last_kept(s@, b as int, a as int) == last_kept(s@, n as int, a as int),
        decreases b - a,
    {
        b = b - 1;
    }
    let mut out: Vec<char> = Vec::new();
    let mut i: usize = a;
    while i < b
        invariant
            a <= i <= b <= n,
            n == chars@.len(),
            out@ == chars@.subrange(a as int, i as int),
        decreases b - i,
    {
        out.push(chars[i]);
        i = i + 1;
        assert(out@ =~= chars@.subrange(a as int, i as int));
    }
    out
}

/// Doc lines, each trimmed, joined by line breaks.
pub open spec fn doc_text(docs: Seq<String>) -> Seq<char>
    decreases docs.len(),
{
    if docs.len() == 0 {
        Seq::empty()
    } else if docs.len() == 1 {
        trimmed(docs[0]@)
    } else {
        doc_text(docs.drop_last()) + seq!['\n'] + trimmed(docs.last()@)
    }
}

/// The description made of doc lines: each trimmed, joined by line breaks
pub fn doc_string(docs: &Vec<String>) -> (r: String)
    ensures
        r@ == doc_text(docs@),
{
    let mut out: Vec<char> = Vec::new();
    let mut i: usize = 0;
    while i < docs.len()
        invariant
            i <= docs@.len(),
            out@ == doc_text(docs@.take(i as int)),
        decreases docs.len() - i,
    {
        let line = trim_chars(docs[i].as_str());
        if i > 0 {
            out.push('\n');
        }
        push_all(&mut out, line.as_slice());
        proof {
            let t = docs@.take(i + 1);
            assert(t.drop_last() =~= docs@.take(i as int));
            if i == 0 {
                assert(out@ =~= trimmed(t[0]@));
            }
        }
        i = i + 1;
    }
    assert(docs@.take(docs@.len() as int) =~= docs@);
    chars_to_string(out.as_slice())
}

/// The marker a type's last path segment names, if it names one.
pub open spec fn marker_of(ty: Option<Seq<char>>) -> Option<Marker> {
    match ty {
        Some(t) => if t == "Str"@ {
            Some(Marker::Str)
        } else if t == "Int"@ {
            Some(Marker::Int)
        } else if t == "Float"@ {
            Some(Marker::Float)
        } else if t == "Bool"@ {
            Some(Marker::Bool)
        } else if t == "List"@ {
            Some(Marker::List)
        } else if t == "Method"@ {
            Some(Marker::Method)
        } else if t == "Value"@ {
            Some(Marker::Value)
        } else {
            None
        },
        None => None,
    }
}

/// The marker of a parameter's type: the last segment of its path, where
/// it is one of `Str`, `Int`, `Float`, `Bool`, `List`, `Method`, `Value`
pub fn type_marker(ty: &Option<String>) -> (r: Option<Marker>)
    ensures
        r == marker_of(match ty { Some(t) => Some(t@), None => None }),
{
    match ty {
        Some(t) => {
            let t = t.as_str();
            if str_eq(t, "Str") {
                Some(Marker::Str)
            } else if str_eq(t, "Int") {
                Some(Marker::Int)
            } else if str_eq(t, "Float") {
                Some(Marker::Float)
            } else if str_eq(t, "Bool") {
                Some(Marker::Bool)
            } else if str_eq(t, "List") {
                Some(Marker::List)
            } else if str_eq(t, "Method") {
                Some(Marker::Method)
            } else if str_eq(t, "Value") {
                Some(Marker::Value)
            } else {
                None
            }
        },
        None => None,
    }
}

/// The method of the arguments that takes a value of the marker's type.
pub open spec fn extractor_name(m: Marker) -> Seq<char> {
    match m {
        Marker::Str => "str"@,
        Marker::Int => "int"@,
        Marker::Float => "float"@,
        Marker::Bool => "bool"@,
        Marker::List => "list"@,
        Marker::Method => "method"@,
        Marker::Value => "value"@,
    }
}

/// The type an argument of the marker's type is checked against (none for any value).
pub open spec fn marker_type(m: Marker) -> Option<Type> {
    match m {
        Marker::Str => Some(Type::Str),
        Marker::Int => Some(Type::Int),
        Marker::Float => Some(Type::Float),
        Marker::Bool => Some(Type::Bool),
        Marker::List => Some(Type::List),
        Marker::Method => Some(Type::Method),
        Marker::Value => None,
    }
}

/// How an argument of the marker's type is taken from a call: the method
/// of the arguments that takes it, and the type it is checked against
pub fn extractor_for(m: Marker) -> (r: (&'static str, Option<Type>))
    ensures
        r.0@ == extractor_name(m),
        r.1 == marker_type(m),
{
    match m {
        Marker::Str => ("str", Some(Type::Str)),
        Marker::Int => ("int", Some(Type::Int)),
        Marker::Float => ("float", Some(Type::Float)),
        Marker::Bool => ("bool", Some(Type::Bool)),
        Marker::List => ("list", Some(Type::List)),
        Marker::Method => ("method", Some(Type::Method)),
        Marker::Value => ("value", None),
    }
}

/// An argument of a registration: its name, description, and the type it is checked against
pub struct ArgPlan {
    pub name: String,
    pub desc: String,
    pub ty: Option<Type>,
}

/// The registration of a module function: its path joined with `::`, its
/// description (none where it is empty), its arguments, its variadic
/// argument (name and description), each name bound in its body with the
/// marker it is taken by, and whether its first parameter is the context
pub struct Registration {
    pub name: String,
    pub desc: Option<String>,
    pub args: Vec<ArgPlan>,
    pub variadic: Option<(String, String)>,
    pub lets: Vec<(String, Marker)>,
    pub context: bool,
}

/// What a module registers: the context type it declares, and each function
pub struct ModulePlan {
    pub context: String,
    pub registrations: Vec<Registration>,
}

/// An argument of a registration, its texts as chars
pub struct ArgView {
    pub name: Seq<char>,
    pub desc: Seq<char>,
    pub ty: Option<Type>,
}

/// What the parameters of a function give its registration
pub struct ParamsView {
    pub args: Seq<ArgView>,
    pub variadic: Option<(Seq<char>, Seq<char>)>,
    pub lets: Seq<(Seq<char>, Marker)>,
    pub context: bool,
}

/// A registration, its texts as chars
pub struct PlanView {
    pub name: Seq<char>,
    pub desc: Option<Seq<char>>,
    pub args: Seq<ArgView>,
    pub variadic: Option<(Seq<char>, Seq<char>)>,
    pub lets: Seq<(Seq<char>, Marker)>,
    pub context: bool,
}

/// A function found in a module, under the path of modules to it
pub struct Leaf<'a> {
    pub path: Vec<String>,
    pub func: &'a FnItem,
}

/// The texts of strings
pub open spec fn strings_view(v: Seq<String>) -> Seq<Seq<char>> {
    Seq::new(v.len(), |i: int| v[i]@)
}

/// The paths and functions of leaves
pub open spec fn leaves_view(v: Seq<Leaf>) -> Seq<(Seq<Seq<char>>, FnItem)> {
    Seq::new(v.len(), |i: int| (strings_view(v[i].path@), *v[i].func))
}

/// The view of an argument
pub open spec fn arg_view(a: ArgPlan) -> ArgView {
    ArgView { name: a.name@, desc: a.desc@, ty: a.ty }
}

/// The view of a registration
pub open spec fn plan_view(r: Registration) -> PlanView {
    PlanView {
        name: r.name@,
        desc: match r.desc { Some(d) => Some(d@), None => None },
        args: Seq::new(r.args@.len(), |i: int| arg_view(r.args@[i])),
        variadic: match r.variadic { Some((n, d)) => Some((n@, d@)), None => None },
        lets: Seq::new(r.lets@.len(), |i: int| (r.lets@[i].0@, r.lets@[i].1)),
        context: r.context,
    }
}

/// The views of registrations
pub open spec fn plans_view(v: Seq<Registration>) -> Seq<PlanView> {
    Seq::new(v.len(), |i: int| plan_view(v[i]))
}

/// Names joined with `::`.
pub open spec fn path_text(p: Seq<Seq<char>>) -> Seq<char>
    decreases p.len(),
{
    if p.len() == 0 {
        Seq::empty()
    } else if p.len() == 1 {
        p[0]
    } else {
        path_text(p.drop_last()) + "::"@ + p.last()
    }
}

/// The functions of the items, each under `prefix` and the modules to it,
/// in order; an item other than a function or a module with a body fails.
pub open spec fn collected(items: Seq<ModItem>, prefix: Seq<Seq<char>>) -> Result<Seq<(Seq<Seq<char>>, FnItem)>, ModuleError>
    decreases items,
{
    if items.len() == 0 {
        Ok(Seq::empty())
    } else {
        let first = match items[0] {
            ModItem::Func(f) => Ok(seq![(prefix.push(f.name@), f)]),
            ModItem::Mod { name, body } => match body {
                Some(b) => collected(b@, prefix.push(name@)),
                None => Err(ModuleError::NestedWithoutBody),
            },
            _ => Err(ModuleError::NotFnOrMod),
        };
        match first {
            Err(e) => Err(e),
            Ok(a) => match collected(items.subrange(1, items.len() as int), prefix) {
                Err(e) => Err(e),
                Ok(b) => Ok(a + b),
            },
        }
    }
}

/// The parameters from the `i`-th on, after what those before gave: the
/// first one named `cx` binds the context; a variadic one becomes the
/// variadic argument, taken as a list; any other must be of a marker's
/// type. `self`, a pattern, or another type fails.
pub open spec fn params_plan(ps: Seq<Param>, i: int, acc: ParamsView) -> Result<ParamsView, ModuleError>
    decreases ps.len() - i,
{
    if i < 0 || i >= ps.len() {
        Ok(acc)
    } else {
        match ps[i] {
            Param::Receiver => Err(ModuleError::Receiver),
            Param::Typed { name, ty, docs, variadic } => match name {
                None => Err(ModuleError::NotIdent),
                Some(n) => if i == 0 && n@ == "cx"@ {
                    params_plan(ps, i + 1, ParamsView { args: acc.args, variadic: acc.variadic, lets: acc.lets, context: true })
                } else if variadic {
                    params_plan(ps, i + 1, ParamsView {
                        args: acc.args,
                        variadic: Some((n@, doc_text(docs@))),
                        lets: acc.lets.push((n@, Marker::List)),
                        context: acc.context,
                    })
                } else {
                    match marker_of(match ty { Some(t) => Some(t@), None => None }) {
                        None => Err(ModuleError::UnsupportedType),
                        Some(m) => params_plan(ps, i + 1, ParamsView {
                            args: acc.args.push(ArgView { name: n@, desc: doc_text(docs@), ty: marker_type(m) }),
                            variadic: acc.variadic,
                            lets: acc.lets.push((n@, m)),
                            context: acc.context,
                        }),
                    }
                },
            },
        }
    }
}

/// Nothing given yet by the parameters
pub open spec fn no_params() -> ParamsView {
    ParamsView { args: Seq::empty(), variadic: None, lets: Seq::empty(), context: false }
}

/// The registration of the function `f` found under `path`.
pub open spec fn plan_of(path: Seq<Seq<char>>, f: FnItem) -> Result<PlanView, ModuleError> {
    match params_plan(f.params@, 0, no_params()) {
        Err(e) => Err(e),
        Ok(p) => Ok(PlanView {
            name: path_text(path),
            desc: if doc_text(f.docs@).len() == 0 { None } else { Some(doc_text(f.docs@)) },
            args: p.args,
            variadic: p.variadic,
            lets: p.lets,
            context: p.context,
        }),
    }
}

/// The registrations of the leaves, in order; the first that fails fails them all.
pub open spec fn plans(leaves: Seq<(Seq<Seq<char>>, FnItem)>) -> Result<Seq<PlanView>, ModuleError>
    decreases leaves.len(),
{
    if leaves.len() == 0 {
        Ok(Seq::empty())
    } else {
        match plans(leaves.drop_last()) {
            Err(e) => Err(e),
            Ok(ps) => match plan_of(leaves.last().0, leaves.last().1) {
                Err(e) => Err(e),
                Ok(p) => Ok(ps.push(p)),
            },
        }
    }
}

/// Whether an item declares the context type: `type Cx = ..;`
pub open spec fn is_context(item: ModItem) -> bool {
    match item {
        ModItem::TypeAlias { name, .. } => name@ == "Cx"@,
        _ => false,
    }
}

/// The type an item declares (empty for an item that declares none)
pub open spec fn declared_type(item: ModItem) -> Seq<char> {
    match item {
        ModItem::TypeAlias { ty, .. } => ty@,
        _ => Seq::empty(),
    }
}

/// The first index at or after `i` of an item that declares the context type
pub open spec fn context_index(items: Seq<ModItem>, i: int) -> Option<int>
    decreases items.len() - i,
{
    if i < 0 || i >= items.len() {
        None
    } else if is_context(items[i]) {
        Some(i)
    } else {
        context_index(items, i + 1)
    }
}

/// What a module registers: it must have a body with an item declaring the
/// context type; the first such item gives the type and is set aside, and
/// each function of the rest is registered under its path.
pub open spec fn module_plan(body: Option<Seq<ModItem>>) -> Result<(Seq<char>, Seq<PlanView>), ModuleError> {
    match body {
        None => Err(ModuleError::NoBody),
        Some(items) => match context_index(items, 0) {
            None => Err(ModuleError::NoContext),
            Some(k) => match collected(items.remove(k), Seq::empty()) {
                Err(e) => Err(e),
                Ok(leaves) => match plans(leaves) {
                    Err(e) => Err(e),
                    Ok(ps) => Ok((declared_type(items[k]), ps)),
                },
            },
        },
    }
}

/// A copy of strings
fn copy_strings(v: &Vec<String>) -> (r: Vec<String>)
    ensures
        r@ == v@,
{
    let mut out: Vec<String> = Vec::new();
    let mut i: usize = 0;
    while i < v.len()
        invariant
            i <= v@.len(),
            out@ == v@.take(i as int),
        decreases v.len() - i,
    {
        out.push(v[i].clone());
        i = i + 1;
        assert(out@ =~= v@.take(i as int));
    }
    assert(v@.take(v@.len() as int) =~= v@);
    out
}

/// Names joined with `::`
fn join_path(path: &Vec<String>) -> (r: String)
    ensures
        r@ == path_text(strings_view(path@)),
{
    let mut out: Vec<char> = Vec::new();
    let mut i: usize = 0;
    while i < path.len()
        invariant
            i <= path@.len(),
            out@ == path_text(strings_view(path@).take(i as int)),
        decreases path.len() - i,
    {
        if i > 0 {
            push_str(&mut out, "::");
        }
        push_str(&mut out, path[i].as_str());
        proof {
            let t = strings_view(path@).take(i + 1);
            assert(t.drop_last() =~= strings_view(path@).take(i as int));
            if i == 0 {
                assert(out@ =~= t[0]);
            }
        }
        i = i + 1;
    }
    assert(strings_view(path@).take(path@.len() as int) =~= strings_view(path@));
    chars_to_string(out.as_slice())
}

/// `acc` before the functions of a result, or its failure
pub open spec fn prepend(acc: Seq<(Seq<Seq<char>>, FnItem)>, r: Result<Seq<(Seq<Seq<char>>, FnItem)>, ModuleError>)
    -> Result<Seq<(Seq<Seq<char>>, FnItem)>, ModuleError> {
    match r {
        Ok(b) => Ok(acc + b),
        Err(e) => Err(e),
    }
}

/// Gathers the functions of the items, each under `prefix` and the modules to it
fn collect<'a>(items: &'a [ModItem], prefix: &mut Vec<String>, out: &mut Vec<Leaf<'a>>) -> (r: Result<(), ModuleError>)
    ensures
        match collected(items@, strings_view(old(prefix)@)) {
            Ok(ls) => r is Ok && leaves_view(final(out)@) == leaves_view(old(out)@) + ls && final(prefix)@ == old(prefix)@,
            Err(e) => r == Err::<(), ModuleError>(e),
        },
    decreases items@,
{
    let ghost p = strings_view(prefix@);
    let ghost o = leaves_view(out@);
    let ghost mut acc: Seq<(Seq<Seq<char>>, FnItem)> = Seq::empty();
    proof {
        assert(items@.skip(0) =~= items@);
        assert(o + acc =~= o);
    }
    let mut i: usize = 0;
    while i < items.len()
        invariant
            i <= items@.len(),
            prefix@ == old(prefix)@,
            p == strings_view(old(prefix)@),
            o == leaves_view(old(out)@),
            leaves_view(out@) == o + acc,
            collected(items@, p) == prepend(acc, collected(items@.skip(i as int), p)),
        decreases items.len() - i,
    {
        let ghost rest = items@.skip(i as int);
        proof {
            assert(rest.subrange(1, rest.len() as int) =~= items@.skip(i + 1));
            assert(rest[0] == items@[i as int]);
        }
        match &items[i] {
            ModItem::Func(f) => {
                let mut path = copy_strings(prefix);
                path.push(f.name.clone());
                proof {
                    assert(strings_view(path@) =~= p.push(f.name@));
                }
                let ghost before = out@;
                out.push(Leaf { path, func: f });
                proof {
                    let item = (p.push(f.name@), *f);
                    assert(leaves_view(out@) =~= leaves_view(before).push(item));
                    assert(acc + seq![item] + collected(items@.skip(i + 1), p)->Ok_0
                        =~= acc + (seq![item] + collected(items@.skip(i + 1), p)->Ok_0));
                    assert(o + acc + seq![item] =~= o + (acc + seq![item]));
                    acc = acc + seq![item];
                }
            },
            ModItem::Mod { name, body } => {
                match body {
                    Some(b) => {
                        prefix.push(name.clone());
                        proof {
                            assert(strings_view(prefix@) =~= p.push(name@));
                            assert(decreases_to!(items@ => b@));
                        }
                        let ghost before = leaves_view(out@);
                        collect(b.as_slice(), prefix, out)?;
                        let ghost inner = collected(b@, p.push(name@))->Ok_0;
                        prefix.pop();
                        proof {
                            assert(prefix@ =~= old(prefix)@);
                            assert(acc + inner + collected(items@.skip(i + 1), p)->Ok_0
                                =~= acc + (inner + collected(items@.skip(i + 1), p)->Ok_0));
                            assert(o + acc + inner =~= o + (acc + inner));
                            acc = acc + inner;
                        }
                    },
                    None => {
                        return Err(ModuleError::NestedWithoutBody);
                    },
                }
            },
            _ => {
                return Err(ModuleError::NotFnOrMod);
            },
        }
        i = i + 1;
    }
    proof {
        assert(items@.skip(items@.len() as int) =~= Seq::<ModItem>::empty());
        assert(acc + Seq::<(Seq<Seq<char>>, FnItem)>::empty() =~= acc);
    }
    Ok(())
}

/// What the parameters chosen so far give a registration
pub open spec fn params_so_far(args: Seq<ArgPlan>, variadic: Option<(String, String)>, lets: Seq<(String, Marker)>,
    context: bool) -> ParamsView {
    ParamsView {
        args: Seq::new(args.len(), |i: int| arg_view(args[i])),
        variadic: match variadic { Some((n, d)) => Some((n@, d@)), None => None },
        lets: Seq::new(lets.len(), |i: int| (lets[i].0@, lets[i].1)),
        context,
    }
}

/// The registration of a function found under the path of a leaf
pub fn build_registration(leaf: &Leaf) -> (r: Result<Registration, ModuleError>)
    ensures
        match plan_of(strings_view(leaf.path@), *leaf.func) {
            Ok(p) => r matches Ok(reg) && plan_view(reg) == p,
            Err(e) => r matches Err(e2) && e2 == e,
        },
{
    let name = join_path(&leaf.path);
    let desc = doc_string(&leaf.func.docs);
    let desc = if desc.as_str().is_empty() { None } else { Some(desc) };

    let params = &leaf.func.params;
    let ghost goal = params_plan(params@, 0, no_params());
    let mut args: Vec<ArgPlan> = Vec::new();
    let mut lets: Vec<(String, Marker)> = Vec::new();
    let mut variadic: Option<(String, String)> = None;
    let mut context = false;
    proof {
        assert(params_so_far(args@, variadic, lets@, context).args =~= no_params().args);
        assert(params_so_far(args@, variadic, lets@, context).lets =~= no_params().lets);
    }

    let mut i: usize = 0;
    while i < params.len()
        invariant
            i <= params@.len(),
            params@ == leaf.func.params@,
            goal == params_plan(params@, 0, no_params()),
            params_plan(params@, i as int, params_so_far(args@, variadic, lets@, context)) == goal,
        decreases params.len() - i,
    {
        match &params[i] {
            Param::Receiver => {
                return Err(ModuleError::Receiver);
            },
            Param::Typed { name, ty, docs, variadic: is_variadic } => {
                let n = match name {
                    Some(n) => n,
                    None => {
                        return Err(ModuleError::NotIdent);
                    },
                };
                if i == 0 && str_eq(n.as_str(), "cx") {
                    context = true;
                } else {
                    let arg_desc = doc_string(docs);
                    if *is_variadic {
                        variadic = Some((n.clone(), arg_desc));
                        let ghost before = lets@;
                        lets.push((n.clone(), Marker::List));
                        proof {
                            assert(Seq::new(lets@.len(), |j: int| (lets@[j].0@, lets@[j].1))
                                =~= Seq::new(before.len(), |j: int| (before[j].0@, before[j].1)).push((n@, Marker::List)));
                        }
                    } else {
                        let marker = match type_marker(ty) {
                            Some(m) => m,
                            None => {
                                return Err(ModuleError::UnsupportedType);
                            },
                        };
                        let (_, ty_check) = extractor_for(marker);
                        let ghost before_args = args@;
                        let ghost before_lets = lets@;
                        args.push(ArgPlan { name: n.clone(), desc: arg_desc, ty: ty_check });
                        lets.push((n.clone(), marker));
                        proof {
                            assert(Seq::new(args@.len(), |j: int| arg_view(args@[j]))
                                =~= Seq::new(before_args.len(), |j: int| arg_view(before_args[j])).push(
                                    ArgView { name: n@, desc: doc_text(docs@), ty: marker_type(marker) }));
                            assert(Seq::new(lets@.len(), |j: int| (lets@[j].0@, lets@[j].1))
                                =~= Seq::new(before_lets.len(), |j: int| (before_lets[j].0@, before_lets[j].1)).push((n@, marker)));
                        }
                    }
                }
            },
        }
        i = i + 1;
    }

    let r = Registration { name, desc, args, variadic, lets, context };
    proof {
        assert(plan_view(r).args =~= params_so_far(r.args@, r.variadic, r.lets@, r.context).args);
        assert(plan_view(r).lets =~= params_so_far(r.args@, r.variadic, r.lets@, r.context).lets);
    }
    Ok(r)
}

proof fn lemma_plans_fail(ls: Seq<(Seq<Seq<char>>, FnItem)>, i: int, e: ModuleError)
    requires
        0 <= i < ls.len(),
        plans(ls.take(i)) is Ok,
        plan_of(ls[i].0, ls[i].1) == Err::<PlanView, ModuleError>(e),
    ensures
        plans(ls) == Err::<Seq<PlanView>, ModuleError>(e),
    decreases ls.len(),
{
    if ls.len() == i + 1 {
        assert(ls.drop_last() =~= ls.take(i));
    } else {
        assert(ls.drop_last().take(i) =~= ls.take(i));
        lemma_plans_fail(ls.drop_last(), i, e);
    }
}

/// Whether the item declares the context type: `type Cx = ..;`
fn is_context_item(item: &ModItem) -> (r: bool)
    ensures
        r == is_context(*item),
{
    match item {
        ModItem::TypeAlias { name, .. } => str_eq(name.as_str(), "Cx"),
        _ => false,
    }
}

/// The items of a module body, if it has one
pub open spec fn items_of(body: Option<Vec<ModItem>>) -> Option<Seq<ModItem>> {
    match body {
        Some(v) => Some(v@),
        None => None,
    }
}

/// What the module with the items `body` registers: the context type it
/// declares, and each of its functions under its path
pub fn module(body: Option<Vec<ModItem>>) -> (r: Result<ModulePlan, ModuleError>)
    ensures
        match module_plan(items_of(body)) {
            Ok(m) => r matches Ok(p) && p.context@ == m.0 && plans_view(p.registrations@) == m.1,
            Err(e) => r matches Err(e2) && e2 == e,
        },
{
    let ghost body_v = items_of(body);
    let mut items = match body {
        Some(items) => items,
        None => {
            return Err(ModuleError::NoBody);
        },
    };

    let mut k: usize = 0;
    while k < items.len() && !is_context_item(&items[k])
        invariant
            k <= items@.len(),
            context_index(items@, k as int) == context_index(items@, 0),
        decreases items.len() - k,
    {
        k = k + 1;
    }
    if k == items.len() {
        return Err(ModuleError::NoContext);
    }

    let ghost all = items@;
    let cx_item = items.remove(k);
    let context = match cx_item {
        ModItem::TypeAlias { ty, .. } => ty,
        _ => String::new(),
    };

    let mut prefix: Vec<String> = Vec::new();
    let mut leaves: Vec<Leaf> = Vec::new();
    proof {
        assert(strings_view(prefix@) =~= Seq::<Seq<char>>::empty());
        assert(leaves_view(leaves@) =~= Seq::<(Seq<Seq<char>>, FnItem)>::empty());
    }
    let ghost c = collected(items@, Seq::empty());
    collect(items.as_slice(), &mut prefix, &mut leaves)?;
    let ghost ls = leaves_view(leaves@);
    proof {
        assert(Seq::<(Seq<Seq<char>>, FnItem)>::empty() + c->Ok_0 =~= c->Ok_0);
        assert(ls == c->Ok_0);
        assert(all[k as int] == cx_item);
        assert(module_plan(body_v) == match plans(ls) {
            Err(e) => Err(e),
            Ok(ps) => Ok::<(Seq<char>, Seq<PlanView>), ModuleError>((context@, ps)),
        });
    }

    let mut registrations: Vec<Registration> = Vec::new();
    let mut i: usize = 0;
    proof {
        assert(ls.take(0) =~= Seq::<(Seq<Seq<char>>, FnItem)>::empty());
        assert(plans_view(registrations@) =~= Seq::<PlanView>::empty());
    }
    while i < leaves.len()
        invariant
            i <= leaves@.len(),
            body_v == items_of(body),
            ls == leaves_view(leaves@),
            module_plan(body_v) == match plans(ls) {
                Err(e) => Err(e),
                Ok(ps) => Ok::<(Seq<char>, Seq<PlanView>), ModuleError>((context@, ps)),
            },
            plans(ls.take(i as int)) == Ok::<Seq<PlanView>, ModuleError>(plans_view(registrations@)),
        decreases leaves.len() - i,
    {
        let reg = match build_registration(&leaves[i]) {
            Ok(reg) => reg,
            Err(e) => {
                proof {
                    lemma_plans_fail(ls, i as int, e);
                }
                return Err(e);
            },
        };
        let ghost before = registrations@;
        registrations.push(reg);
        proof {
            assert(ls.take(i + 1).drop_last() =~= ls.take(i as int));
            assert(plans_view(registrations@) =~= plans_view(before).push(plan_view(reg)));
        }
        i = i + 1;
    }
    proof {
        assert(ls.take(leaves@.len() as int) =~= ls);
    }

    Ok(ModulePlan { context, registrations })
}

} // verus!

//! Why lexing or parsing failed.
use vstd::prelude::*;
use crate::value::Type;
use crate::text::{push_str, push_all, push_nat_digits, nat_digits, chars_to_string};

verus! {

/// A reason lexing, parsing or executing failed
#[derive(Debug, PartialEq)]
pub enum KaonError {
    UnclosedString,
    UnclosedComment,
    UnknownChar(char),
    UnknownEscape(char),
    Expected(String, String),
    ExpectedFoundEOF(String),
    UnknownLocal(String),
    UnknownOperator(String),
    UnknownFunction(String),
    UnknownArg(String),
    WrongArgCount { expected: usize, got: usize },
    ExpectedType(Type, Type),
    TypeMismatch(String),
    External(String),
}

/// What an error holds, its texts as sequences of chars
pub enum ErrorView {
    UnclosedString,
    UnclosedComment,
    UnknownChar(char),
    UnknownEscape(char),
    Expected(Seq<char>, Seq<char>),
    ExpectedFoundEOF(Seq<char>),
    UnknownLocal(Seq<char>),
    UnknownOperator(Seq<char>),
    UnknownFunction(Seq<char>),
    UnknownArg(Seq<char>),
    WrongArgCount { expected: usize, got: usize },
    ExpectedType(Type, Type),
    TypeMismatch(Seq<char>),
    External(Seq<char>),
}

impl View for KaonError {
    type V = ErrorView;

    open spec fn view(&self) -> ErrorView {
        match self {
            KaonError::UnclosedString => ErrorView::UnclosedString,
            KaonError::UnclosedComment => ErrorView::UnclosedComment,
            KaonError::UnknownChar(c) => ErrorView::UnknownChar(*c),
            KaonError::UnknownEscape(c) => ErrorView::UnknownEscape(*c),
            KaonError::Expected(a, b) => ErrorView::Expected(a@, b@),
            KaonError::ExpectedFoundEOF(a) => ErrorView::ExpectedFoundEOF(a@),
            KaonError::UnknownLocal(a) => ErrorView::UnknownLocal(a@),
            KaonError::UnknownOperator(a) => ErrorView::UnknownOperator(a@),
            KaonError::UnknownFunction(a) => ErrorView::UnknownFunction(a@),
            KaonError::UnknownArg(a) => ErrorView::UnknownArg(a@),
            KaonError::WrongArgCount { expected, got } => ErrorView::WrongArgCount { expected: *expected, got: *got },
            KaonError::ExpectedType(a, b) => ErrorView::ExpectedType(*a, *b),
            KaonError::TypeMismatch(a) => ErrorView::TypeMismatch(a@),
            KaonError::External(a) => ErrorView::External(a@),
        }
    }
}

/// How a type is named in messages.
pub open spec fn type_label(t: Type) -> Seq<char> {
    match t {
        Type::Null => "null"@,
        Type::Bool => "bool"@,
        Type::Int => "int"@,
        Type::Float => "float"@,
        Type::Str => "str"@,
        Type::List => "list"@,
        Type::Iter => "iter"@,
        Type::Method => "method"@,
    }
}

/// The message an error is shown with.
pub open spec fn error_text(e: KaonError) -> Seq<char> {
    match e {
        KaonError::UnclosedString => "Expected '\"' to close the string, but found EOF"@,
        KaonError::UnclosedComment => "Expected '*/' to close the comment, but found EOF"@,
        KaonError::UnknownChar(c) => "Unknown char: '"@ + seq![c] + "'"@,
        KaonError::UnknownEscape(c) => "Unknown escape character in string: '"@ + seq![c] + "'"@,
        KaonError::Expected(a, b) => "Expected "@ + a@ + ", found "@ + b@,
        KaonError::ExpectedFoundEOF(a) => "Expected "@ + a@ + ", found EOF"@,
        KaonError::UnknownLocal(a) => "Unknown local: '"@ + a@ + "'"@,
        KaonError::UnknownOperator(a) => "Unknown operator: '"@ + a@ + "'"@,
        KaonError::UnknownFunction(a) => "Unknown function: '"@ + a@ + "'"@,
        KaonError::UnknownArg(a) => "Unknown argument: '"@ + a@ + "'"@,
        KaonError::WrongArgCount { expected, got } => "Expected "@ + nat_digits(expected as nat)
            + " arguments, found "@ + nat_digits(got as nat),
        KaonError::ExpectedType(a, b) => "Expected a value of type "@ + type_label(a) + ", found a "@ + type_label(b),
        KaonError::TypeMismatch(a) => "Type mismatch: "@ + a@,
        KaonError::External(a) => a@,
    }
}

/// Appends the name of `t` to `out`.
fn push_type_label(out: &mut Vec<char>, t: Type)
    ensures
        final(out)@ == old(out)@ + type_label(t),
{
    match t {
        Type::Null => push_str(out, "null"),
        Type::Bool => push_str(out, "bool"),
        Type::Int => push_str(out, "int"),
        Type::Float => push_str(out, "float"),
        Type::Str => push_str(out, "str"),
        Type::List => push_str(out, "list"),
        Type::Iter => push_str(out, "iter"),
        Type::Method => push_str(out, "method"),
    }
}

impl KaonError {
    /// The message this error is shown with (its `Display` form)
    pub fn message(&self) -> (r: String)
        ensures
            r@ == error_text(*self),
    {
        let mut out: Vec<char> = Vec::new();
        match self {
            KaonError::UnclosedString => push_str(&mut out, "Expected '\"' to close the string, but found EOF"),
            KaonError::UnclosedComment => push_str(&mut out, "Expected '*/' to close the comment, but found EOF"),
            KaonError::UnknownChar(c) => {
                push_str(&mut out, "Unknown char: '");
                out.push(*c);
                push_str(&mut out, "'");
            },
            KaonError::UnknownEscape(c) => {
                push_str(&mut out, "Unknown escape character in string: '");
                out.push(*c);
                push_str(&mut out, "'");
            },
            KaonError::Expected(a, b) => {
                push_str(&mut out, "Expected ");
                push_str(&mut out, a.as_str());
                push_str(&mut out, ", found ");
                push_str(&mut out, b.as_str());
            },
            KaonError::ExpectedFoundEOF(a) => {
                push_str(&mut out, "Expected ");
                push_str(&mut out, a.as_str());
                push_str(&mut out, ", found EOF");
            },
            KaonError::UnknownLocal(a) => {
                push_str(&mut out, "Unknown local: '");
                push_str(&mut out, a.as_str());
                push_str(&mut out, "'");
            },
            KaonError::UnknownOperator(a) => {
                push_str(&mut out, "Unknown operator: '");
                push_str(&mut out, a.as_str());
                push_str(&mut out, "'");
            },
            KaonError::UnknownFunction(a) => {
                push_str(&mut out, "Unknown function: '");
                push_str(&mut out, a.as_str());
                push_str(&mut out, "'");
            },
            KaonError::UnknownArg(a) => {
                push_str(&mut out, "Unknown argument: '");
                push_str(&mut out, a.as_str());
                push_str(&mut out, "'");
            },
            KaonError::WrongArgCount { expected, got } => {
                push_str(&mut out, "Expected ");
                push_nat_digits(&mut out, *expected as u64);
                push_str(&mut out, " arguments, found ");
                push_nat_digits(&mut out, *got as u64);
            },
            KaonError::ExpectedType(a, b) => {
                push_str(&mut out, "Expected a value of type ");
                push_type_label(&mut out, *a);
                push_str(&mut out, ", found a ");
                push_type_label(&mut out, *b);
            },
            KaonError::TypeMismatch(a) => {
                push_str(&mut out, "Type mismatch: ");
                push_str(&mut out, a.as_str());
            },
            KaonError::External(a) => push_str(&mut out, a.as_str()),
        }
        assert(out@ =~= error_text(*self));
        chars_to_string(out.as_slice())
    }

    /// A copy of this error
    pub fn duplicate(&self) -> (r: KaonError)
        ensures
            r == *self,
    {
        match self {
            KaonError::UnclosedString => KaonError::UnclosedString,
            KaonError::UnclosedComment => KaonError::UnclosedComment,
            KaonError::UnknownChar(c) => KaonError::UnknownChar(*c),
            KaonError::UnknownEscape(c) => KaonError::UnknownEscape(*c),
            KaonError::Expected(a, b) => KaonError::Expected(a.clone(), b.clone()),
            KaonError::ExpectedFoundEOF(a) => KaonError::ExpectedFoundEOF(a.clone()),
            KaonError::UnknownLocal(a) => KaonError::UnknownLocal(a.clone()),
            KaonError::UnknownOperator(a) => KaonError::UnknownOperator(a.clone()),
            KaonError::UnknownFunction(a) => KaonError::UnknownFunction(a.clone()),
            KaonError::UnknownArg(a) => KaonError::UnknownArg(a.clone()),
            KaonError::WrongArgCount { expected, got } => KaonError::WrongArgCount { expected: *expected, got: *got },
            KaonError::ExpectedType(a, b) => KaonError::ExpectedType(*a, *b),
            KaonError::TypeMismatch(a) => KaonError::TypeMismatch(a.clone()),
            KaonError::External(a) => KaonError::External(a.clone()),
        }
    }
}

} // verus!

use kwark::error::KaonError;
use kwark::expr::Expr;
use kwark::spanned::Spanned;
use kwark::op_registry::OpRegistry;
use kwark::token::Token;
use kwark::value::{Type, Value};

#[test]
fn tokens_are_shown_with_their_kind() {
    assert_eq!(Token::Int(-12).describe(), "<int>`-12`");
    assert_eq!(Token::Ctrl(';').describe(), "<ctrl>`;`");
    assert_eq!(Token::Str("a\nb".to_string()).describe(), "<str>`a\\nb`");
    assert_eq!(Token::Let.describe(), "<let>");
}

#[test]
fn errors_are_shown_as_messages() {
    assert_eq!(KaonError::UnknownChar('#').message(), "Unknown char: '#'");
    assert_eq!(KaonError::Expected("a".to_string(), "b".to_string()).message(), "Expected a, found b");
    assert_eq!(KaonError::WrongArgCount { expected: 2, got: 10 }.message(), "Expected 2 arguments, found 10");
    assert_eq!(KaonError::ExpectedType(Type::Int, Type::Str).message(), "Expected a value of type int, found a str");
}

#[test]
fn values_report_their_type() {
    assert_eq!(Value::Int(3).type_of(), Type::Int);
    assert!(Value::Null.null());
    assert_eq!(Value::Bool(true).bool(), Ok(true));
    assert_eq!(Value::Int(4).integer(), Ok(4));
    assert_eq!(Value::Str("s".to_string()).str(), Ok("s"));
    assert!(Value::Int(4).bool().is_err());
}

#[test]
fn registry_replaces_and_lists_operators() {
    let mut ops = OpRegistry::new();
    ops.insert_binary("+", "add", 1);
    ops.insert_binary("+", "plus", 5);
    ops.insert_unary("-", "neg");
    assert_eq!(ops.binary("+"), Some(("plus".to_string(), 5)));
    let mut all = ops.op_strings();
    all.sort();
    assert_eq!(all, vec!["+".to_string(), "-".to_string()]);
}

#[test]
fn op_strings_lists_binary_then_unary_keeping_both_spellings() {
    let mut ops = OpRegistry::new();
    ops.insert_binary("-", "sub", 1);
    ops.insert_binary("*", "mul", 2);
    ops.insert_unary("-", "neg");
    ops.insert_unary("!", "not");
    let all = ops.op_strings();
    assert_eq!(all.len(), 4);
    let mut binary = all[..2].to_vec();
    binary.sort();
    assert_eq!(binary, vec!["*".to_string(), "-".to_string()]);
    let mut unary = all[2..].to_vec();
    unary.sort();
    assert_eq!(unary, vec!["!".to_string(), "-".to_string()]);
}

#[test]
fn methods_give_back_their_parameters_and_body() {
    let body = Spanned::new(3, 7, Box::new(Expr::Null));
    let m = Value::Method { args: vec!["a".to_string()], body };
    let (args, body) = m.method().unwrap();
    assert_eq!(args, vec!["a".to_string()]);
    assert_eq!((body.start, body.end), (3, 7));
    assert_eq!(Value::Int(1).method().err(), Some(KaonError::ExpectedType(Type::Method, Type::Int)));
}

#[test]
fn string_tokens_escape_each_char() {
    assert_eq!(
        Token::Str("\t'\"\\ ~\u{7f}\u{e9}\u{1F600}".to_string()).describe(),
        "<str>`\\t\\'\\\"\\\\ ~\\u{7f}\\u{e9}\\u{1f600}`"
    );
}

#[test]
fn whitespace_is_what_std_calls_whitespace() {
    for code in 0..=0x10FFFFu32 {
        if let Some(c) = char::from_u32(code) {
            assert_eq!(kwark::text::char_is_whitespace(c), c.is_whitespace(), "{code:#x}");
        }
    }
}

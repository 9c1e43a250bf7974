use kwark::error::KaonError;
use kwark::lex::Lexer;
use kwark::op_registry::OpRegistry;
use kwark::spanned::Spanned;
use kwark::token::Token;

fn registry() -> OpRegistry {
    let mut ops = OpRegistry::new();
    ops.insert_binary("==", "eq", 0);
    ops.insert_binary("!=", "neq", 0);
    ops.insert_unary("!", "not");
    ops
}

#[test]
fn test_lex_empty_input_is_empty() {
    assert_eq!(Lexer::lex("", &registry()).unwrap(), vec![]);
}

#[test]
fn test_lex_ctrl() {
    let tokens = Lexer::lex("()", &registry()).unwrap();
    assert_eq!(
        tokens,
        vec![
            Spanned::new(0, 0, Token::Ctrl('(')),
            Spanned::new(1, 1, Token::Ctrl(')'))
        ]
    )
}

#[test]
fn test_lex_op() {
    let tokens = Lexer::lex("== != !=!", &registry()).unwrap();
    assert_eq!(
        tokens,
        vec![
            Spanned::new(0, 1, Token::Op("==".to_string())),
            Spanned::new(3, 4, Token::Op("!=".to_string())),
            Spanned::new(6, 7, Token::Op("!=".to_string())),
            Spanned::new(8, 8, Token::Op("!".to_string())),
        ]
    )
}

#[test]
fn test_lex_op_stops_at_unknown_combo() {
    let tokens = Lexer::lex("!!", &registry()).unwrap();
    assert_eq!(
        tokens,
        vec![
            Spanned::new(0, 0, Token::Op("!".to_string())),
            Spanned::new(1, 1, Token::Op("!".to_string())),
        ]
    )
}

#[test]
fn test_lex_ident() {
    let tokens = Lexer::lex("true false for if else  hi,ec9ho", &registry()).unwrap();
    assert_eq!(
        tokens,
        vec![
            Spanned::new(0, 3, Token::Bool(true)),
            Spanned::new(5, 9, Token::Bool(false)),
            Spanned::new(11, 13, Token::For),
            Spanned::new(15, 16, Token::If),
            Spanned::new(18, 21, Token::Else),
            Spanned::new(24, 25, Token::Ident("hi".to_string())),
            Spanned::new(26, 26, Token::Ctrl(',')),
            Spanned::new(27, 31, Token::Ident("ec9ho".to_string())),
        ]
    )
}

#[test]
fn test_lex_str() {
    let tokens = Lexer::lex(
        r#"
                "abacadaba -> \" \" \n\t "
            "#,
        &registry(),
    )
    .unwrap();
    assert_eq!(
        tokens[0],
        Spanned::new(17, 42, Token::Str("abacadaba -> \" \" \n\t ".to_string()))
    );
}

#[test]
fn test_lex_str_span_error() {
    let err = Lexer::lex(
        r#"
                "...\f..."
            "#,
        &registry(),
    )
    .unwrap_err();
    assert_eq!(err, Spanned::new(21, 22, KaonError::UnknownEscape('f')));
}

#[test]
fn lex_numbers_and_keywords() {
    let tokens = Lexer::lex("let x = 12 in fn 1.5", &registry()).unwrap();
    let kinds: Vec<Token> = tokens.into_iter().map(|t| t.value).collect();
    assert_eq!(
        kinds,
        vec![
            Token::Let,
            Token::Ident("x".to_string()),
            Token::Op("=".to_string()),
            Token::Int(12),
            Token::In,
            Token::Fn,
            Token::Float("1.5".to_string()),
        ]
    );
}

#[test]
fn lex_unclosed_string_is_an_error() {
    let err = Lexer::lex("\"abc", &registry()).unwrap_err();
    assert_eq!(err.value, KaonError::UnclosedString);
}

#[test]
fn lex_unknown_char_is_an_error() {
    let err = Lexer::lex("a # b", &registry()).unwrap_err();
    assert_eq!(err.value, KaonError::UnknownChar('#'));
    assert_eq!((err.start, err.end), (2, 2));
}

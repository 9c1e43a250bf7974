use kwark::autocomplete::check::{check_line, Severity};
use kwark::autocomplete::complete::{complete_at, complete_with, expectation_from_error, CompletionKind, Expectation};
use kwark::autocomplete::highlight::{classify_tokens, HighlightKind};
use kwark::autocomplete::Span;
use kwark::engine::default_ops;
use kwark::error::KaonError;
use kwark::op_registry::OpRegistry;
use kwark::scope::Scope;
use kwark::spanned::Spanned;
use kwark::value::Value;

/// The functions of the standard engine
fn functions() -> Vec<String> {
    ["add", "sub", "mul", "div", "eq", "neq", "lt", "gt", "neg", "not", "and", "or", "len"]
        .iter()
        .map(|s| s.to_string())
        .collect()
}

fn new_scope() -> Scope<Value> {
    Scope::new()
}

#[test]
fn test_check_valid_line_has_no_diagnostics() {
    let diagnostics = check_line(&default_ops(), &functions(), "1 + 2", &new_scope());
    assert!(diagnostics.is_empty());
}

#[test]
fn test_check_unknown_variable_is_flagged_at_its_span() {
    let diagnostics = check_line(&default_ops(), &functions(), "foo", &new_scope());
    assert_eq!(diagnostics.len(), 1);
    assert_eq!(diagnostics[0].span, Span::new(0, 2));
}

#[test]
fn test_check_known_function_is_not_flagged() {
    let diagnostics = check_line(&default_ops(), &functions(), "add", &new_scope());
    assert!(diagnostics.is_empty());
}

#[test]
fn test_check_let_binding_is_visible_to_later_statements() {
    let diagnostics = check_line(&default_ops(), &functions(), "let x = 1; x + 1", &new_scope());
    assert!(diagnostics.is_empty());
}

#[test]
fn test_check_reports_a_syntax_error_and_an_unknown_variable_together() {
    let diagnostics = check_line(&default_ops(), &functions(), "1 + ; bar", &new_scope());
    assert_eq!(diagnostics.len(), 2);
}

#[test]
fn test_check_leaves_the_caller_scope_untouched() {
    let scope = new_scope();
    check_line(&default_ops(), &functions(), "let x = 1", &scope);
    assert!(scope.get("x").is_none());
}

#[test]
fn check_reports_the_lex_error_alone() {
    let diagnostics = check_line(&default_ops(), &functions(), "\"open", &new_scope());
    assert_eq!(diagnostics.len(), 1);
    assert_eq!(diagnostics[0].severity, Severity::Error);
    assert_eq!(diagnostics[0].message, "Expected '\"' to close the string, but found EOF");
}

#[test]
fn check_unknown_variable_message_names_it() {
    let diagnostics = check_line(&default_ops(), &functions(), "y = 2", &new_scope());
    assert_eq!(diagnostics.len(), 1);
    assert_eq!(diagnostics[0].message, "unknown variable `y`");
}

#[test]
fn check_function_arguments_are_visible_only_inside() {
    let diagnostics = check_line(&default_ops(), &functions(), "let f = fn(a) { a }; a", &new_scope());
    assert_eq!(diagnostics.len(), 1);
    assert_eq!(diagnostics[0].span, Span::new(21, 21));
}

#[test]
fn check_caller_variables_are_known() {
    let mut scope = new_scope();
    scope.register("z", Value::Null);
    assert!(check_line(&default_ops(), &functions(), "z", &scope).is_empty());
}

#[test]
fn test_complete_at_start_of_line_offers_keywords() {
    let names: Vec<_> = complete_at(&default_ops(), &functions(), "tr", 2, &new_scope())
        .into_iter()
        .map(|c| c.text)
        .collect();

    assert!(names.contains(&"true".to_string()));
}

#[test]
fn test_complete_after_let_offers_no_scope_names() {
    let mut scope = new_scope();
    scope.register("existing", Value::Null);

    let completions = complete_at(&default_ops(), &functions(), "let ", 4, &scope);
    assert!(completions.is_empty());
}

#[test]
fn test_complete_ranks_variables_before_functions_before_keywords() {
    let mut scope = new_scope();
    scope.register("foo", Value::Null);

    let mut funcs = functions();
    funcs.push("foobar".to_string());

    let completions = complete_at(&default_ops(), &funcs, "fo", 2, &scope);
    let names: Vec<_> = completions.iter().map(|c| c.text.as_str()).collect();

    assert_eq!(names, vec!["foo", "foobar", "for"]);
}

#[test]
fn test_complete_replace_span_covers_the_partial_identifier() {
    let mut scope = new_scope();
    scope.register("foo", Value::Null);

    let completions = complete_at(&default_ops(), &functions(), "fo", 2, &scope);
    assert_eq!(completions[0].replace, Span::new(0, 2));
}

#[test]
fn test_complete_after_full_expression_offers_operators() {
    let names: Vec<_> = complete_at(&default_ops(), &functions(), "1 ", 2, &new_scope())
        .into_iter()
        .map(|c| c.text)
        .collect();

    assert!(names.contains(&"+".to_string()));
}

#[test]
fn completions_come_in_order_of_kind_then_text() {
    let mut scope = new_scope();
    scope.register("b", Value::Null);
    scope.register("a", Value::Null);
    let list = complete_with(Expectation::ExprStart, "", Span::empty_at(0), &default_ops(), &functions(), &scope);
    assert_eq!(list[0].text, "a");
    assert_eq!(list[1].text, "b");
    assert_eq!(list[0].kind, CompletionKind::Variable);
    assert_eq!(list[2].text, "add");
    assert!(list.iter().all(|c| c.kind != CompletionKind::Operator));
    let last = list.last().unwrap();
    assert_eq!((last.text.as_str(), last.kind), ("true", CompletionKind::Keyword));
}

#[test]
fn expectation_follows_the_label_of_the_problem() {
    let e = Spanned::new(0, 0, KaonError::ExpectedFoundEOF("name".to_string()));
    assert_eq!(expectation_from_error(&e), Expectation::Ident);
    let e = Spanned::new(0, 0, KaonError::Expected("atom".to_string(), "x".to_string()));
    assert_eq!(expectation_from_error(&e), Expectation::ExprStart);
    let e = Spanned::new(0, 0, KaonError::UnclosedString);
    assert_eq!(expectation_from_error(&e), Expectation::Any);
}

fn ops() -> OpRegistry {
    let mut ops = OpRegistry::new();
    ops.insert_binary("+", "add", 1);
    ops
}

#[test]
fn test_highlight_classifies_every_token_kind() {
    let kinds: Vec<_> = classify_tokens("let x = 1 + \"s\" + foo", &ops())
        .into_iter()
        .map(|t| t.value)
        .collect();

    assert_eq!(
        kinds,
        vec![
            HighlightKind::Keyword,
            HighlightKind::Ident,
            HighlightKind::Operator,
            HighlightKind::Number,
            HighlightKind::Operator,
            HighlightKind::StringLit,
            HighlightKind::Operator,
            HighlightKind::Ident,
        ]
    );
}

#[test]
fn test_highlight_on_invalid_input_is_empty() {
    assert!(classify_tokens("\"unterminated", &ops()).is_empty());
}

#[test]
fn highlight_keeps_token_spans() {
    let spans = classify_tokens("if (true)", &ops());
    assert_eq!(spans.len(), 4);
    assert_eq!((spans[0].start, spans[0].end, spans[0].value), (0, 1, HighlightKind::Keyword));
    assert_eq!((spans[2].start, spans[2].end, spans[2].value), (4, 7, HighlightKind::Bool));
    assert_eq!(spans[3].value, HighlightKind::Punct);
}

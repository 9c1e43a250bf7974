use kwark::error::KaonError;
use kwark::expr::{Expr, SpannedExpr};
use kwark::lex::Lexer;
use kwark::op_registry::OpRegistry;
use kwark::parse::{first_diagnostic, Parser};
use kwark::spanned::Spanned;
use kwark::value::Value;

fn registry() -> OpRegistry {
    let mut ops = OpRegistry::new();
    ops.insert_binary("==", "eq", 0);
    ops.insert_binary("+", "add", 1);
    ops.insert_binary("-", "sub", 1);
    ops.insert_binary("*", "mul", 2);
    ops.insert_binary("/", "div", 2);
    ops.insert_unary("-", "neg");
    ops.insert_unary("!", "not");
    ops
}

fn parse(src: &str) -> SpannedExpr {
    let registry = registry();
    let tokens = Lexer::lex(src, &registry).unwrap();
    Parser::parse(&registry, &tokens).unwrap()
}

// Rebuilds an expr tree with every span zeroed
fn zero(e: SpannedExpr) -> SpannedExpr {
    let expr = match *e.into_inner() {
        Expr::Null => Expr::Null,
        Expr::Literal(v) => Expr::Literal(v),

        Expr::Error(err) => Expr::Error(Spanned::new(0, 0, err.into_inner())),

        Expr::List(items) => Expr::List(items.into_iter().map(zero).collect()),

        Expr::Let { name, body } => Expr::Let {
            name: Spanned::new(0, 0, name.into_inner()),
            body: zero(body),
        },
        Expr::Assign { name, body } => Expr::Assign {
            name: Spanned::new(0, 0, name.into_inner()),
            body: zero(body),
        },
        Expr::Local { name } => Expr::Local {
            name: Spanned::new(0, 0, name.into_inner()),
        },

        Expr::UnaryOp { op, body } => Expr::UnaryOp {
            op,
            body: zero(body),
        },
        Expr::BinOp { left, op, right } => Expr::BinOp {
            left: zero(left),
            op,
            right: zero(right),
        },

        Expr::If { cond, then, else_ } => Expr::If {
            cond: zero(cond),
            then: zero(then),
            else_: else_.map(zero),
        },
        Expr::For {
            name,
            iterator,
            body,
        } => Expr::For {
            name: name.map(|n| Spanned::new(0, 0, n.into_inner())),
            iterator: zero(iterator),
            body: zero(body),
        },

        Expr::Func { args, body } => Expr::Func {
            args: args
                .into_iter()
                .map(|a| Spanned::new(0, 0, a.into_inner()))
                .collect(),
            body: zero(body),
        },

        Expr::Then { first, next } => Expr::Then {
            first: zero(first),
            next: zero(next),
        },
        Expr::Block { body } => Expr::Block { body: zero(body) },

        Expr::Call { body, args } => Expr::Call {
            body: zero(body),
            args: args.into_iter().map(zero).collect(),
        },
    };

    Spanned::new(0, 0, Box::new(expr))
}

fn sp<T>(value: T) -> Spanned<T> {
    Spanned::new(0, 0, value)
}

fn assert_parses_to(src: &str, expected: Expr) {
    assert_eq!(zero(parse(src)), sp(Box::new(expected)));
}

#[test]
fn test_parse_int_literal() {
    assert_parses_to("1", Expr::Literal(Value::Int(1)));
}

#[test]
fn test_parse_float_literal() {
    assert_parses_to("1.5", Expr::Literal(Value::Float("1.5".to_string())));
}

#[test]
fn test_parse_bool_literal() {
    assert_parses_to("true", Expr::Literal(Value::Bool(true)));
}

#[test]
fn test_parse_str_literal() {
    assert_parses_to(r#""hi""#, Expr::Literal(Value::Str("hi".to_string())));
}

#[test]
fn test_parse_local() {
    assert_parses_to(
        "foo",
        Expr::Local {
            name: sp("foo".to_string()),
        },
    );
}

#[test]
fn test_parse_paren() {
    assert_parses_to("(1)", Expr::Literal(Value::Int(1)));
}

#[test]
fn test_parse_list() {
    assert_parses_to(
        "[1, 2, 3]",
        Expr::List(vec![
            sp(Box::new(Expr::Literal(Value::Int(1)))),
            sp(Box::new(Expr::Literal(Value::Int(2)))),
            sp(Box::new(Expr::Literal(Value::Int(3)))),
        ]),
    );
}

#[test]
fn test_parse_unary() {
    assert_parses_to(
        "-1",
        Expr::UnaryOp {
            op: "-".to_string(),
            body: sp(Box::new(Expr::Literal(Value::Int(1)))),
        },
    );
}

#[test]
fn test_parse_unary_stacked() {
    assert_parses_to(
        "!!true",
        Expr::UnaryOp {
            op: "!".to_string(),
            body: sp(Box::new(Expr::UnaryOp {
                op: "!".to_string(),
                body: sp(Box::new(Expr::Literal(Value::Bool(true)))),
            })),
        },
    );
}

#[test]
fn test_parse_binary_simple() {
    assert_parses_to(
        "1 + 2",
        Expr::BinOp {
            left: sp(Box::new(Expr::Literal(Value::Int(1)))),
            op: "+".to_string(),
            right: sp(Box::new(Expr::Literal(Value::Int(2)))),
        },
    );
}

#[test]
fn test_parse_binary_precedence() {
    // 1 + 2 * 3  ==  1 + (2 * 3)
    assert_parses_to(
        "1 + 2 * 3",
        Expr::BinOp {
            left: sp(Box::new(Expr::Literal(Value::Int(1)))),
            op: "+".to_string(),
            right: sp(Box::new(Expr::BinOp {
                left: sp(Box::new(Expr::Literal(Value::Int(2)))),
                op: "*".to_string(),
                right: sp(Box::new(Expr::Literal(Value::Int(3)))),
            })),
        },
    );
}

#[test]
fn test_parse_binary_left_associative() {
    // 1 - 2 - 3  ==  (1 - 2) - 3
    assert_parses_to(
        "1 - 2 - 3",
        Expr::BinOp {
            left: sp(Box::new(Expr::BinOp {
                left: sp(Box::new(Expr::Literal(Value::Int(1)))),
                op: "-".to_string(),
                right: sp(Box::new(Expr::Literal(Value::Int(2)))),
            })),
            op: "-".to_string(),
            right: sp(Box::new(Expr::Literal(Value::Int(3)))),
        },
    );
}

#[test]
fn test_parse_let() {
    assert_parses_to(
        "let x = 1",
        Expr::Let {
            name: sp("x".to_string()),
            body: sp(Box::new(Expr::Literal(Value::Int(1)))),
        },
    );
}

#[test]
fn test_parse_assign() {
    assert_parses_to(
        "x = 1",
        Expr::Assign {
            name: sp("x".to_string()),
            body: sp(Box::new(Expr::Literal(Value::Int(1)))),
        },
    );
}

#[test]
fn test_parse_assign_right_associative() {
    // x = y = 1  ==  x = (y = 1)
    assert_parses_to(
        "x = y = 1",
        Expr::Assign {
            name: sp("x".to_string()),
            body: sp(Box::new(Expr::Assign {
                name: sp("y".to_string()),
                body: sp(Box::new(Expr::Literal(Value::Int(1)))),
            })),
        },
    );
}

#[test]
fn test_parse_sequence() {
    assert_parses_to(
        "1; 2",
        Expr::Then {
            first: sp(Box::new(Expr::Literal(Value::Int(1)))),
            next: sp(Box::new(Expr::Literal(Value::Int(2)))),
        },
    );
}

#[test]
fn test_parse_block() {
    assert_parses_to(
        "{ 1; 2 }",
        Expr::Block {
            body: sp(Box::new(Expr::Then {
                first: sp(Box::new(Expr::Literal(Value::Int(1)))),
                next: sp(Box::new(Expr::Literal(Value::Int(2)))),
            })),
        },
    );
}

#[test]
fn test_parse_empty_input_is_null() {
    assert_parses_to("", Expr::Null);
}

#[test]
fn test_parse_fn() {
    assert_parses_to(
        "fn(a, b) { a }",
        Expr::Func {
            args: vec![sp("a".to_string()), sp("b".to_string())],
            body: sp(Box::new(Expr::Block {
                body: sp(Box::new(Expr::Local {
                    name: sp("a".to_string()),
                })),
            })),
        },
    );
}

#[test]
fn test_span_binary_covers_both_operands() {
    // "1 + 22"
    //  0123456
    let expr = parse("1 + 22");

    assert_eq!((expr.start, expr.end), (0, 5));

    let Expr::BinOp { left, right, .. } = &*expr.value else {
        panic!("expected BinOp");
    };
    assert_eq!((left.start, left.end), (0, 0));
    assert_eq!((right.start, right.end), (4, 5));
}

#[test]
fn test_span_binary_left_associative_nests_correctly() {
    // "1 - 2 - 3"
    //  012345678
    let expr = parse("1 - 2 - 3");

    assert_eq!((expr.start, expr.end), (0, 8));

    let Expr::BinOp { left, right, .. } = &*expr.value else {
        panic!("expected BinOp");
    };
    assert_eq!((right.start, right.end), (8, 8));

    let Expr::BinOp { left, right, .. } = &*left.value else {
        panic!("expected nested BinOp");
    };
    assert_eq!((left.start, left.end), (0, 0));
    assert_eq!((right.start, right.end), (4, 4));
}

#[test]
fn test_span_unary_covers_operator_and_operand() {
    // "-5"
    //  01
    let expr = parse("-5");
    assert_eq!((expr.start, expr.end), (0, 1));
}

#[test]
fn test_span_let_covers_keyword_through_body() {
    // "let x = 5"
    //  012345678
    let expr = parse("let x = 5");
    assert_eq!((expr.start, expr.end), (0, 8));

    let Expr::Let { body, .. } = &*expr.value else {
        panic!("expected Let");
    };
    assert_eq!((body.start, body.end), (8, 8));
}

#[test]
fn test_span_assign_covers_target_through_body() {
    // "x = 5"
    //  01234
    let expr = parse("x = 5");
    assert_eq!((expr.start, expr.end), (0, 4));
}

#[test]
fn test_span_sequence_covers_both_statements() {
    // "1; 2"
    //  0123
    let expr = parse("1; 2");
    assert_eq!((expr.start, expr.end), (0, 3));

    let Expr::Then { first, next } = &*expr.value else {
        panic!("expected Then");
    };
    assert_eq!((first.start, first.end), (0, 0));
    assert_eq!((next.start, next.end), (3, 3));
}

fn recovering(src: &str) -> (SpannedExpr, Vec<Spanned<KaonError>>) {
    let registry = registry();
    let tokens = Lexer::lex(src, &registry).unwrap();
    Parser::parse_recovering(&registry, &tokens)
}

#[test]
fn test_recovering_valid_input_has_no_diagnostics() {
    let (_, diagnostics) = recovering("1 + 2");
    assert!(diagnostics.is_empty());
}

#[test]
fn test_recovering_truncated_let_yields_error_node_and_diagnostic() {
    let (tree, diagnostics) = recovering("let x = ");
    assert_eq!(diagnostics.len(), 1);
    assert!(matches!(*tree.value, Expr::Error(_)));
}

#[test]
fn test_recovering_trailing_operator_yields_error_node_and_diagnostic() {
    let (tree, diagnostics) = recovering("1 + ");
    assert_eq!(diagnostics.len(), 1);
    assert!(matches!(*tree.value, Expr::Error(_)));
}

#[test]
fn test_recovering_resyncs_at_semicolon_and_parses_the_rest() {
    let (tree, diagnostics) = recovering("1 + ; 2");
    assert_eq!(diagnostics.len(), 1);

    let Expr::Then { first, next } = &*tree.value else {
        panic!("expected Then");
    };
    assert!(matches!(*first.value, Expr::Error(_)));
    assert_eq!(*next.value, Expr::Literal(Value::Int(2)));
}

#[test]
fn test_recovering_reports_every_broken_statement() {
    let (_, diagnostics) = recovering("1 + ; 2 + ; 3");
    assert_eq!(diagnostics.len(), 2);
}

#[test]
fn test_recovering_missing_semicolon_between_statements_is_diagnosed() {
    let (tree, diagnostics) = recovering("1 2");
    assert_eq!(diagnostics.len(), 1);

    let Expr::Then { first, next } = &*tree.value else {
        panic!("expected Then");
    };
    assert_eq!(*first.value, Expr::Literal(Value::Int(1)));
    assert_eq!(*next.value, Expr::Literal(Value::Int(2)));
}

#[test]
fn test_strict_parse_errors_on_missing_semicolon_between_statements() {
    let registry = registry();
    let tokens = Lexer::lex("1 2", &registry).unwrap();
    let err = Parser::parse(&registry, &tokens).unwrap_err();
    assert_eq!(
        err.value,
        KaonError::Expected("<ctrl>`;`".to_string(), "<int>`2`".to_string())
    );
}

#[test]
fn test_parse_block_with_trailing_semicolon() {
    assert_parses_to(
        "{ 1; }",
        Expr::Block {
            body: sp(Box::new(Expr::Then {
                first: sp(Box::new(Expr::Literal(Value::Int(1)))),
                next: sp(Box::new(Expr::Null)),
            })),
        },
    );
}

#[test]
fn test_parse_optional_semicolon_after_if_in_sequence() {
    assert_parses_to(
        "if true { 1 } 2",
        Expr::Then {
            first: sp(Box::new(Expr::If {
                cond: sp(Box::new(Expr::Literal(Value::Bool(true)))),
                then: sp(Box::new(Expr::Block {
                    body: sp(Box::new(Expr::Literal(Value::Int(1)))),
                })),
                else_: None,
            })),
            next: sp(Box::new(Expr::Literal(Value::Int(2)))),
        },
    );
}

#[test]
fn test_parse_optional_semicolon_after_for_in_block() {
    assert_parses_to(
        "{ for x in list { x } 2 }",
        Expr::Block {
            body: sp(Box::new(Expr::Then {
                first: sp(Box::new(Expr::For {
                    name: Some(sp("x".to_string())),
                    iterator: sp(Box::new(Expr::Local {
                        name: sp("list".to_string()),
                    })),
                    body: sp(Box::new(Expr::Block {
                        body: sp(Box::new(Expr::Local {
                            name: sp("x".to_string()),
                        })),
                    })),
                })),
                next: sp(Box::new(Expr::Literal(Value::Int(2)))),
            })),
        },
    );
}

#[test]
fn test_parse_explicit_semicolon_after_if_still_works() {
    assert_eq!(
        zero(parse("if true { 1 } 2")),
        zero(parse("if true { 1 }; 2")),
    );
}

#[test]
fn test_recovering_still_parses_fully_valid_sequences() {
    let (tree, diagnostics) = recovering("let x = 1; x + 1");
    assert!(diagnostics.is_empty());
    assert_eq!(zero(tree), zero(parse("let x = 1; x + 1")));
}

#[test]
fn parse_call_with_arguments() {
    assert_parses_to(
        "f(1, x)",
        Expr::Call {
            body: sp(Box::new(Expr::Local { name: sp("f".to_string()) })),
            args: vec![
                sp(Box::new(Expr::Literal(Value::Int(1)))),
                sp(Box::new(Expr::Local { name: sp("x".to_string()) })),
            ],
        },
    );
}

#[test]
fn parse_if_else() {
    assert_parses_to(
        "if x { 1 } else { 2 }",
        Expr::If {
            cond: sp(Box::new(Expr::Local { name: sp("x".to_string()) })),
            then: sp(Box::new(Expr::Block { body: sp(Box::new(Expr::Literal(Value::Int(1)))) })),
            else_: Some(sp(Box::new(Expr::Block { body: sp(Box::new(Expr::Literal(Value::Int(2)))) }))),
        },
    );
}

#[test]
fn parse_unknown_unary_operator_is_an_error() {
    let registry = registry();
    let tokens = Lexer::lex("* 1", &registry).unwrap();
    let err = Parser::parse(&registry, &tokens).unwrap_err();
    assert_eq!(err.value, KaonError::Expected("valid operator".to_string(), "*".to_string()));
}

#[test]
fn parse_assign_to_a_literal_is_an_error() {
    let registry = registry();
    let tokens = Lexer::lex("1 = 2", &registry).unwrap();
    let err = Parser::parse(&registry, &tokens).unwrap_err();
    assert!(matches!(err.value, KaonError::Expected(ref l, _) if l == "assignable"));
}

#[test]
fn parse_missing_closing_paren_reports_eof() {
    let registry = registry();
    let tokens = Lexer::lex("(1", &registry).unwrap();
    let err = Parser::parse(&registry, &tokens).unwrap_err();
    assert_eq!(err.value, KaonError::ExpectedFoundEOF("<ctrl>`)`".to_string()));
}

#[test]
fn first_diagnostic_picks_the_first_problem() {
    let tree = Spanned::new(0, 0, Box::new(Expr::Null));
    let errors = vec![
        Spanned::new(1, 2, KaonError::UnclosedString),
        Spanned::new(3, 4, KaonError::UnclosedComment),
    ];
    assert_eq!(first_diagnostic(tree, errors).unwrap_err(), Spanned::new(1, 2, KaonError::UnclosedString));
    let tree = Spanned::new(0, 0, Box::new(Expr::Null));
    assert_eq!(first_diagnostic(tree, vec![]).unwrap(), Spanned::new(0, 0, Box::new(Expr::Null)));
}

use kwark::engine::{bind_plan, check_arg_count, default_ops, int_arith, int_compare, int_neg, ArgPlan, Arith, Compare};
use kwark::error::KaonError;

#[test]
fn standard_operators_and_precedences() {
    let ops = default_ops();
    assert_eq!(ops.binary("+"), Some(("add".to_string(), 3)));
    assert_eq!(ops.binary("*"), Some(("mul".to_string(), 4)));
    assert_eq!(ops.binary("=="), Some(("eq".to_string(), 2)));
    assert_eq!(ops.binary("&&"), Some(("and".to_string(), 1)));
    assert_eq!(ops.binary("||"), Some(("or".to_string(), 0)));
    assert_eq!(ops.binary("%"), None);
    assert_eq!(ops.unary("-"), Some("neg".to_string()));
    assert_eq!(ops.unary("!"), Some("not".to_string()));
    assert_eq!(ops.unary("+"), None);
}

#[test]
fn argument_counts() {
    assert!(check_arg_count(2, false, 2).is_ok());
    assert_eq!(check_arg_count(2, false, 3), Err(KaonError::WrongArgCount { expected: 2, got: 3 }));
    assert!(check_arg_count(1, true, 4).is_ok());
    assert_eq!(check_arg_count(2, true, 1), Err(KaonError::WrongArgCount { expected: 2, got: 1 }));
}

#[test]
fn integer_arithmetic() {
    assert_eq!(int_arith(Arith::Add, 2, 3), 5);
    assert_eq!(int_arith(Arith::Sub, 2, 3), -1);
    assert_eq!(int_arith(Arith::Mul, -4, 3), -12);
    assert_eq!(int_arith(Arith::Div, 7, 2), 3);
    assert_eq!(int_arith(Arith::Div, -7, 2), -3);
    assert_eq!(int_arith(Arith::Div, 7, -2), -3);
    assert_eq!(int_arith(Arith::Div, -7, -2), 3);
    assert_eq!(int_neg(5), -5);
    assert!(int_compare(Compare::Lt, 1, 2));
    assert!(!int_compare(Compare::Gt, 1, 2));
}

#[test]
fn arguments_bind_by_position_then_to_the_tail() {
    let names = vec!["a".to_string(), "b".to_string()];
    assert_eq!(
        bind_plan(&names, None, 2),
        vec![("a".to_string(), ArgPlan::Single(0)), ("b".to_string(), ArgPlan::Single(1))]
    );
    assert_eq!(
        bind_plan(&names, Some("rest"), 5),
        vec![
            ("a".to_string(), ArgPlan::Single(0)),
            ("b".to_string(), ArgPlan::Single(1)),
            ("rest".to_string(), ArgPlan::Many(2, 5)),
        ]
    );
    assert_eq!(
        bind_plan(&names, Some("a"), 3),
        vec![("a".to_string(), ArgPlan::Many(2, 3)), ("b".to_string(), ArgPlan::Single(1))]
    );
    assert_eq!(bind_plan(&Vec::new(), Some("xs"), 0), vec![("xs".to_string(), ArgPlan::Many(0, 0))]);
}

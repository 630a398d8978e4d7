use sila_builder::ast::{Expr, Operator, Type};
use sila_builder::parser::{parse_expr, parse_expr_with, Mode, ParseError};
use sila_builder::tokenizer::SyntaxError;

fn nodes(s: &str) -> Vec<Expr> {
    match parse_expr(s.to_string()).unwrap() {
        Expr::Expr(v) => v,
        other => panic!("not a group: {:?}", other),
    }
}

fn is_int(e: &Expr, n: i64) -> bool {
    matches!(e, Expr::Literal(Type::Integer(m)) if *m == n)
}

fn is_op(e: &Expr, o: Operator) -> bool {
    matches!(e, Expr::Operator(p) if *p == o)
}

fn literal(e: &Expr) -> Type {
    match e {
        Expr::Literal(t) => t.clone(),
        other => panic!("not a literal: {:?}", other),
    }
}

#[test]
fn sum_in_order() {
    let v = nodes("1 + 2");
    assert_eq!(v.len(), 3);
    assert!(is_int(&v[0], 1));
    assert!(is_op(&v[1], Operator::Add));
    assert!(is_int(&v[2], 2));
}

#[test]
fn group_becomes_nested_expr() {
    let v = nodes("(1 + 2) * 3");
    assert_eq!(v.len(), 3);
    match &v[0] {
        Expr::Expr(inner) => {
            assert_eq!(inner.len(), 3);
            assert!(is_int(&inner[0], 1));
            assert!(is_op(&inner[1], Operator::Add));
            assert!(is_int(&inner[2], 2));
        }
        other => panic!("not a group: {:?}", other),
    }
    assert!(is_op(&v[1], Operator::Mul));
    assert!(is_int(&v[2], 3));
}

#[test]
fn decimal_is_float() {
    let v = nodes("3.14");
    assert_eq!(v.len(), 1);
    assert_eq!(literal(&v[0]), Type::Float("3.14".to_string()));
    if let Type::Float(t) = literal(&v[0]) {
        assert_eq!(t.parse::<f64>().unwrap(), 3.14);
    }
}

#[test]
fn integer_edges() {
    assert_eq!(literal(&nodes("-5")[0]), Type::Integer(-5));
    assert_eq!(literal(&nodes("+7")[0]), Type::Integer(7));
    assert_eq!(literal(&nodes("-9223372036854775808")[0]), Type::Integer(i64::MIN));
    assert_eq!(literal(&nodes("9223372036854775807")[0]), Type::Integer(i64::MAX));
    assert_eq!(
        literal(&nodes("9223372036854775808")[0]),
        Type::Float("9223372036854775808".to_string())
    );
}

#[test]
fn float_forms() {
    for s in ["1e5", "2.", ".5", "-1.5E-3", "inf", "-Infinity", "NaN", "+.5e+2"] {
        assert_eq!(literal(&nodes(s)[0]), Type::Float(s.to_string()), "{}", s);
        assert!(s.parse::<f64>().is_ok());
    }
}

#[test]
fn not_quite_numbers_are_symbols() {
    for s in [".", "e5", "1e", "1.2.3", "--1", "infin", "x1"] {
        let t = literal(&nodes(s)[0]);
        assert_eq!(t, Type::Symbol(s.to_string()), "{}", s);
        assert!(s.parse::<f64>().is_err());
    }
}

#[test]
fn quoted_string_loses_its_quotes() {
    assert_eq!(literal(&nodes("\"hello world\"")[0]), Type::String("hello world".to_string()));
    assert_eq!(literal(&nodes("\"\"")[0]), Type::String(String::new()));
    assert_eq!(literal(&nodes("\"(x)\"")[0]), Type::String("(x)".to_string()));
}

#[test]
fn empty_group_is_empty_expr() {
    let v = nodes("()");
    assert!(matches!(&v[0], Expr::Expr(inner) if inner.is_empty()));
}

#[test]
fn all_operators() {
    let v = nodes("+ - * / % == > <");
    let want = [
        Operator::Add,
        Operator::Sub,
        Operator::Mul,
        Operator::Div,
        Operator::Mod,
        Operator::Equal,
        Operator::Greater,
        Operator::Less,
    ];
    assert_eq!(v.len(), 8);
    for (e, o) in v.iter().zip(want) {
        assert!(is_op(e, o));
    }
    assert_eq!(literal(&nodes("=")[0]), Type::Symbol("=".to_string()));
}

#[test]
fn strict_mode_rejects_bare_words() {
    assert_eq!(
        parse_expr_with("x + 1".to_string(), Mode::Strict).unwrap_err(),
        ParseError::UnrecognizedToken
    );
    assert_eq!(literal(&nodes("x")[0]), Type::Symbol("x".to_string()));
    assert!(parse_expr_with("1 + (2 * 3)".to_string(), Mode::Strict).is_ok());
}

#[test]
fn blank_token_is_an_error() {
    assert_eq!(parse_expr("\u{0B}".to_string()).unwrap_err(), ParseError::EmptyToken);
}

#[test]
fn tokenizer_errors_are_passed_on() {
    assert_eq!(
        parse_expr("(1 + 2".to_string()).unwrap_err(),
        ParseError::Syntax(SyntaxError::UnbalancedParenthesis)
    );
    assert_eq!(
        parse_expr("( \"x )".to_string()).unwrap_err(),
        ParseError::Syntax(SyntaxError::UnterminatedQuote)
    );
}

#[test]
fn number_classes_agree_with_std() {
    let samples = [
        "0", "-0", "+0", "42", "-42", "+42", "007", "9223372036854775807", "-9223372036854775808",
        "9223372036854775808", "-9223372036854775809", "123456789012345678901234567890", "1.", ".1",
        "1.5", "-.5", "+1.e3", "1e10", "1E-10", "1e+10", "1.5e", "e", "E1", ".", "-.",
        "1..2", "1e1e1", "inf", "INF", "+inf", "-infinity", "Infinity", "nan", "-NaN", "infinit",
        "nanx", "0x10", "1_000", "1,5", "١٢", "x", "abc", "--1", "+-1", "1-", "½",
    ];
    for s in samples {
        let t = literal(&nodes(s)[0]);
        match (s.parse::<i64>(), s.parse::<f64>()) {
            (Ok(i), _) => assert_eq!(t, Type::Integer(i), "{}", s),
            (Err(_), Ok(_)) => assert_eq!(t, Type::Float(s.to_string()), "{}", s),
            (Err(_), Err(_)) => assert_eq!(t, Type::Symbol(s.to_string()), "{}", s),
        }
    }
}
